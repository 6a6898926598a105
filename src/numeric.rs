//! Small integer utilities: greatest common divisor, primality, and
//! overflow-checked addition and multiplication.
use vstd::prelude::*;
use vstd::arithmetic::div_mod::{lemma_fundamental_div_mod, lemma_mod_multiples_basic};

verus! {

/// Greatest common divisor by repeated subtraction, zero when either side is zero.
pub open spec fn gcd_spec(a: nat, b: nat) -> nat
    decreases a + b,
{
    if a == 0 || b == 0 {
        0
    } else if a > b {
        gcd_spec((a - b) as nat, b)
    } else if b > a {
        gcd_spec(a, (b - a) as nat)
    } else {
        a
    }
}

pub fn gcd(a: u8, b: u8) -> (r: u8)
    ensures
        r == gcd_spec(a as nat, b as nat),
{
    if a == 0 || b == 0 {
        return 0;
    }
    let mut x = a;
    let mut y = b;
    loop
        invariant
            x > 0 && y > 0,
            gcd_spec(x as nat, y as nat) == gcd_spec(a as nat, b as nat),
        decreases x + y,
    {
        if x > y {
            x = x - y;
        } else if y > x {
            y = y - x;
        } else {
            return x;
        }
    }
}

/// `x` has no divisor strictly between 1 and itself, and is at least 2.
pub open spec fn prime(x: nat) -> bool {
    x >= 2 && forall|d: nat| 2 <= d < x ==> #[trigger] (x % d) != 0
}

proof fn lemma_odd_has_no_even_divisor(x: int, d: int)
    requires
        x >= 0,
        x % 2 == 1,
        d >= 2,
        d % 2 == 0,
    ensures
        x % d != 0,
{
    if x % d == 0 {
        lemma_fundamental_div_mod(x, d);
        lemma_fundamental_div_mod(d, 2);
        let q = x / d;
        let h = d / 2;
        assert(x == (q * h) * 2) by (nonlinear_arith)
            requires
                x == d * q,
                d == 2 * h,
        ;
        lemma_mod_multiples_basic(q * h, 2);
    }
}

proof fn lemma_divisor_pairs(x: int, i: int, d: int) -> (q: int)
    requires
        2 <= i,
        i * i > x,
        i <= d < x,
        x % d == 0,
    ensures
        2 <= q < i,
        x % q == 0,
{
    lemma_fundamental_div_mod(x, d);
    let q = x / d;
    assert(x == d * q);
    assert(q >= 2) by (nonlinear_arith)
        requires
            x == d * q,
            d < x,
            d >= 2,
    ;
    assert(q < i) by (nonlinear_arith)
        requires
            x == d * q,
            i * i > x,
            i <= d,
            i >= 2,
    ;
    lemma_mod_multiples_basic(d, q);
    assert(d * q == q * d) by (nonlinear_arith);
    q
}

pub fn is_prime(x: u16) -> (r: bool)
    ensures
        r == prime(x as nat),
{
    if x < 2 {
        return false;
    }
    if x % 2 == 0 && x != 2 {
        assert((x as nat) % 2 == 0);
        return false;
    }
    let mut i: u16 = 3;
    while i <= x / i
        invariant
            3 <= i <= 257,
            i % 2 == 1,
            x >= 2,
            x == 2 || x % 2 == 1,
            forall|d: nat| 2 <= d < i && d < x ==> #[trigger] ((x as nat) % d) != 0,
        decreases 257 - i,
    {
        assert(i * i <= x) by (nonlinear_arith)
            requires
                i <= x / i,
                i > 0,
        ;
        assert(i <= 255) by (nonlinear_arith)
            requires
                i * i <= x,
                x <= 65535,
                i >= 0,
        ;
        if x % i == 0 {
            assert(!prime(x as nat)) by {
                assert(i < x) by (nonlinear_arith)
                    requires
                        i * i <= x,
                        i >= 3,
                ;
                assert((x as nat) % (i as nat) == 0);
            }
            return false;
        }
        proof {
            assert forall|d: nat| 2 <= d < i + 2 && d < x implies #[trigger] ((x as nat) % d) != 0 by {
                if d == i + 1 {
                    lemma_odd_has_no_even_divisor(x as int, d as int);
                }
            }
        }
        i = i + 2;
    }
    proof {
        assert(x < i * i) by (nonlinear_arith)
            requires
                i > x / i,
                i > 0,
        {
            lemma_fundamental_div_mod(x as int, i as int);
        }
        assert forall|d: nat| 2 <= d < x implies #[trigger] ((x as nat) % d) != 0 by {
            if d >= i && (x as nat) % d == 0 {
                let q = lemma_divisor_pairs(x as int, i as int, d as int);
                assert((x as nat) % (q as nat) != 0);
            }
        }
    }
    true
}

/// The smallest prime above `x`, or `None` when no `u16` above `x` is prime.
pub fn next_prime(x: u16) -> (r: Option<u16>)
    ensures
        match r {
            Some(p) => p > x && prime(p as nat) && forall|q: nat| x < q < p ==> !#[trigger] prime(q),
            None => forall|q: nat| x < q <= u16::MAX ==> !#[trigger] prime(q),
        },
{
    let mut z = match x.checked_add(1) {
        Some(v) => v,
        None => return None,
    };
    loop
        invariant
            z > x,
            forall|q: nat| x < q < z ==> !#[trigger] prime(q),
        decreases u16::MAX - z,
    {
        if is_prime(z) {
            return Some(z);
        }
        z = match z.checked_add(1) {
            Some(v) => v,
            None => return None,
        };
    }
}

/// Adds two numbers whose sum is known to fit.
pub fn checked_addition(x: u32, y: u32) -> (r: u32)
    requires
        x + y <= u32::MAX,
    ensures
        r == x + y,
{
    x + y
}

/// Multiplies two numbers whose product is known to fit.
pub fn checked_multiplication(x: u32, y: u32) -> (r: u32)
    requires
        x * y <= u32::MAX,
    ensures
        r == x * y,
{
    if x == 0 || y == 0 {
        return 0;
    }
    x * y
}

/// Which checked operation overflowed.
#[derive(Debug, Clone, Copy, PartialEq, Eq, Structural)]
pub enum OverflowError {
    OverflowAddition,
    OverflowMultiplication,
}

/// The sum, or the addition error when it does not fit in a `u32`.
pub open spec fn sum_or_overflow(x: u32, y: u32) -> Result<u32, OverflowError> {
    if x + y > u32::MAX {
        Err(OverflowError::OverflowAddition)
    } else {
        Ok((x + y) as u32)
    }
}

/// The product, or the multiplication error when it does not fit in a `u32`.
pub open spec fn product_or_overflow(x: u32, y: u32) -> Result<u32, OverflowError> {
    if x * y > u32::MAX {
        Err(OverflowError::OverflowMultiplication)
    } else {
        Ok((x * y) as u32)
    }
}

pub fn result_checked_adition(x: u32, y: u32) -> (r: Result<u32, OverflowError>)
    ensures
        r == sum_or_overflow(x, y),
{
    if u32::MAX - x < y {
        return Err(OverflowError::OverflowAddition);
    }
    Ok(x + y)
}

pub fn result_checked_multiplication(x: u32, y: u32) -> (r: Result<u32, OverflowError>)
    ensures
        r == product_or_overflow(x, y),
{
    if x == 0 || y == 0 {
        assert(x * y == 0) by (nonlinear_arith)
            requires
                x == 0 || y == 0,
        ;
        return Ok(0);
    } else if u32::MAX / x < y {
        assert(x * y > u32::MAX) by (nonlinear_arith)
            requires
                u32::MAX / x < y,
                x > 0,
        {
            lemma_fundamental_div_mod(u32::MAX as int, x as int);
        }
        return Err(OverflowError::OverflowMultiplication);
    }
    assert(x * y <= u32::MAX) by (nonlinear_arith)
        requires
            u32::MAX / x >= y,
            x > 0,
    {
        lemma_fundamental_div_mod(u32::MAX as int, x as int);
    }
    Ok(x * y)
}

/// Checked addition, passing its result on.
pub fn use_function_add(x: u32, y: u32) -> (r: Result<u32, OverflowError>)
    ensures
        r == sum_or_overflow(x, y),
{
    result_checked_adition(x, y)
}

/// Checked multiplication, passing its result on.
pub fn use_function_multiply(x: u32, y: u32) -> (r: Result<u32, OverflowError>)
    ensures
        r == product_or_overflow(x, y),
{
    result_checked_multiplication(x, y)
}

} // verus!
