//! Building strings piece by piece: repeated characters, spaces, other
//! strings, and integers written with `_` after every third digit.
use vstd::prelude::*;
use vstd::string::*;

verus! {

/// Relies on `String::push`: appends one character at the end.
#[verifier::external_body]
fn push_char(s: &mut String, c: char)
    ensures
        final(s)@ == old(s)@.push(c),
{
    s.push(c);
}

/// `x` copies of `c`.
pub open spec fn repeated(c: char, x: nat) -> Seq<char> {
    Seq::new(x, |i: int| c)
}

/// Returns `s` with `x` copies of `c` appended.
pub fn add_chars_n(s: String, c: char, x: u8) -> (r: String)
    ensures
        r@ == s@ + repeated(c, x as nat),
{
    let mut s = s;
    add_chars_n_void(&mut s, c, x);
    s
}

/// Appends `x` copies of `c` to `s`.
pub fn add_chars_n_void(s: &mut String, c: char, x: u8)
    ensures
        final(s)@ == old(s)@ + repeated(c, x as nat),
{
    let mut i: u8 = 0;
    while i < x
        invariant
            i <= x,
            s@ == old(s)@ + repeated(c, i as nat),
        decreases x - i,
    {
        push_char(s, c);
        i = i + 1;
        assert(s@ =~= old(s)@ + repeated(c, i as nat));
    }
}

/// Appends `x` spaces to `s`.
pub fn add_space(s: &mut String, x: u8)
    ensures
        final(s)@ == old(s)@ + repeated(' ', x as nat),
{
    add_chars_n_void(s, ' ', x);
}

/// Appends `a` to `s`.
pub fn add_str(s: &mut String, a: String)
    ensures
        final(s)@ == old(s)@ + a@,
{
    s.append(a.as_str());
}

/// The decimal digits of `n`, most significant first; `0` has the one digit 0.
pub open spec fn decimal_digits(n: nat) -> Seq<u8>
    decreases n,
{
    if n < 10 {
        seq![n as u8]
    } else {
        decimal_digits(n / 10).push((n % 10) as u8)
    }
}

pub open spec fn digit_char(v: u8) -> char {
    ((v as u32) + 48) as char
}

/// The first `k` digits of `d` as characters, with `_` after every third
/// one counted from the left, except after the last digit of `d`.
pub open spec fn grouped(d: Seq<u8>, k: nat) -> Seq<char>
    decreases k,
{
    if k == 0 {
        Seq::empty()
    } else {
        let t = grouped(d, (k - 1) as nat).push(digit_char(d[k - 1]));
        if k % 3 == 0 && k != d.len() {
            t.push('_')
        } else {
            t
        }
    }
}

/// Appends the decimal form of `number` to `s`, with `_` after every third
/// digit counted from the left (`306437968` gives `306_437_968`).
pub fn add_integer(s: &mut String, number: u32)
    ensures
        final(s)@ == old(s)@ + grouped(
            decimal_digits(number as nat),
            decimal_digits(number as nat).len(),
        ),
{
    let mut ds: Vec<u8> = Vec::new();
    let mut m: u32 = number;
    while m >= 10
        invariant
            decimal_digits(number as nat) == decimal_digits(m as nat) + ds@,
            forall|j: int| 0 <= j < ds@.len() ==> #[trigger] ds@[j] < 10,
        decreases m,
    {
        let ghost prev = ds@;
        ds.insert(0, (m % 10) as u8);
        assert(decimal_digits(m as nat) == decimal_digits((m / 10) as nat).push((m % 10) as u8));
        assert(decimal_digits(m as nat) + prev =~= decimal_digits((m / 10) as nat) + ds@);
        m = m / 10;
    }
    ds.insert(0, m as u8);
    assert(ds@ =~= decimal_digits(number as nat));
    let len = ds.len();
    let mut i: usize = 0;
    while i < len
        invariant
            len == ds@.len(),
            ds@ == decimal_digits(number as nat),
            forall|j: int| 0 <= j < ds@.len() ==> #[trigger] ds@[j] < 10,
            i <= len,
            s@ == old(s)@ + grouped(ds@, i as nat),
        decreases len - i,
    {
        let ghost before = s@;
        push_char(s, (ds[i] + 48) as char);
        if (i + 1) % 3 == 0 && i + 1 != len {
            push_char(s, '_');
        }
        assert(s@ =~= old(s)@ + grouped(ds@, (i + 1) as nat));
        i = i + 1;
    }
}

} // verus!
