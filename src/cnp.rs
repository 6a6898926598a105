//! Validation of a Romanian personal numeric code (CNP): thirteen decimal
//! digits with a valid leading digit, month and day, and a final control
//! digit computed from the first twelve.
use vstd::prelude::*;
use vstd::string::*;

verus! {

/// Why a code was refused.
#[derive(Debug, Clone, Copy, PartialEq, Eq, Structural)]
pub enum CnpError {
    LungimeGresita,
    NuENr,
    PrimaCifra,
    Luna,
    Zi,
    CifraControlIncorecta,
}

pub open spec fn is_digit_byte(c: u8) -> bool {
    48 <= c <= 57
}

/// The value of the digit at position `i`.
pub open spec fn digit_at(b: Seq<u8>, i: int) -> int {
    b[i] - 48
}

/// The control weights, the digits of `279146358279` in turn.
pub open spec fn weight(i: int) -> int {
    if i == 0 {
        2
    } else if i == 1 {
        7
    } else if i == 2 {
        9
    } else if i == 3 {
        1
    } else if i == 4 {
        4
    } else if i == 5 {
        6
    } else if i == 6 {
        3
    } else if i == 7 {
        5
    } else if i == 8 {
        8
    } else if i == 9 {
        2
    } else if i == 10 {
        7
    } else {
        9
    }
}

/// The weighted sum of the first `k` digits.
pub open spec fn weighted_sum(b: Seq<u8>, k: nat) -> int
    decreases k,
{
    if k == 0 {
        0
    } else {
        weighted_sum(b, (k - 1) as nat) + digit_at(b, k - 1) * weight(k - 1)
    }
}

/// The control digit that the first twelve digits call for.
pub open spec fn control_digit(b: Seq<u8>) -> int {
    let rest = weighted_sum(b, 12) % 11;
    if rest < 10 {
        rest
    } else {
        1
    }
}

/// The verdict on the UTF-8 bytes `b` of a candidate code.
pub open spec fn cnp_verdict(b: Seq<u8>) -> Result<(), CnpError> {
    if b.len() != 13 {
        Err(CnpError::LungimeGresita)
    } else if !(forall|i: int| 0 <= i < 13 ==> #[trigger] is_digit_byte(b[i])) {
        Err(CnpError::CifraControlIncorecta)
    } else if !(49 <= b[0] <= 56) {
        Err(CnpError::PrimaCifra)
    } else if !(1 <= digit_at(b, 3) * 10 + digit_at(b, 4) <= 12) {
        Err(CnpError::Luna)
    } else if !(1 <= digit_at(b, 5) * 10 + digit_at(b, 6) <= 31) {
        Err(CnpError::Zi)
    } else if control_digit(b) != digit_at(b, 12) {
        Err(CnpError::CifraControlIncorecta)
    } else {
        Ok(())
    }
}

fn weight_at(i: usize) -> (r: u32)
    requires
        i < 12,
    ensures
        r == weight(i as int),
{
    match i {
        0 => 2,
        1 => 7,
        2 => 9,
        3 => 1,
        4 => 4,
        5 => 6,
        6 => 3,
        7 => 5,
        8 => 8,
        9 => 2,
        10 => 7,
        _ => 9,
    }
}

/// Checks a CNP: its length in bytes, that every byte is a decimal digit, the
/// leading digit, the month and day, and the control digit, in that order.
pub fn valideaza_cnp(cnp: &str) -> (r: Result<(), CnpError>)
    ensures
        r == cnp_verdict(cnp.spec_bytes()),
{
    let b = cnp.as_bytes();
    if b.len() != 13 {
        return Err(CnpError::LungimeGresita);
    }
    let mut i: usize = 0;
    while i < 13
        invariant
            b@ == cnp.spec_bytes(),
            b@.len() == 13,
            i <= 13,
            forall|j: int| 0 <= j < i ==> #[trigger] is_digit_byte(b@[j]),
        decreases 13 - i,
    {
        if !(48 <= b[i] && b[i] <= 57) {
            assert(!is_digit_byte(b@[i as int]));
            return Err(CnpError::CifraControlIncorecta);
        }
        i = i + 1;
    }
    if !(49 <= b[0] && b[0] <= 56) {
        return Err(CnpError::PrimaCifra);
    }
    assert(is_digit_byte(b@[3]) && is_digit_byte(b@[4]) && is_digit_byte(b@[5]) && is_digit_byte(b@[6]));
    let luna: u8 = (b[3] - 48) * 10 + (b[4] - 48);
    if !(1 <= luna && luna <= 12) {
        return Err(CnpError::Luna);
    }
    let ziua: u8 = (b[5] - 48) * 10 + (b[6] - 48);
    if !(1 <= ziua && ziua <= 31) {
        return Err(CnpError::Zi);
    }
    let mut suma: u32 = 0;
    let mut k: usize = 0;
    while k < 12
        invariant
            b@ == cnp.spec_bytes(),
            b@.len() == 13,
            forall|j: int| 0 <= j < 13 ==> #[trigger] is_digit_byte(b@[j]),
            k <= 12,
            suma == weighted_sum(b@, k as nat),
            suma <= 81 * k,
        decreases 12 - k,
    {
        let w = weight_at(k);
        assert(is_digit_byte(b@[k as int]));
        let d: u32 = (b[k] - 48) as u32;
        assert(d * w <= 81) by (nonlinear_arith)
            requires
                d <= 9,
                w <= 9,
        ;
        suma = suma + d * w;
        k = k + 1;
    }
    let rest = suma % 11;
    let control = if rest < 10 {
        rest
    } else {
        1
    };
    assert(is_digit_byte(b@[12]));
    if control != (b[12] - 48) as u32 {
        return Err(CnpError::CifraControlIncorecta);
    }
    Ok(())
}

} // verus!
