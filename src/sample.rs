//! Normalisation of raw per-process readings into record fields.
use vstd::prelude::*;
use vstd::string::*;

verus! {

/// Hundredths of a percent in a whole.
pub const WHOLE: u64 = 10000;

/// The owner shown for a process: `"system"` when it has no owning user,
/// `"Unknown"` when the user could not be looked up, the user's name otherwise.
pub fn owner_label(has_owner: bool, looked_up: Option<String>) -> (r: String)
    ensures
        !has_owner ==> r@ == "system"@,
        has_owner && looked_up is None ==> r@ == "Unknown"@,
        has_owner && looked_up is Some ==> r@ == looked_up->Some_0@,
{
    if !has_owner {
        String::from_str("system")
    } else {
        match looked_up {
            Some(name) => name,
            None => String::from_str("Unknown"),
        }
    }
}

/// The executable path shown for a process, `"Unknown"` when it is not available.
pub fn path_label(path: Option<String>) -> (r: String)
    ensures
        path is None ==> r@ == "Unknown"@,
        path is Some ==> r@ == path->Some_0@,
{
    match path {
        Some(p) => p,
        None => String::from_str("Unknown"),
    }
}

/// A process's usage spread over `cores` logical cores, so that one busy
/// core reads `1/cores` of the whole; zero when no core is reported.
pub fn per_core_usage(raw: u64, cores: u64) -> (r: u64)
    ensures
        r == if cores == 0 {
            0
        } else {
            raw / cores
        },
{
    if cores == 0 {
        0
    } else {
        raw / cores
    }
}

/// `used` as hundredths of a percent of `total`, rounded down; zero when
/// `total` is zero, and capped at `u64::MAX`.
pub open spec fn share(used: u64, total: u64) -> u64 {
    if total == 0 {
        0
    } else if (used * WHOLE) as int / total as int <= u64::MAX {
        ((used * WHOLE) as int / total as int) as u64
    } else {
        u64::MAX
    }
}

/// `used` as hundredths of a percent of `total` (see [`share`]).
pub fn share_of(used: u64, total: u64) -> (r: u64)
    ensures
        r == share(used, total),
{
    if total == 0 {
        0
    } else {
        assert((used as int) * (WHOLE as int) <= (u64::MAX as int) * 10000) by (nonlinear_arith)
            requires
                used <= u64::MAX,
                WHOLE == 10000,
        ;
        let wide: u128 = (used as u128) * (WHOLE as u128) / (total as u128);
        if wide <= u64::MAX as u128 {
            wide as u64
        } else {
            u64::MAX
        }
    }
}

} // verus!
