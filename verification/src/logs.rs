//! Housekeeping rules of the log folder: how long entries are kept and when
//! the rolling log files roll over.
use vstd::prelude::*;

verus! {

/// Seconds that a log entry is kept: one week.
pub const LOG_RETENTION_SECS: u64 = 604800;

/// Bytes after which a rolling log file rolls over: 100 MiB.
pub const LOG_ROLL_SIZE: u64 = 104857600;

/// Rolled-over files kept per log.
pub const LOG_ROLL_COUNT: u32 = 30;

/// Index of the first rolled-over file.
pub const LOG_ROLL_BASE: u32 = 0;

/// An entry of the log folder is removed once it was last modified more than
/// a week ago.
pub fn log_entry_expired(age_secs: u64) -> (r: bool)
    ensures
        r == (age_secs > 7 * 24 * 3600),
{
    age_secs > LOG_RETENTION_SECS
}

/// Which entries of the log folder the cleaner removes, given each entry's age
/// in seconds since it was last modified (`None` where the age cannot be
/// read): exactly those whose age is known and more than a week.
pub fn expired_entries(ages: &Vec<Option<u64>>) -> (r: Vec<bool>)
    ensures
        r@.len() == ages@.len(),
        forall|i: int|
            0 <= i < ages@.len() ==> r@[i] == (ages@[i] matches Some(a) && a > 7 * 24 * 3600),
{
    let mut r: Vec<bool> = Vec::new();
    let mut i: usize = 0;
    while i < ages.len()
        invariant
            i <= ages@.len(),
            r@.len() == i,
            forall|j: int|
                0 <= j < i ==> r@[j] == (ages@[j] matches Some(a) && a > 7 * 24 * 3600),
        decreases ages@.len() - i,
    {
        let expired = match ages[i] {
            Some(a) => log_entry_expired(a),
            None => false,
        };
        r.push(expired);
        i = i + 1;
    }
    r
}

} // verus!
