//! The decisions of the cache around the disk: what a lookup finds, which files
//! the periodic sweep deletes, and which entries the background writer stores.
use crate::metadata::{expired_at, Metadata};
use vstd::prelude::*;

verus! {

/// What a lookup of a route finds on disk.
#[derive(Debug, PartialEq, Eq, Structural)]
pub enum LookupState {
    /// No readable header: fetch from the origin.
    Miss,
    /// A header whose time to live has run out: fetch from the origin.
    Stale,
    /// A fresh header: serve the cached bytes.
    Hit,
}

/// The state of a lookup, from the header read from disk (if any) and a clock
/// reading (if the clock could be read). An unreadable clock never makes an
/// entry stale.
pub fn classify(header: Option<&Metadata>, now: Option<u64>) -> (r: LookupState)
    ensures
        r == match header {
            None => LookupState::Miss,
            Some(m) => match now {
                Some(t) => if expired_at(m.creation_date, m.ttl, t as int) {
                    LookupState::Stale
                } else {
                    LookupState::Hit
                },
                None => LookupState::Hit,
            },
        },
{
    match header {
        None => LookupState::Miss,
        Some(m) => {
            if m.ttl_check_at(now) {
                LookupState::Stale
            } else {
                LookupState::Hit
            }
        },
    }
}

/// Whether a lookup goes to the origin: on a miss and on a stale entry.
pub fn needs_origin(state: &LookupState) -> (r: bool)
    ensures
        r == (*state != LookupState::Hit),
{
    match state {
        LookupState::Hit => false,
        _ => true,
    }
}

/// Whether the sweep deletes a directory entry: a regular file whose header
/// parsed and has expired by the clock reading. Other entries, files whose
/// header did not parse, and any file when the clock is unreadable are kept.
pub fn janitor_should_delete(is_file: bool, header: Option<&Metadata>, now: Option<u64>) -> (r: bool)
    ensures
        r == (is_file && match header {
            Some(m) => match now {
                Some(t) => expired_at(m.creation_date, m.ttl, t as int),
                None => false,
            },
            None => false,
        }),
{
    if !is_file {
        return false;
    }
    match header {
        Some(m) => m.ttl_check_at(now),
        None => false,
    }
}

/// Whether the background writer stores an entry: only where no file stands at
/// its path yet, so the first writer wins and nothing is overwritten.
pub fn writer_should_persist(target_exists: bool) -> (r: bool)
    ensures
        r == !target_exists,
{
    !target_exists
}

} // verus!
