//! The purgatory buffer: delays pricing of an account's activity by one
//! window to smooth bursts.
//!
//! Each account carries a record `(buffered, last_start)`. A submission at
//! time `t` against a record started at `last_start` takes one of four
//! transitions:
//! - first ever submission (`last_start == 0`): start buffering, price
//!   nothing;
//! - within one window of the start: accumulate, price nothing;
//! - more than one but at most two windows later: finalize — price the
//!   buffer (capped at `PURGATORY_CAP`) and restart buffering with the
//!   current submission;
//! - more than two windows later: forfeit — the stale buffer is discarded
//!   unpriced, and buffering restarts with the current submission.

use crate::rate::WINDOW_NANOS;
use vstd::prelude::*;

verus! {

/// Most buffered activity that one finalization will price.
pub const PURGATORY_CAP: u64 = 20_000;

/// Whether a submission at `now` finalizes the record: the buffering period
/// ended at most one further window ago. A clock that reports a time before
/// the recorded start keeps the record buffering.
pub open spec fn purg_finalizes(rec: (u64, u64), now: u64) -> bool {
    rec.1 != 0 && now >= rec.1 && WINDOW_NANOS < now - rec.1 && now - rec.1 <= 2 * WINDOW_NANOS
}

/// Whether a submission at `now` forfeits the record: more than two windows
/// have elapsed, so the stale buffer is discarded unpriced.
pub open spec fn purg_forfeits(rec: (u64, u64), now: u64) -> bool {
    rec.1 != 0 && now >= rec.1 && now - rec.1 > 2 * WINDOW_NANOS
}

/// Activity priced by a submission at `now`: the buffer (capped) when the
/// record finalizes, and nothing otherwise.
pub open spec fn purg_priced(rec: (u64, u64), now: u64) -> u64 {
    if purg_finalizes(rec, now) {
        if rec.0 <= PURGATORY_CAP {
            rec.0
        } else {
            PURGATORY_CAP
        }
    } else {
        0u64
    }
}

/// The record after a submission of `activity` at `now`: accumulation keeps
/// the period start, every other transition restarts buffering with the
/// current submission. Accumulation saturates, which loses nothing: a buffer
/// is never priced beyond `PURGATORY_CAP`.
pub open spec fn purg_next(rec: (u64, u64), activity: u32, now: u64) -> (u64, u64) {
    if rec.1 == 0 || purg_finalizes(rec, now) || purg_forfeits(rec, now) {
        (activity as u64, now)
    } else {
        (
            if rec.0 + activity <= u64::MAX {
                (rec.0 + activity) as u64
            } else {
                u64::MAX
            },
            rec.1,
        )
    }
}

/// Purgatory forfeiture: a buffer that sees no follow-up submission within
/// two windows of its start is discarded, not priced — the submission that
/// finds it stale prices zero buffered activity and starts a fresh period.
pub proof fn lemma_purgatory_forfeit(rec: (u64, u64), activity: u32, now: u64)
    requires
        purg_forfeits(rec, now),
    ensures
        purg_priced(rec, now) == 0,
        purg_next(rec, activity, now) == (activity as u64, now),
{
}

/// Applies one submission to a purgatory record: returns the activity to
/// price now and the updated record.
pub fn apply_purgatory(rec: (u64, u64), activity: u32, now: u64) -> (r: (u64, (u64, u64)))
    ensures
        r.0 == purg_priced(rec, now),
        r.1 == purg_next(rec, activity, now),
        r.0 <= PURGATORY_CAP,
{
    if rec.1 == 0 {
        (0, (activity as u64, now))
    } else if now >= rec.1 && WINDOW_NANOS < now - rec.1 && now - rec.1 <= 2 * WINDOW_NANOS {
        let priced = if rec.0 <= PURGATORY_CAP {
            rec.0
        } else {
            PURGATORY_CAP
        };
        (priced, (activity as u64, now))
    } else if now >= rec.1 && now - rec.1 > 2 * WINDOW_NANOS {
        (0, (activity as u64, now))
    } else {
        let buffered = if activity as u64 <= u64::MAX - rec.0 {
            rec.0 + activity as u64
        } else {
            u64::MAX
        };
        (0, (buffered, rec.1))
    }
}

} // verus!
