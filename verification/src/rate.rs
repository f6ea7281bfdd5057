//! The rolling-window rate limiter: caps how much raw activity one account
//! may convert per window.
//!
//! Each account carries a record `(accumulated, window_start)`. A submission
//! first resets the record when the window has elapsed (or none was open),
//! then grants as much of the request as still fits under `STEP_LIMIT`, and
//! adds the grant to the accumulated counter. A record with `window_start`
//! zero means that no window has been opened yet.

use vstd::prelude::*;

verus! {

/// Length of the rolling window in nanoseconds: one day.
pub const WINDOW_NANOS: u64 = 86_400_000_000_000;

/// Nominal daily conversion quota in activity units.
pub const DAILY_QUOTA: u32 = 10_000;

/// Hard cap per rolling window: twice the nominal daily quota, to tolerate
/// submission jitter.
pub const STEP_LIMIT: u32 = 2 * DAILY_QUOTA;

/// Whether a submission at `now` opens a fresh window: no window was open
/// yet, or a full window has elapsed since the recorded start. A clock that
/// reports a time before the recorded start keeps the window open.
pub open spec fn window_reset(rec: (u32, u64), now: u64) -> bool {
    rec.1 == 0 || (now >= rec.1 && now - rec.1 >= WINDOW_NANOS)
}

/// Activity already counted against the window that a submission at `now`
/// falls into.
pub open spec fn rate_base(rec: (u32, u64), now: u64) -> u32 {
    if window_reset(rec, now) {
        0u32
    } else {
        rec.0
    }
}

/// How much of `requested` the limiter grants: the part that still fits
/// under `STEP_LIMIT` in the current window.
pub open spec fn rate_granted(rec: (u32, u64), requested: u32, now: u64) -> u32 {
    let base = rate_base(rec, now);
    if base >= STEP_LIMIT {
        0u32
    } else if requested <= STEP_LIMIT - base {
        requested
    } else {
        (STEP_LIMIT - base) as u32
    }
}

/// The record after a submission: the grant is added to the accumulated
/// counter of the (possibly freshly opened) window.
pub open spec fn rate_next(rec: (u32, u64), requested: u32, now: u64) -> (u32, u64) {
    (
        (rate_base(rec, now) + rate_granted(rec, requested, now)) as u32,
        if window_reset(rec, now) {
            now
        } else {
            rec.1
        },
    )
}

/// The rate cap: starting from any record that respects the cap, a
/// submission grants at most what is left under `STEP_LIMIT`, and the
/// accumulated counter — the total granted in the current window — never
/// exceeds `STEP_LIMIT` afterwards, however many submissions a window sees.
pub proof fn lemma_rate_cap(rec: (u32, u64), requested: u32, now: u64)
    requires
        rec.0 <= STEP_LIMIT,
    ensures
        rate_granted(rec, requested, now) <= requested,
        rate_base(rec, now) + rate_granted(rec, requested, now) <= STEP_LIMIT,
        rate_next(rec, requested, now).0 <= STEP_LIMIT,
{
}

/// A submission sequence `(requested, time)` folded through one rate record.
pub open spec fn rate_fold(rec: (u32, u64), subs: Seq<(u32, u64)>) -> (u32, u64)
    decreases subs.len(),
{
    if subs.len() == 0 {
        rec
    } else {
        rate_fold(rate_next(rec, subs[0].0, subs[0].1), subs.drop_first())
    }
}

/// Total activity such a sequence is granted.
pub open spec fn rate_fold_granted(rec: (u32, u64), subs: Seq<(u32, u64)>) -> int
    decreases subs.len(),
{
    if subs.len() == 0 {
        0
    } else {
        rate_granted(rec, subs[0].0, subs[0].1) + rate_fold_granted(
            rate_next(rec, subs[0].0, subs[0].1),
            subs.drop_first(),
        )
    }
}

/// The rate cap over a whole window: however many submissions fall into one
/// open window, the activity they are granted together — on top of whatever
/// the window had already counted — never exceeds `STEP_LIMIT`.
pub proof fn lemma_rate_window_cap(rec: (u32, u64), subs: Seq<(u32, u64)>)
    requires
        rec.0 <= STEP_LIMIT,
        rec.1 != 0,
        forall|i: int| 0 <= i < subs.len() ==> rec.1 <= #[trigger] subs[i].1 < rec.1 + WINDOW_NANOS,
    ensures
        rate_fold(rec, subs).1 == rec.1,
        rate_fold(rec, subs).0 == rec.0 + rate_fold_granted(rec, subs),
        rec.0 + rate_fold_granted(rec, subs) <= STEP_LIMIT,
    decreases subs.len(),
{
    if subs.len() > 0 {
        let next = rate_next(rec, subs[0].0, subs[0].1);
        assert(!window_reset(rec, subs[0].1));
        assert(forall|i: int|
            0 <= i < subs.drop_first().len() ==> next.1 <= #[trigger] subs.drop_first()[i].1
                < next.1 + WINDOW_NANOS);
        lemma_rate_window_cap(next, subs.drop_first());
    }
}

/// Applies one submission to a rate record: returns the granted activity and
/// the updated record.
pub fn apply_rate(rec: (u32, u64), requested: u32, now: u64) -> (r: (u32, (u32, u64)))
    requires
        rec.0 <= STEP_LIMIT,
    ensures
        r.0 == rate_granted(rec, requested, now),
        r.1 == rate_next(rec, requested, now),
        r.1.0 <= STEP_LIMIT,
{
    let reset = rec.1 == 0 || (now >= rec.1 && now - rec.1 >= WINDOW_NANOS);
    let base: u32 = if reset {
        0
    } else {
        rec.0
    };
    let start: u64 = if reset {
        now
    } else {
        rec.1
    };
    let granted: u32 = if base >= STEP_LIMIT {
        0
    } else if requested <= STEP_LIMIT - base {
        requested
    } else {
        STEP_LIMIT - base
    };
    (granted, (base + granted, start))
}

} // verus!
