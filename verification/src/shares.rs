//! The time rules of the share economy, over plain second timestamps. The
//! database reads and writes, and the floating-point share amounts, stay
//! with the command layer; it hands these functions the clock readings they
//! need.

use vstd::prelude::*;

verus! {

/// The base time in seconds until a share can be collected again or a
/// generator runs once.
pub const COLLECTION_COOLDOWN: i32 = 60 * 60;

/// The widest timestamp these rules accept, comfortably beyond any clock
/// reading, so that the cooldown arithmetic stays in range.
pub const TIMESTAMP_BOUND: i64 = 0x2000_0000_0000_0000;

/// Whether shares can be collected at `now`: always before the first
/// collection, and after more than a cooldown since the last one.
pub fn can_collect(collection_time: Option<i64>, now: i64) -> (r: bool)
    requires
        -TIMESTAMP_BOUND < now < TIMESTAMP_BOUND,
        collection_time matches Some(t) ==> -TIMESTAMP_BOUND < t < TIMESTAMP_BOUND,
    ensures
        r == match collection_time {
            None => true,
            Some(t) => now - t > COLLECTION_COOLDOWN,
        },
{
    match collection_time {
        None => true,
        Some(t) => now - t > COLLECTION_COOLDOWN as i64,
    }
}

/// When the next collection opens: one cooldown after the last one.
pub fn next_collection_time(collection_time: i64) -> (r: i64)
    requires
        -TIMESTAMP_BOUND < collection_time < TIMESTAMP_BOUND,
    ensures
        r == collection_time + COLLECTION_COOLDOWN,
{
    collection_time + COLLECTION_COOLDOWN as i64
}

/// How many whole generator runs have passed since the generators last ran.
pub fn generation_ticks(generation_time: i64, now: i64) -> (t: i64)
    requires
        -TIMESTAMP_BOUND < generation_time <= now < TIMESTAMP_BOUND,
    ensures
        t == (now - generation_time) / (COLLECTION_COOLDOWN as int),
        t >= 0,
{
    (now - generation_time) / (COLLECTION_COOLDOWN as i64)
}

/// The generators' new reference time after `ticks` whole runs: the ticks
/// are paid out and anything shorter than a cooldown stays pending.
pub fn advanced_generation_time(generation_time: i64, ticks: i64) -> (r: i64)
    requires
        -TIMESTAMP_BOUND < generation_time < TIMESTAMP_BOUND,
        0 <= ticks <= TIMESTAMP_BOUND / (COLLECTION_COOLDOWN as i64),
    ensures
        r == generation_time + COLLECTION_COOLDOWN * ticks,
{
    proof {
        assert((COLLECTION_COOLDOWN as int) * ticks <= (COLLECTION_COOLDOWN as int) * (
        TIMESTAMP_BOUND as int / COLLECTION_COOLDOWN as int)) by (nonlinear_arith)
            requires
                0 <= ticks <= TIMESTAMP_BOUND as int / COLLECTION_COOLDOWN as int,
        ;
        assert((COLLECTION_COOLDOWN as int) * (TIMESTAMP_BOUND as int / COLLECTION_COOLDOWN as int)
            <= TIMESTAMP_BOUND as int) by (nonlinear_arith);
        assert((COLLECTION_COOLDOWN as int) * ticks >= 0) by (nonlinear_arith)
            requires
                ticks >= 0,
        ;
    }
    generation_time + (COLLECTION_COOLDOWN as i64) * ticks
}

} // verus!
