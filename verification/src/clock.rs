//! THE LOG CLOCK: which zone a generation parses stamps through, and how far it disagrees with this
//! machine's.
//!
//! A log's stamp is a zone-less local wall clock, so a fold that resolves the wrong zone moves every
//! event by a whole number of hours. The zone is resolved once per attach and the disagreement is
//! measured on the live tail, where the newest line is seconds old by construction.
use crate::text::{copy_opt, opt_text};
use crate::timestamp::{
    resolution, resolve_zone, resolved_by, ResolvedZone, ZoneHint, ZoneSource,
};
use crate::views::Cut;
use crate::world::World;
use vstd::prelude::*;

verus! {

/// How far a live tail's newest line may sit from this machine's clock before the engine says so:
/// half an hour, which is above every honest cause and below the smallest real zone error.
pub const SKEW_ALARM_MS: i64 = 1_800_000;

/// What an attach says about its host's clock.
pub struct ClockHint {
    pub tz: Option<String>,
    pub utc_offset_min: Option<i64>,
}

/// Where a zone came from, in the perf answer's own members.
#[derive(Debug, Clone, Copy, PartialEq, Eq, Structural)]
pub enum PerfSnapshotResultClockSource {
    Host,
    Platform,
    Offset,
    Utc,
}

/// An offset that fits, or nothing: one that will not is dropped rather than truncated.
pub open spec fn narrowed(m: Option<i64>) -> Option<i32> {
    match m {
        Some(v) if i32::MIN <= v <= i32::MAX => Some(v as i32),
        _ => None,
    }
}

/// The attach's clock hint in the parser's vocabulary. An absent hint is an empty one: the engine
/// resolves alone.
pub fn zone_hint(clock: Option<&ClockHint>) -> (r: ZoneHint)
    ensures
        match clock {
            Some(c) => opt_text(r.tz) == opt_text(c.tz) && r.utc_offset_min == narrowed(
                c.utc_offset_min,
            ),
            None => r.tz is None && r.utc_offset_min is None,
        },
{
    match clock {
        None => ZoneHint::default(),
        Some(c) => ZoneHint {
            tz: copy_opt(&c.tz),
            utc_offset_min: match c.utc_offset_min {
                Some(v) => if i32::MIN as i64 <= v && v <= i32::MAX as i64 {
                    Some(v as i32)
                } else {
                    None
                },
                None => None,
            },
        },
    }
}

pub open spec fn clock_source_of(source: ZoneSource) -> PerfSnapshotResultClockSource {
    match source {
        ZoneSource::Host => PerfSnapshotResultClockSource::Host,
        ZoneSource::Platform => PerfSnapshotResultClockSource::Platform,
        ZoneSource::Offset => PerfSnapshotResultClockSource::Offset,
        ZoneSource::Utc => PerfSnapshotResultClockSource::Utc,
    }
}

/// The parser's own vocabulary for where a zone came from, onto the wire's.
pub fn clock_source(source: ZoneSource) -> (r: PerfSnapshotResultClockSource)
    ensures
        r == clock_source_of(source),
{
    match source {
        ZoneSource::Host => PerfSnapshotResultClockSource::Host,
        ZoneSource::Platform => PerfSnapshotResultClockSource::Platform,
        ZoneSource::Offset => PerfSnapshotResultClockSource::Offset,
        ZoneSource::Utc => PerfSnapshotResultClockSource::Utc,
    }
}

/// What a reading of the live tail's skew came to.
#[derive(Debug, Clone, Copy, PartialEq, Eq, Structural)]
pub struct Skew {
    /// This machine's clock minus the newest line's, or nothing for a tail that folded no stamped
    /// line.
    pub ms: Option<i64>,
    /// The whole minutes to be said aloud, when this is the first reading past the alarm.
    pub alarm_min: Option<i64>,
}

pub open spec fn magnitude(n: int) -> int {
    if n < 0 {
        -n
    } else {
        n
    }
}

/// Division by a minute that cuts off toward nought.
pub open spec fn minutes_of(ms: int) -> int {
    if ms >= 0 {
        ms / 60_000
    } else {
        -((-ms) / 60_000)
    }
}

/// The skew a live tail's newest line reads against this machine's clock, and the one diagnostic a
/// generation may print about it. Past [`SKEW_ALARM_MS`] it is said ONCE: a resolved zone does not
/// change under a fold.
pub fn skew_of(now_ms: i64, last_ts: Option<i64>, said: &mut bool) -> (r: Skew)
    requires
        last_ts matches Some(ts) ==> i64::MIN < now_ms - ts <= i64::MAX,
    ensures
        match last_ts {
            None => r == (Skew { ms: None, alarm_min: None }) && *final(said) == *old(said),
            Some(ts) => {
                let alarm = !*old(said) && magnitude(now_ms - ts) >= SKEW_ALARM_MS;
                &&& r.ms == Some((now_ms - ts) as i64)
                &&& r.alarm_min == (if alarm {
                    Some(minutes_of(now_ms - ts) as i64)
                } else {
                    None
                })
                &&& *final(said) == (*old(said) || alarm)
            },
        },
{
    match last_ts {
        None => Skew { ms: None, alarm_min: None },
        Some(ts) => {
            let skew: i64 = now_ms - ts;
            let size: i64 = if skew < 0 {
                -skew
            } else {
                skew
            };
            if !*said && size >= SKEW_ALARM_MS {
                *said = true;
                let minutes: i64 = if skew < 0 {
                    -(size / 60_000)
                } else {
                    size / 60_000
                };
                Skew { ms: Some(skew), alarm_min: Some(minutes) }
            } else {
                Skew { ms: Some(skew), alarm_min: None }
            }
        },
    }
}

/// Resolve this attach's zone and state it on the world, before the first stamp is parsed. A losing
/// turn's statement is rejected inside `report_clock`.
pub fn resolve_and_report<Q: Cut>(
    world: &mut World<Q>,
    generation: u64,
    hint: &ZoneHint,
) -> (r: ResolvedZone)
    ensures
        exists|now: int, platform: Option<Seq<char>>|
            resolved_by(now, platform) && (r.zone@, r.source) == #[trigger] resolution(
                opt_text(hint.tz),
                hint.utc_offset_min,
                now,
                platform,
            ),
        final(world)@ == old(world)@.clock(generation, r.zone@.name(), r.source),
{
    let resolved = resolve_zone(hint);
    world.report_clock(generation, &resolved);
    resolved
}

} // verus!
