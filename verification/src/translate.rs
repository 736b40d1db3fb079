//! The perf answers' folds: this engine's own measurements onto the wire's shapes.
//!
//! No state, no lock, no clock. Two enumerations are mapped by an exhaustive `match` rather than by
//! their spellings: a member added on one side and not the other must stop the build.
use crate::sorted::{ascending, ascending_is_unique, precedes, TextMap};
use crate::views::{Moment, SourceMeter};
use vstd::prelude::*;

verus! {

/// What the ingest is doing.
#[derive(Debug, Clone, Copy, PartialEq, Eq, Structural)]
pub enum HealthResultStatus {
    Starting,
    Attaching,
    Folding,
    Live,
    Idle,
}

/// The same, in the perf answer's own five members.
#[derive(Debug, Clone, Copy, PartialEq, Eq, Structural)]
pub enum PerfSnapshotResultStatus {
    Starting,
    Attaching,
    Folding,
    Live,
    Idle,
}

pub open spec fn perf_status_of(status: HealthResultStatus) -> PerfSnapshotResultStatus {
    match status {
        HealthResultStatus::Starting => PerfSnapshotResultStatus::Starting,
        HealthResultStatus::Attaching => PerfSnapshotResultStatus::Attaching,
        HealthResultStatus::Folding => PerfSnapshotResultStatus::Folding,
        HealthResultStatus::Live => PerfSnapshotResultStatus::Live,
        HealthResultStatus::Idle => PerfSnapshotResultStatus::Idle,
    }
}

/// The health status onto the perf answer's own five members.
pub fn perf_status(status: HealthResultStatus) -> (r: PerfSnapshotResultStatus)
    ensures
        r == perf_status_of(status),
{
    match status {
        HealthResultStatus::Starting => PerfSnapshotResultStatus::Starting,
        HealthResultStatus::Attaching => PerfSnapshotResultStatus::Attaching,
        HealthResultStatus::Folding => PerfSnapshotResultStatus::Folding,
        HealthResultStatus::Live => PerfSnapshotResultStatus::Live,
        HealthResultStatus::Idle => PerfSnapshotResultStatus::Idle,
    }
}

/// A counter, or the largest number the wire holds.
pub open spec fn clamped(value: int) -> i64 {
    if value > i64::MAX {
        i64::MAX
    } else {
        value as i64
    }
}

/// A counter onto the wire's integer. Saturating rather than wrapping.
pub fn clamp_i64(value: u64) -> (r: i64)
    ensures
        r == clamped(value as int),
{
    if value > i64::MAX as u64 {
        i64::MAX
    } else {
        value as i64
    }
}

pub open spec fn clamped_opt(value: Option<u64>) -> Option<i64> {
    match value {
        Some(v) => Some(clamped(v as int)),
        None => None,
    }
}

/// An optional counter onto the wire's integer.
pub fn clamp_opt(value: Option<u64>) -> (r: Option<i64>)
    ensures
        r == clamped_opt(value),
{
    match value {
        Some(v) => Some(clamp_i64(v)),
        None => None,
    }
}

/// One entry of the recent history, as it goes on the wire.
#[derive(Debug, Clone, Copy, PartialEq, Eq, Structural)]
pub struct PerfMoment {
    pub at_ms: i64,
    pub span_ms: i64,
    pub frames: i64,
    pub payload_weight: i64,
    pub fold_to_frame_us_max: Option<i64>,
}

pub open spec fn moment_of(m: Moment) -> PerfMoment {
    PerfMoment {
        at_ms: clamped(m.at_ms as int),
        span_ms: clamped(m.span_ms as int),
        frames: clamped(m.frames as int),
        payload_weight: clamped(m.bytes as int),
        fold_to_frame_us_max: clamped_opt(m.worst_us),
    }
}

/// One ring entry on the wire: five field assignments and no arithmetic.
pub fn moment_row(moment: &Moment) -> (r: PerfMoment)
    ensures
        r == moment_of(*moment),
{
    PerfMoment {
        at_ms: clamp_i64(moment.at_ms),
        span_ms: clamp_i64(moment.span_ms),
        frames: clamp_i64(moment.frames),
        payload_weight: clamp_i64(moment.bytes),
        fold_to_frame_us_max: clamp_opt(moment.worst_us),
    }
}

/// One source's bill, as it goes on the wire.
pub struct PerfServeSource {
    pub source: String,
    pub counts: ServeCounts,
}

/// The numbers of a source's bill.
#[derive(Debug, Clone, Copy, PartialEq, Eq, Structural)]
pub struct ServeCounts {
    pub frames: i64,
    pub resets: i64,
    pub diffs: i64,
    pub rows: i64,
    pub payload_weight: i64,
    pub widest_payload_weight: i64,
    pub fold_to_frame_us_mean: Option<i64>,
    pub fold_to_frame_us_max: Option<i64>,
    pub subscribers: i64,
}

/// What a source that has served owes, before anybody is counted as watching it.
pub open spec fn billed(m: SourceMeter) -> ServeCounts {
    ServeCounts {
        frames: clamped(m.frames as int),
        resets: clamped(m.resets as int),
        diffs: clamped(m.diffs as int),
        rows: clamped(m.rows as int),
        payload_weight: clamped(m.bytes as int),
        widest_payload_weight: clamped(m.widest as int),
        fold_to_frame_us_mean: clamped_opt(m.latency_mean_us),
        fold_to_frame_us_max: clamped_opt(m.latency_max_us),
        subscribers: 0,
    }
}

/// A source somebody is subscribed to that has served nothing yet.
pub open spec fn nothing_served() -> ServeCounts {
    ServeCounts {
        frames: 0,
        resets: 0,
        diffs: 0,
        rows: 0,
        payload_weight: 0,
        widest_payload_weight: 0,
        fold_to_frame_us_mean: None,
        fold_to_frame_us_max: None,
        subscribers: 0,
    }
}

/// The bill of a source, from the last meter that names it; nothing for one that has none.
pub open spec fn bill_of(served: Seq<SourceMeter>, source: Seq<char>) -> Option<ServeCounts>
    decreases served.len(),
{
    if served.len() == 0 {
        None
    } else if served.last().source@ == source {
        Some(billed(served.last()))
    } else {
        bill_of(served.drop_last(), source)
    }
}

/// The row of a source: its bill, or zeros, and how many are watching it; nothing for one that has
/// neither served nor is watched.
pub open spec fn serve_row_of(
    served: Seq<SourceMeter>,
    watched: Map<Seq<char>, i64>,
    source: Seq<char>,
) -> Option<ServeCounts> {
    let bill = bill_of(served, source);
    if watched.contains_key(source) {
        Some(
            ServeCounts {
                subscribers: watched[source],
                ..(match bill {
                    Some(b) => b,
                    None => nothing_served(),
                })
            },
        )
    } else {
        bill
    }
}

impl View for ServeCounts {
    type V = ServeCounts;

    open spec fn view(&self) -> ServeCounts {
        *self
    }
}

/// The names of the rows, in order.
pub open spec fn row_names(v: Seq<PerfServeSource>) -> Seq<Seq<char>> {
    v.map_values(|r: PerfServeSource| r.source@)
}

/// The rows are those of the sources that have served or are watched, in ascending order of their
/// names, each with its numbers.
pub open spec fn serves(
    rows: Seq<PerfServeSource>,
    served: Seq<SourceMeter>,
    watched: Map<Seq<char>, i64>,
) -> bool {
    &&& ascending(row_names(rows))
    &&& forall|source: Seq<char>|
        row_names(rows).contains(source) <==> (#[trigger] serve_row_of(
            served,
            watched,
            source,
        )) is Some
    &&& forall|i: int|
        0 <= i < rows.len() ==> serve_row_of(served, watched, (#[trigger] rows[i]).source@) == Some(
            rows[i].counts,
        )
}

fn bill(m: &SourceMeter) -> (r: ServeCounts)
    ensures
        r == billed(*m),
{
    ServeCounts {
        frames: clamp_i64(m.frames),
        resets: clamp_i64(m.resets),
        diffs: clamp_i64(m.diffs),
        rows: clamp_i64(m.rows),
        payload_weight: clamp_i64(m.bytes),
        widest_payload_weight: clamp_i64(m.widest),
        fold_to_frame_us_mean: clamp_opt(m.latency_mean_us),
        fold_to_frame_us_max: clamp_opt(m.latency_max_us),
        subscribers: 0,
    }
}

/// A source somebody is subscribed to that has served nothing yet. Every counter is a real zero, and
/// the two latencies are absent, because nothing was timed.
fn empty_serve_row() -> (r: ServeCounts)
    ensures
        r == nothing_served(),
{
    ServeCounts {
        frames: 0,
        resets: 0,
        diffs: 0,
        rows: 0,
        payload_weight: 0,
        widest_payload_weight: 0,
        fold_to_frame_us_mean: None,
        fold_to_frame_us_max: None,
        subscribers: 0,
    }
}

/// The union of what has served and what is being watched, ordered by source name. A source in
/// neither set is absent.
pub fn serve_rows(served: &Vec<SourceMeter>, watched: &TextMap<i64>) -> (r: Vec<PerfServeSource>)
    ensures
        serves(r@, served@, watched@.at),
{
    let mut rows: TextMap<ServeCounts> = TextMap::new();
    let mut i: usize = 0;
    while i < served.len()
        invariant
            i <= served.len(),
            forall|k: Seq<char>|
                #[trigger] rows@.at.contains_key(k) <==> bill_of(served@.take(i as int), k) is Some,
            forall|k: Seq<char>|
                #[trigger] rows@.at.contains_key(k) ==> bill_of(served@.take(i as int), k) == Some(
                    rows@.at[k],
                ),
        decreases served.len() - i,
    {
        assert(served@.take(i + 1).drop_last() =~= served@.take(i as int));
        assert(served@.take(i + 1).last() == served@[i as int]);
        rows.insert(served[i].source.clone(), bill(&served[i]));
        i = i + 1;
    }
    assert(served@.take(i as int) =~= served@);
    let ghost bills = rows@.at;
    let n: usize = watched.len();
    let mut j: usize = 0;
    while j < n
        invariant
            j <= n,
            n == watched@.keys.len(),
            watched@.wf(),
            forall|k: Seq<char>|
                #[trigger] bills.contains_key(k) <==> bill_of(served@, k) is Some,
            forall|k: Seq<char>|
                #[trigger] bills.contains_key(k) ==> bill_of(served@, k) == Some(bills[k]),
            forall|k: Seq<char>|
                #[trigger] rows@.at.contains_key(k) <==> bills.contains_key(k)
                    || watched@.keys.take(j as int).contains(k),
            forall|k: Seq<char>|
                #[trigger] rows@.at.contains_key(k) ==> rows@.at[k] == (
                if watched@.keys.take(j as int).contains(k) {
                    serve_row_of(served@, watched@.at, k)->0
                } else {
                    bills[k]
                }),
        decreases n - j,
    {
        let source = watched.key_at(j);
        let count: i64 = *watched.value_at(j);
        let ghost front = watched@.keys.take(j as int);
        let ghost before = rows@.at;
        proof {
            assert(watched@.keys.take(j + 1) =~= front.push(source@));
            assert forall|k: Seq<char>|
                #[trigger] front.push(source@).contains(k) <==> front.contains(k) || k == source@ by {
                if front.contains(k) {
                    let x = choose|x: int| 0 <= x < front.len() && front[x] == k;
                    assert(front.push(source@)[x] == k);
                }
                assert(front.push(source@)[front.len() as int] == source@);
                if front.push(source@).contains(k) && k != source@ {
                    let x = choose|x: int|
                        0 <= x < front.push(source@).len() && front.push(source@)[x] == k;
                    assert(front[x] == k);
                }
            }
            if front.contains(source@) {
                let x = choose|x: int| 0 <= x < front.len() && front[x] == source@;
                assert(precedes(watched@.keys[x], watched@.keys[j as int]));
                crate::sorted::precedes_is_total(source@, source@);
            }
        }
        let base: ServeCounts = match rows.get(source) {
            Some(c) => *c,
            None => empty_serve_row(),
        };
        rows.insert(source.to_owned(), ServeCounts { subscribers: count, ..base });
        proof {
            assert forall|k: Seq<char>| #[trigger] rows@.at.contains_key(k) implies rows@.at[k] == (
            if watched@.keys.take(j + 1).contains(k) {
                serve_row_of(served@, watched@.at, k)->0
            } else {
                bills[k]
            }) by {
                assert(front.push(source@).contains(k) <==> front.contains(k) || k == source@);
                if k != source@ {
                    assert(before.contains_key(k));
                }
            }
            assert forall|k: Seq<char>|
                #[trigger] rows@.at.contains_key(k) <==> bills.contains_key(k)
                    || watched@.keys.take(j + 1).contains(k) by {
                assert(front.push(source@).contains(k) <==> front.contains(k) || k == source@);
                assert(before.contains_key(k) <==> bills.contains_key(k) || front.contains(k));
            }
        }
        j = j + 1;
    }
    assert(watched@.keys.take(j as int) =~= watched@.keys);
    let m: usize = rows.len();
    let mut out: Vec<PerfServeSource> = Vec::new();
    let mut x: usize = 0;
    while x < m
        invariant
            x <= m,
            m == rows@.keys.len(),
            out.len() == x,
            forall|y: int|
                0 <= y < x ==> (#[trigger] out@[y]).source@ == rows@.keys[y] && out@[y].counts
                    == rows@.at[rows@.keys[y]],
        decreases m - x,
    {
        out.push(
            PerfServeSource { source: rows.key_at(x).to_owned(), counts: *rows.value_at(x) },
        );
        x = x + 1;
    }
    proof {
        assert(row_names(out@) =~= rows@.keys);
        assert forall|source: Seq<char>|
            row_names(out@).contains(source) <==> (#[trigger] serve_row_of(
                served@,
                watched@.at,
                source,
            )) is Some by {
            assert(rows@.keys.contains(source) <==> rows@.at.contains_key(source));
            assert(watched@.keys.contains(source) <==> watched@.at.contains_key(source));
            assert(bills.contains_key(source) <==> bill_of(served@, source) is Some);
        }
        assert forall|y: int| 0 <= y < out.len() implies serve_row_of(
            served@,
            watched@.at,
            (#[trigger] out@[y]).source@,
        ) == Some(out@[y].counts) by {
            let k = rows@.keys[y];
            assert(rows@.keys.contains(k));
            assert(rows@.at.contains_key(k));
            assert(watched@.keys.contains(k) <==> watched@.at.contains_key(k));
            assert(bills.contains_key(k) <==> bill_of(served@, k) is Some);
        }
    }
    out
}

/// What was served and what is watched determine the rows.
pub proof fn serve_rows_are_determined(
    a: Seq<PerfServeSource>,
    b: Seq<PerfServeSource>,
    served: Seq<SourceMeter>,
    watched: Map<Seq<char>, i64>,
)
    requires
        serves(a, served, watched),
        serves(b, served, watched),
    ensures
        row_names(a) == row_names(b),
        forall|i: int| 0 <= i < a.len() ==> (#[trigger] a[i]).counts == b[i].counts,
{
    assert forall|k: Seq<char>| #[trigger] row_names(a).contains(k) <==> row_names(b).contains(k) by {
        assert(row_names(a).contains(k) <==> serve_row_of(served, watched, k) is Some);
        assert(row_names(b).contains(k) <==> serve_row_of(served, watched, k) is Some);
    }
    ascending_is_unique(row_names(a), row_names(b));
    assert forall|i: int| 0 <= i < a.len() implies (#[trigger] a[i]).counts == b[i].counts by {
        assert(row_names(a)[i] == a[i].source@);
        assert(row_names(b)[i] == b[i].source@);
        assert(row_names(a).len() == a.len() && row_names(b).len() == b.len());
    }
}

} // verus!
