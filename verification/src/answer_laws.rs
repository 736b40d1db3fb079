//! What a question is answered: laws of the numbers on the wire, of who is counted, and of what an
//! engine says where there is nobody to ask.
use crate::clock::{magnitude, minutes_of, narrowed, SKEW_ALARM_MS};
use crate::text::opt_text;
use crate::translate::{
    bill_of, billed, clamped, clamped_opt, moment_of, perf_status_of, row_names, serve_row_of,
    serves, HealthResultStatus, PerfServeSource, ServeCounts,
};
use crate::views::{Cut, Moment, SourceMeter};
use crate::world::{
    all_subs, budgets_answers, combat_answers, is_health, module_answers, perf_answers,
    perf_unanswered, timeline_answers, unanswered, worst_of, CombatAnswer, EnginePerf, HealthResult,
    PerfAnswer, PerfBudgetsResult, PerfSnapshotResult, PerfTimelineResult, Reply, SnapshotAnswer,
    StandingV, SubV, WorldState,
};
use vstd::prelude::*;

verus! {

// ---- numbers on the wire ---------------------------------------------------------------------

/// A counter goes on the wire as itself wherever the wire can hold it, never wraps, and keeps its order
/// with every other.
pub proof fn a_counter_is_itself_or_the_most(a: u64, b: u64)
    ensures
        a <= 9_223_372_036_854_775_807 ==> clamped(a as int) == a,
        a > 9_223_372_036_854_775_807 ==> clamped(a as int) == 9_223_372_036_854_775_807,
        a <= b ==> clamped(a as int) <= clamped(b as int),
        clamped_opt(None) is None,
        clamped_opt(Some(a)) == Some(clamped(a as int)),
{
}

/// An offset on the wire is itself or, where it will not fit, absent: never another.
pub proof fn an_offset_is_itself_or_absent(m: Option<i64>)
    ensures
        narrowed(m) matches Some(v) ==> m == Some(v as i64),
        (narrowed(m) is Some) <==> (m matches Some(v) && -2_147_483_648 <= v && v <= 2_147_483_647),
{
}

/// Whole minutes are cut off toward nought: a span and its negation come to as many, and what is cut off
/// is under a minute.
pub proof fn minutes_are_cut_off_toward_nought(ms: int)
    ensures
        minutes_of(-ms) == -minutes_of(ms),
        ms >= 0 ==> minutes_of(ms) * 60_000 <= ms < minutes_of(ms) * 60_000 + 60_000,
        magnitude(ms) == magnitude(-ms),
        ms >= 0 ==> magnitude(ms) == ms,
{
}

/// The alarm is raised from half an hour, either way, and not under it.
pub proof fn the_alarm_is_half_an_hour(ms: int)
    ensures
        magnitude(ms) >= SKEW_ALARM_MS <==> minutes_of(ms) >= 30 || minutes_of(ms) <= -30,
{
}

/// The two answers name one status: no two statuses are one on the wire, and each keeps its name.
pub proof fn a_status_keeps_its_name(a: HealthResultStatus, b: HealthResultStatus)
    ensures
        perf_status_of(a) == perf_status_of(b) <==> a == b,
        (perf_status_of(a) is Starting) <==> (a is Starting),
        (perf_status_of(a) is Attaching) <==> (a is Attaching),
        (perf_status_of(a) is Folding) <==> (a is Folding),
        (perf_status_of(a) is Live) <==> (a is Live),
        (perf_status_of(a) is Idle) <==> (a is Idle),
{
}

/// A moment keeps what it measured: when, for how long, how many frames, how heavy, and the worst wait
/// where there was one.
pub proof fn a_moment_keeps_what_it_measured(m: Moment)
    requires
        m.at_ms <= i64::MAX,
        m.span_ms <= i64::MAX,
        m.frames <= i64::MAX,
        m.bytes <= i64::MAX,
        m.worst_us matches Some(w) ==> w <= i64::MAX,
    ensures
        ({
            let p = moment_of(m);
            &&& p.at_ms == m.at_ms && p.span_ms == m.span_ms && p.frames == m.frames && p.payload_weight
                == m.bytes
            &&& p.fold_to_frame_us_max is Some <==> m.worst_us is Some
            &&& m.worst_us matches Some(w) ==> p.fold_to_frame_us_max == Some(w as i64)
        }),
{
}

/// A bill keeps what its meter counted, and counts nobody as watching.
pub proof fn a_bill_keeps_what_was_counted(m: SourceMeter)
    requires
        m.frames <= i64::MAX,
        m.resets <= i64::MAX,
        m.diffs <= i64::MAX,
        m.rows <= i64::MAX,
        m.bytes <= i64::MAX,
        m.widest <= i64::MAX,
        m.latency_mean_us matches Some(w) ==> w <= i64::MAX,
        m.latency_max_us matches Some(w) ==> w <= i64::MAX,
    ensures
        ({
            let b = billed(m);
            &&& b.frames == m.frames && b.resets == m.resets && b.diffs == m.diffs && b.rows == m.rows
            &&& b.payload_weight == m.bytes && b.widest_payload_weight == m.widest
            &&& b.fold_to_frame_us_mean is Some <==> m.latency_mean_us is Some
            &&& m.latency_mean_us matches Some(w) ==> b.fold_to_frame_us_mean == Some(w as i64)
            &&& b.fold_to_frame_us_max is Some <==> m.latency_max_us is Some
            &&& m.latency_max_us matches Some(w) ==> b.fold_to_frame_us_max == Some(w as i64)
            &&& b.subscribers == 0
        }),
{
}

/// A source is billed from the last meter that names it, and from none where none does.
pub proof fn the_last_meter_bills(served: Seq<SourceMeter>, source: Seq<char>)
    ensures
        ({
            let own = served.filter(|m: SourceMeter| m.source@ == source);
            &&& bill_of(served, source) is Some <==> own.len() > 0
            &&& own.len() > 0 ==> bill_of(served, source) == Some(billed(own.last()))
        }),
    decreases served.len(),
{
    reveal(Seq::filter);
    if served.len() > 0 {
        the_last_meter_bills(served.drop_last(), source);
    }
}

/// A row stands for every source that has served or is watched, and for no other. Its numbers are the
/// source's bill, noughts for one that has served nothing; and it counts who is watching, nobody where
/// nobody is.
pub proof fn a_row_stands_for_what_served_or_is_watched(
    rows: Seq<PerfServeSource>,
    served: Seq<SourceMeter>,
    watched: Map<Seq<char>, i64>,
    source: Seq<char>,
)
    requires
        serves(rows, served, watched),
    ensures
        (exists|i: int| 0 <= i < rows.len() && (#[trigger] rows[i]).source@ == source)
            <==> watched.contains_key(source) || exists|j: int|
            0 <= j < served.len() && (#[trigger] served[j]).source@ == source,
        forall|i: int|
            0 <= i < rows.len() && (#[trigger] rows[i]).source@ == source ==> {
                let own = served.filter(|m: SourceMeter| m.source@ == source);
                let c = rows[i].counts;
                &&& c.subscribers == (if watched.contains_key(source) {
                    watched[source] as int
                } else {
                    0
                })
                &&& own.len() > 0 ==> c == (ServeCounts {
                    subscribers: c.subscribers,
                    ..billed(own.last())
                })
                &&& own.len() == 0 ==> c.frames == 0 && c.resets == 0 && c.diffs == 0 && c.rows == 0
                    && c.payload_weight == 0 && c.widest_payload_weight == 0 && c.fold_to_frame_us_mean
                    is None && c.fold_to_frame_us_max is None
            },
{
    let p = |m: SourceMeter| m.source@ == source;
    let own = served.filter(p);
    the_last_meter_bills(served, source);
    let names = row_names(rows);
    assert(names.contains(source) <==> serve_row_of(served, watched, source) is Some);
    if own.len() > 0 {
        assert(served.filter(p).contains(own[0]));
        served.lemma_filter_contains_rev(p, own[0]);
        served.lemma_filter_pred(p, 0);
        let j = choose|j: int| 0 <= j < served.len() && served[j] == own[0];
        assert(served[j].source@ == source);
    }
    if exists|j: int| 0 <= j < served.len() && (#[trigger] served[j]).source@ == source {
        let j = choose|j: int| 0 <= j < served.len() && (#[trigger] served[j]).source@ == source;
        served.lemma_filter_contains(p, j);
        assert(own.len() > 0);
    }
    if names.contains(source) {
        let i = choose|i: int| 0 <= i < names.len() && names[i] == source;
        assert(rows[i].source@ == source);
    }
    assert forall|i: int| 0 <= i < rows.len() && (#[trigger] rows[i]).source@ == source implies serve_row_of(
        served,
        watched,
        source,
    ) == Some(rows[i].counts) && names.contains(source) by {
        assert(names[i] == source);
    }
}

// ---- who answers -----------------------------------------------------------------------------

/// A question goes unanswered for three reasons, and each says its own: no log is attached, the fold that
/// was answering has ended, or it did not answer in time. It is answered exactly where there is a door and
/// something came back through it.
pub proof fn each_silence_says_why<T>(asks: bool, reply: Reply<T>)
    ensures
        unanswered(asks, reply) is None <==> asks && reply is Answered,
        !asks ==> unanswered(asks, reply) == Some("no log is attached, so there is no fold to ask"@),
        asks && reply is Ended ==> unanswered(asks, reply) == Some(
            "the fold that was answering has ended"@,
        ),
        asks && reply is TimedOut ==> unanswered(asks, reply) == Some(
            "the fold did not answer within 5000 ms"@,
        ),
        perf_unanswered(asks, reply) is None <==> !asks || reply is Answered,
        asks ==> perf_unanswered(asks, reply) == unanswered(asks, reply),
{
}

/// A module's question comes to the module's state where the fold gave one, to "no such module" where the
/// fold gave none, and to the reason where nobody answered.
pub proof fn a_module_is_told_apart_from_a_fold<T>(
    r: SnapshotAnswer<T>,
    asks: bool,
    reply: Reply<Option<T>>,
)
    requires
        module_answers(r, asks, reply),
    ensures
        r is Unavailable <==> !(asks && reply is Answered),
        r is NotFound <==> asks && (reply matches Reply::Answered(v) && v is None),
        r matches SnapshotAnswer::Snapshot(v) ==> reply == Reply::Answered(Some(v)),
        r matches SnapshotAnswer::Unavailable(s) ==> Some(s@) == unanswered(asks, reply),
{
}

/// A combat question comes to the engine's answer where the fold gave one; to what is said of a fold that
/// carries none where it gave none; and to the reason where nobody answered.
pub proof fn a_combat_question_says_what_is_missing<T>(
    r: CombatAnswer<T>,
    asks: bool,
    reply: Reply<Option<T>>,
    without: Seq<char>,
)
    requires
        combat_answers(r, asks, reply, without),
    ensures
        r is Answer <==> asks && (reply matches Reply::Answered(v) && v is Some),
        r matches CombatAnswer::Answer(v) ==> reply == Reply::Answered(Some(v)),
        r matches CombatAnswer::Unavailable(s) ==> (asks && reply is Answered ==> s@ == without),
        r matches CombatAnswer::Unavailable(s) ==> (!(asks && reply is Answered) ==> Some(s@)
            == unanswered(asks, reply)),
{
}

/// The worst wait is one of the sources' worst and no source's is longer; there is none where no source has
/// one.
pub proof fn the_worst_wait_is_the_longest(serve: Seq<SourceMeter>)
    ensures
        worst_of(serve) is Some <==> exists|i: int|
            0 <= i < serve.len() && (#[trigger] serve[i]).latency_max_us is Some,
        worst_of(serve) is Some ==> exists|i: int|
            0 <= i < serve.len() && (#[trigger] serve[i]).latency_max_us == worst_of(serve),
        forall|i: int|
            0 <= i < serve.len() ==> ((#[trigger] serve[i]).latency_max_us matches Some(w) ==> worst_of(
                serve,
            ) matches Some(x) && w <= x),
    decreases serve.len(),
{
    if serve.len() > 0 {
        let f = serve.drop_last();
        the_worst_wait_is_the_longest(f);
        assert(serve.last() == serve[serve.len() - 1]);
        assert forall|i: int| 0 <= i < f.len() implies #[trigger] serve[i] == f[i] by {}
        if worst_of(f) is Some {
            let i = choose|i: int|
                0 <= i < f.len() && (#[trigger] f[i]).latency_max_us == worst_of(f);
            assert(serve[i].latency_max_us == worst_of(f));
        }
    }
}

/// The readings are the fold's own: its scan and the worst wait of its sources, under the generation that
/// stands. An engine without a fold has none of them, which is an answer; only a fold that is there and
/// silent is a refusal.
pub proof fn readings_are_the_folds_own(
    r: PerfAnswer<PerfBudgetsResult>,
    epoch: i64,
    asks: bool,
    reply: Reply<EnginePerf>,
)
    requires
        budgets_answers(r, epoch, asks, reply),
    ensures
        r is Unavailable <==> asks && !(reply is Answered),
        r matches PerfAnswer::Unavailable(s) ==> Some(s@) == unanswered(asks, reply),
        r matches PerfAnswer::Perf(p) ==> p.epoch == epoch && (!asks ==> p.readings.scan_ms is None
            && p.readings.scan_bytes is None && p.readings.worst_serve_us is None),
        r matches PerfAnswer::Perf(p) ==> (asks ==> (reply matches Reply::Answered(m) && p.readings.scan_ms
            == m.ingest.scan_ms && p.readings.scan_bytes == m.ingest.scan_bytes && p.readings.worst_serve_us
            == worst_of(m.serve@))),
{
}

/// The history is the fold's, entry by entry in its order, with what the ring holds and how often it is
/// written; empty without a fold.
pub proof fn the_history_is_the_folds_own(
    r: PerfAnswer<PerfTimelineResult>,
    epoch: i64,
    asks: bool,
    reply: Reply<EnginePerf>,
)
    requires
        timeline_answers(r, epoch, asks, reply),
    ensures
        r is Unavailable <==> asks && !(reply is Answered),
        r matches PerfAnswer::Unavailable(s) ==> Some(s@) == unanswered(asks, reply),
        r matches PerfAnswer::Perf(p) ==> p.epoch == epoch && p.capacity == 300 && p.cadence_ms == 1_000 && (
        !asks ==> p.timeline@.len() == 0),
        r matches PerfAnswer::Perf(p) ==> (asks ==> (reply matches Reply::Answered(m)
            && p.timeline@.len() == m.timeline@.len() && forall|i: int|
            0 <= i < m.timeline@.len() ==> (#[trigger] p.timeline@[i]) == moment_of(m.timeline@[i]))),
{
}

/// What the world says of itself is what it is: its status, its generation and its uptime; and of the log,
/// how many events, when it was written and how far it is folded, where one is attached.
pub proof fn the_world_says_what_it_is(
    r: HealthResult,
    at: StandingV,
    uptime_ms: u64,
    log_mtime_ms: Option<i64>,
)
    requires
        is_health(r, at, uptime_ms, log_mtime_ms),
    ensures
        r.status == at.status && r.epoch == at.epoch && r.uptime_ms == clamped(uptime_ms as int),
        r.last_event_ts == at.fold.last_ts,
        at.fold.log is None ==> r.events is None && r.log_mtime_ms is None && r.mark is None,
        at.fold.log is Some ==> r.events == Some(at.fold.events) && r.log_mtime_ms == log_mtime_ms,
        at.fold.log matches Some(log) ==> (r.mark matches Some(m) && m.log@ == log && m.offset == clamped(
            at.fold.checkpoint as int,
        )),
{
}

/// What an engine says of its performance: what it is doing, as it says it of its health; its clock; what
/// its ingest cost; and the bill of its sources. Without a fold the cost is absent, and only a fold that is
/// there and silent is a refusal.
pub proof fn an_engine_says_what_it_cost(
    r: PerfAnswer<PerfSnapshotResult>,
    at: StandingV,
    uptime_ms: u64,
    reply: Reply<EnginePerf>,
)
    requires
        perf_answers(r, at, uptime_ms, reply),
    ensures
        r is Unavailable <==> at.asks && !(reply is Answered),
        r matches PerfAnswer::Unavailable(s) ==> Some(s@) == unanswered(at.asks, reply),
        r matches PerfAnswer::Perf(p) ==> {
            &&& p.status == perf_status_of(at.status) && p.epoch == at.epoch && p.uptime_ms == clamped(
                uptime_ms as int,
            )
            &&& p.last_event_ts == at.fold.last_ts
            &&& p.events == (if at.fold.log is Some {
                Some(at.fold.events)
            } else {
                None
            })
            &&& opt_text(p.clock_zone) == at.fold.clock_zone && p.clock_source == at.fold.clock_source
                && p.clock_skew_ms == at.fold.clock_skew_ms
            &&& p.mark is Some <==> at.fold.log is Some
            &&& p.mark matches Some(m) ==> Some(m.log@) == at.fold.log && m.offset == clamped(
                at.fold.checkpoint as int,
            )
            &&& !at.asks ==> p.ingest.spell_db_ms is None && p.ingest.scan_ms is None
                && p.ingest.scan_bytes is None && serves(p.serve@, Seq::empty(), at.watched)
            &&& at.asks ==> (reply matches Reply::Answered(m) && p.ingest.spell_db_ms == clamped_opt(
                m.ingest.spell_db_ms,
            ) && p.ingest.scan_ms == clamped_opt(m.ingest.scan_ms) && p.ingest.scan_bytes == clamped_opt(
                m.ingest.scan_bytes,
            ) && serves(p.serve@, m.serve@, at.watched))
        },
{
}

/// What the world is asked about is what it is at that instant, and it counts its own subscriptions.
pub proof fn the_standing_is_of_the_instant<Q: Cut>(w: WorldState<Q>, source: Seq<char>)
    ensures
        ({
            let at = w.standing();
            let readers = all_subs(w.listeners).filter(|s: SubV<Q>| s.view.source_of() == source);
            &&& at.status == w.status && at.epoch == w.epoch && at.fold == w.fold && at.asks == w.asks
            &&& at.watched.contains_key(source) <==> readers.len() > 0
            &&& readers.len() > 0 ==> at.watched[source] == clamped(readers.len() as int)
        }),
{
    crate::world_laws::a_source_is_watched_by_whoever_reads_it(all_subs(w.listeners), source);
}

} // verus!
