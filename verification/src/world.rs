//! The one door: every piece of state an engine holds lives in [`World`], and every reader asks by
//! calling a method.
//!
//! State is addressed by (log identity, byte offset), never "current": the epoch is stated on every
//! answer that depends on it. A new generation is a new world and the only way between them is the
//! fresh reset; there is no incremental repair.
//!
//! The epoch bump and its announcement are one step, so no connection can hear about generation N+1
//! before N; opening a subscription and stamping its reset share that step for the same reason. The
//! generation doubles as the ingest's ownership token, and every `report_*` asks for it, so a loser
//! can write nothing, ever.
//!
//! A question to the fold goes out through a door the ingest installs, and comes back as a
//! [`Reply`]; what is made of each reply is decided here, by the door that was found when the question
//! was put. Likewise the sources of a serve pass are built first, and whoever built them asks for the
//! world again before anything is pushed.
use crate::clock::{clock_source, clock_source_of, PerfSnapshotResultClockSource};
use crate::sorted::TextMap;
use crate::text::{copy_opt, lists, opt_text, same, texts};
use crate::timestamp::{ResolvedZone, ZoneSource};
use crate::translate::{
    clamp_i64, clamp_opt, clamped, clamped_opt, moment_of, moment_row, perf_status, perf_status_of,
    serve_rows, serves, HealthResultStatus, PerfMoment, PerfServeSource, PerfSnapshotResultStatus,
};
use crate::views::{
    diff, difference, row_views, Cut, FrameKind, Moment, Row, RowV, Rows, SourceMeter,
    SourceView, TIMELINE_CADENCE_MS, TIMELINE_CAPACITY,
};
use crate::wire::{
    said, DiffMessage, EngineMessage, EpochMessage, EpochReason, Fire, FoldProgress, ResetMessage,
    Said,
};
use vstd::prelude::*;

verus! {

/// The generation a fresh process starts in. One, not nought: there is always a world, even when it
/// is an empty one.
pub const FIRST_EPOCH: i64 = 1;

/// How long a reader waits for the ingest before calling it unreachable, in milliseconds.
pub const SNAPSHOT_PATIENCE_MS: u64 = 5_000;

/// What came back through the fold's door.
pub enum Reply<T> {
    /// The ingest ended between finding the door and knocking.
    Ended,
    /// The fold did not answer in time.
    TimedOut,
    Answered(T),
}

/// What a question about a module found. "This engine has no such module" and "this engine has no
/// fold" are different sentences.
#[derive(Debug)]
pub enum SnapshotAnswer<T> {
    /// The module answered with its published state.
    Snapshot(T),
    /// The fold carries no module by that name.
    NotFound,
    /// Nothing is folding, or the fold could not be reached.
    Unavailable(String),
}

/// What a performance question found. An engine with no fold is not a failure but an idle engine; the
/// only refusal is a fold that has a door and did not answer through it.
#[derive(Debug)]
pub enum PerfAnswer<T> {
    /// The engine's own numbers.
    Perf(T),
    /// A fold that was there to ask and did not answer in time.
    Unavailable(String),
}

/// What a combat question found.
#[derive(Debug)]
pub enum CombatAnswer<T> {
    /// The engine answered.
    Answer(T),
    /// Nothing is folding, this fold carries no combat engine, or it could not be reached.
    Unavailable(String),
}

/// One measurement of an ingest, as the ingest hands it to the world.
#[derive(Debug, Clone, Copy, PartialEq, Eq, Structural)]
pub struct FoldMark {
    /// The end of the last complete line folded.
    pub checkpoint: u64,
    /// Events folded so far.
    pub events: i64,
    /// How far through the bytes the mark has reached, as the bits of a percentage.
    pub pct_bits: u64,
    /// What the percentage was divided by.
    pub total: u64,
    /// The stamp of the last event folded, if one could be read.
    pub last_ts: Option<i64>,
    /// This machine's wall clock minus `last_ts`: the LIVE TAIL's measurement and nobody else's.
    pub skew_ms: Option<i64>,
    /// Which loop took this measurement: false for the historical scan, true for the tail.
    pub live: bool,
}

/// What the fold has consumed, as a coordinate the caller can name.
#[derive(Debug, Clone, PartialEq, Eq)]
pub struct Mark {
    /// The log being folded, or `None` before the first attach.
    pub log: Option<String>,
    pub checkpoint: u64,
    pub events: i64,
    pub last_ts: Option<i64>,
}

/// Names one connection's membership of the world: a receipt to hand back to [`World::leave`].
#[derive(Clone, Copy, Debug, PartialEq, Eq, Structural)]
pub struct ListenerId {
    pub n: u64,
}

/// A log, and how far into it the fold has got.
pub struct LogMark {
    pub log: String,
    pub offset: i64,
}

/// The answer to `session.health`.
pub struct HealthResult {
    pub status: HealthResultStatus,
    pub epoch: i64,
    pub uptime_ms: i64,
    pub events: Option<i64>,
    pub last_event_ts: Option<i64>,
    pub log_mtime_ms: Option<i64>,
    pub mark: Option<LogMark>,
}

/// The answer to `session.attach`.
#[derive(Debug, Clone, Copy, PartialEq, Eq, Structural)]
pub struct AttachResult {
    pub epoch: i64,
    pub accepted: bool,
    /// The ownership token of the turn that begins.
    pub generation: u64,
}

/// What the scan cost.
#[derive(Debug, Clone, Copy, PartialEq, Eq, Structural)]
pub struct IngestCost {
    pub spell_db_ms: Option<u64>,
    pub scan_ms: Option<u64>,
    pub scan_bytes: Option<u64>,
}

/// What the ingest measured of itself.
pub struct EnginePerf {
    pub ingest: IngestCost,
    pub serve: Vec<SourceMeter>,
    pub timeline: Vec<Moment>,
}

/// The scan's cost on the wire.
#[derive(Debug, Clone, Copy, PartialEq, Eq, Structural)]
pub struct PerfIngest {
    pub spell_db_ms: Option<i64>,
    pub scan_ms: Option<i64>,
    pub scan_bytes: Option<i64>,
}

/// The answer to `perf.snapshot`.
pub struct PerfSnapshotResult {
    pub status: PerfSnapshotResultStatus,
    pub epoch: i64,
    pub uptime_ms: i64,
    pub events: Option<i64>,
    pub last_event_ts: Option<i64>,
    pub clock_zone: Option<String>,
    pub clock_source: Option<PerfSnapshotResultClockSource>,
    pub clock_skew_ms: Option<i64>,
    pub mark: Option<LogMark>,
    pub ingest: PerfIngest,
    pub serve: Vec<PerfServeSource>,
}

/// What the budgets are judged against.
#[derive(Debug, Clone, Copy, PartialEq, Eq, Structural)]
pub struct Readings {
    pub scan_ms: Option<u64>,
    pub scan_bytes: Option<u64>,
    /// The worst over every source, and the generation's worst.
    pub worst_serve_us: Option<u64>,
}

/// The readings that `perf.budgets` judges, and the generation they are of.
#[derive(Debug, Clone, Copy, PartialEq, Eq, Structural)]
pub struct PerfBudgetsResult {
    pub epoch: i64,
    pub readings: Readings,
}

/// The answer to `perf.timeline`.
pub struct PerfTimelineResult {
    pub epoch: i64,
    pub capacity: i64,
    pub cadence_ms: i64,
    pub timeline: Vec<PerfMoment>,
}

/// One subscription's state: the query, and what the client is holding because of it.
pub struct Sub<Q> {
    pub view: Q,
    /// The rows the client holds, or `None` when a fresh reset is owed.
    pub held: Option<Vec<Row>>,
    /// The view's total as of the last frame.
    pub total: i64,
    /// The source revision `held` was cut at.
    pub revision: Option<u64>,
}

/// What a [`Sub`] states.
#[verifier::ext_equal]
pub struct SubV<Q> {
    pub view: Q,
    pub held: Option<Seq<RowV>>,
    pub total: i64,
    pub revision: Option<u64>,
}

pub open spec fn opt_rows(o: Option<Vec<Row>>) -> Option<Seq<RowV>> {
    match o {
        Some(v) => Some(row_views(v@)),
        None => None,
    }
}

impl<Q: Cut> Sub<Q> {
    pub open spec fn state(&self) -> SubV<Q> {
        SubV {
            view: self.view,
            held: opt_rows(self.held),
            total: self.total,
            revision: self.revision,
        }
    }
}

/// One connection.
struct Listener<Q> {
    id: u64,
    /// The connection's end has not hung up.
    open: bool,
    outbox: Vec<EngineMessage>,
    /// The subscriptions open on this connection, by the id of the request that opened each.
    subs: Vec<(i64, Sub<Q>)>,
}

/// What a connection holds.
#[verifier::ext_equal]
pub struct ListenerV<Q> {
    pub id: u64,
    pub open: bool,
    pub outbox: Seq<Said>,
    pub subs: Seq<(i64, SubV<Q>)>,
}

pub open spec fn sub_states<Q: Cut>(v: Seq<(i64, Sub<Q>)>) -> Seq<(i64, SubV<Q>)> {
    v.map_values(|p: (i64, Sub<Q>)| (p.0, p.1.state()))
}

impl<Q: Cut> Listener<Q> {
    spec fn state(&self) -> ListenerV<Q> {
        ListenerV {
            id: self.id,
            open: self.open,
            outbox: said(self.outbox@),
            subs: sub_states(self.subs@),
        }
    }
}

spec fn listener_states<Q: Cut>(v: Seq<Listener<Q>>) -> Seq<ListenerV<Q>> {
    v.map_values(|l: Listener<Q>| l.state())
}

/// A source as it was built for a serve pass.
pub struct Prepared {
    pub source: String,
    pub revision: u64,
    pub rows: Vec<Row>,
}

/// What a [`Prepared`] states.
#[verifier::ext_equal]
pub struct PreparedV {
    pub source: Seq<char>,
    pub revision: u64,
    pub rows: Seq<RowV>,
}

impl Prepared {
    pub open spec fn state(&self) -> PreparedV {
        PreparedV {
            source: self.source@,
            revision: self.revision,
            rows: row_views(self.rows@),
        }
    }
}

pub open spec fn prepared_states(v: Seq<Prepared>) -> Seq<PreparedV> {
    v.map_values(|p: Prepared| p.state())
}

/// A frame that was sent, for whoever meters what serving costs.
pub struct Frame {
    pub source: String,
    pub kind: FrameKind,
    pub rows: usize,
    pub ops: usize,
    pub message: EngineMessage,
}

/// What a [`Frame`] states.
#[verifier::ext_equal]
pub struct FrameV {
    pub source: Seq<char>,
    pub kind: FrameKind,
    pub rows: int,
    pub ops: int,
    pub message: Said,
}

impl Frame {
    pub open spec fn state(&self) -> FrameV {
        FrameV {
            source: self.source@,
            kind: self.kind,
            rows: self.rows as int,
            ops: self.ops as int,
            message: self.message@,
        }
    }
}

pub open spec fn frame_states(v: Seq<Frame>) -> Seq<FrameV> {
    v.map_values(|f: Frame| f.state())
}

/// What the world's fold has consumed.
struct Fold {
    log: Option<String>,
    checkpoint: u64,
    events: i64,
    last_ts: Option<i64>,
    clock_zone: Option<String>,
    clock_source: Option<PerfSnapshotResultClockSource>,
    clock_skew_ms: Option<i64>,
}

/// The coordinates of the fold.
#[verifier::ext_equal]
pub struct FoldV {
    pub log: Option<Seq<char>>,
    pub checkpoint: u64,
    pub events: i64,
    pub last_ts: Option<i64>,
    pub clock_zone: Option<Seq<char>>,
    pub clock_source: Option<PerfSnapshotResultClockSource>,
    pub clock_skew_ms: Option<i64>,
}

impl FoldV {
    /// A fold of a log that has consumed nothing yet.
    pub open spec fn fresh(log: Option<Seq<char>>) -> FoldV {
        FoldV {
            log,
            checkpoint: 0,
            events: 0,
            last_ts: None,
            clock_zone: None,
            clock_source: None,
            clock_skew_ms: None,
        }
    }
}

impl Fold {
    spec fn state(&self) -> FoldV {
        FoldV {
            log: opt_text(self.log),
            checkpoint: self.checkpoint,
            events: self.events,
            last_ts: self.last_ts,
            clock_zone: opt_text(self.clock_zone),
            clock_source: self.clock_source,
            clock_skew_ms: self.clock_skew_ms,
        }
    }
}

/// What a [`World`] holds.
#[verifier::ext_equal]
pub struct WorldState<Q> {
    pub epoch: i64,
    /// The ownership token of the turn that owns the world.
    pub generation: u64,
    pub listeners: Seq<ListenerV<Q>>,
    pub next_listener: u64,
    pub status: HealthResultStatus,
    pub fold: FoldV,
    /// The app knowledge the engine has been told: the latest payload per family.
    pub defines: Map<Seq<char>, Seq<char>>,
    /// The fold takes writes.
    pub write_to: bool,
    /// The fold takes questions.
    pub asks: bool,
    /// Where the client's spell table of the attached install lies.
    pub client_spells: Option<Seq<char>>,
    /// Where the character logs live, as the app named it.
    pub log_dir: Option<Seq<char>>,
}

/// A list of subscriptions with one more, by ascending id; one of the same id gives way.
pub open spec fn with_sub<Q: Cut>(s: Seq<(i64, SubV<Q>)>, id: i64, sub: SubV<Q>) -> Seq<(i64, SubV<Q>)>
    decreases s.len(),
{
    if s.len() == 0 || s.last().0 < id {
        s.push((id, sub))
    } else if s.last().0 == id {
        s.drop_last().push((id, sub))
    } else {
        with_sub(s.drop_last(), id, sub).push(s.last())
    }
}

/// By ascending id, none twice.
pub open spec fn by_id<Q: Cut>(s: Seq<(i64, SubV<Q>)>) -> bool {
    forall|i: int, j: int| 0 <= i < j && j < s.len() ==> (#[trigger] s[i]).0 < (#[trigger] s[j]).0
}

/// The first prepared source of a name, from a place on.
pub open spec fn prepared_from(p: Seq<PreparedV>, source: Seq<char>, from: int) -> Option<PreparedV>
    decreases p.len() - from,
{
    if from < 0 || from >= p.len() {
        None
    } else if p[from].source == source {
        Some(p[from])
    } else {
        prepared_from(p, source, from + 1)
    }
}

/// What a serve pass has to say to one subscription: a reset where one is owed, a difference where
/// the window or its total moved, and else nothing.
pub open spec fn frame_for<Q: Cut>(
    id: i64,
    sub: SubV<Q>,
    prepared: Seq<PreparedV>,
    reset_all: bool,
    epoch: i64,
) -> Option<FrameV> {
    match prepared_from(prepared, sub.view.source_of(), 0) {
        None => None,
        Some(source) => {
            let rows = sub.view.window(source.rows);
            let total = sub.view.total(source.rows);
            if reset_all || sub.held is None {
                Some(
                    FrameV {
                        source: source.source,
                        kind: FrameKind::Reset,
                        rows: rows.len() as int,
                        ops: 0,
                        message: Said::Reset { id, epoch, total, rows },
                    },
                )
            } else if sub.revision == Some(source.revision) {
                None
            } else {
                let ops = difference(sub.held->0, rows);
                if ops.len() == 0 && total == sub.total {
                    None
                } else {
                    Some(
                        FrameV {
                            source: source.source,
                            kind: FrameKind::Diff,
                            rows: 0,
                            ops: ops.len() as int,
                            message: Said::Diff {
                                id,
                                epoch,
                                total_moved: if total != sub.total {
                                    Some(total)
                                } else {
                                    None
                                },
                                ops,
                            },
                        },
                    )
                }
            }
        },
    }
}

/// A subscription after a serve pass: it holds the window that its source was cut to.
pub open spec fn sub_after<Q: Cut>(sub: SubV<Q>, prepared: Seq<PreparedV>, reset_all: bool) -> SubV<Q> {
    match prepared_from(prepared, sub.view.source_of(), 0) {
        None => sub,
        Some(source) => {
            if !reset_all && sub.held is Some && sub.revision == Some(source.revision) {
                sub
            } else {
                SubV {
                    view: sub.view,
                    held: Some(sub.view.window(source.rows)),
                    total: sub.view.total(source.rows),
                    revision: Some(source.revision),
                }
            }
        },
    }
}

/// What a serve pass has to say to a connection, in the order of its subscriptions.
pub open spec fn frames_for<Q: Cut>(
    subs: Seq<(i64, SubV<Q>)>,
    prepared: Seq<PreparedV>,
    reset_all: bool,
    epoch: i64,
) -> Seq<FrameV>
    decreases subs.len(),
{
    if subs.len() == 0 {
        Seq::empty()
    } else {
        let front = frames_for(subs.drop_last(), prepared, reset_all, epoch);
        match frame_for(subs.last().0, subs.last().1, prepared, reset_all, epoch) {
            Some(f) => front.push(f),
            None => front,
        }
    }
}

/// A connection after a serve pass, when it is still there.
pub open spec fn listener_after<Q: Cut>(
    l: ListenerV<Q>,
    prepared: Seq<PreparedV>,
    reset_all: bool,
    epoch: i64,
) -> ListenerV<Q> {
    ListenerV {
        outbox: l.outbox + frames_for(l.subs, prepared, reset_all, epoch).map_values(
            |f: FrameV| f.message,
        ),
        subs: l.subs.map_values(
            |p: (i64, SubV<Q>)| (p.0, sub_after(p.1, prepared, reset_all)),
        ),
        ..l
    }
}

/// The connections after a serve pass, and the frames that were put to them. One whose end has hung
/// up is dropped at the first frame it should have been sent.
pub open spec fn served<Q: Cut>(
    ls: Seq<ListenerV<Q>>,
    prepared: Seq<PreparedV>,
    reset_all: bool,
    epoch: i64,
) -> (Seq<ListenerV<Q>>, Seq<FrameV>)
    decreases ls.len(),
{
    if ls.len() == 0 {
        (Seq::empty(), Seq::empty())
    } else {
        let (front, frames) = served(ls.drop_last(), prepared, reset_all, epoch);
        let l = ls.last();
        let own = frames_for(l.subs, prepared, reset_all, epoch);
        if l.open || own.len() == 0 {
            (front.push(listener_after(l, prepared, reset_all, epoch)), frames + own)
        } else {
            (front, frames.push(own[0]))
        }
    }
}

/// Every subscription of every connection, in order.
pub open spec fn all_subs<Q: Cut>(ls: Seq<ListenerV<Q>>) -> Seq<SubV<Q>>
    decreases ls.len(),
{
    if ls.len() == 0 {
        Seq::empty()
    } else {
        all_subs(ls.drop_last()) + ls.last().subs.map_values(|p: (i64, SubV<Q>)| p.1)
    }
}

/// The sources that subscriptions read, each once, in the order they are first read.
pub open spec fn sources_read<Q: Cut>(subs: Seq<SubV<Q>>) -> Seq<Seq<char>>
    decreases subs.len(),
{
    if subs.len() == 0 {
        Seq::empty()
    } else {
        let front = sources_read(subs.drop_last());
        if front.contains(subs.last().view.source_of()) {
            front
        } else {
            front.push(subs.last().view.source_of())
        }
    }
}

/// Some subscription to the source owes a reset.
pub open spec fn owed_of<Q: Cut>(subs: Seq<SubV<Q>>, source: Seq<char>) -> bool
    decreases subs.len(),
{
    if subs.len() == 0 {
        false
    } else {
        owed_of(subs.drop_last(), source) || (subs.last().view.source_of() == source
            && subs.last().held is None)
    }
}

/// The revisions at which the subscriptions to the source were last cut, in order.
pub open spec fn held_of<Q: Cut>(subs: Seq<SubV<Q>>, source: Seq<char>) -> Seq<Option<u64>>
    decreases subs.len(),
{
    if subs.len() == 0 {
        Seq::empty()
    } else {
        let front = held_of(subs.drop_last(), source);
        if subs.last().view.source_of() == source {
            front.push(subs.last().revision)
        } else {
            front
        }
    }
}

/// What the subscriptions to one source need before a serve pass builds anything.
pub struct SourceNeed {
    pub source: String,
    /// At least one subscription over it owes a reset.
    pub owed: bool,
    /// The revisions the open subscriptions were last cut at.
    pub held: Vec<Option<u64>>,
}

/// What a [`SourceNeed`] states.
#[verifier::ext_equal]
pub struct NeedV {
    pub source: Seq<char>,
    pub owed: bool,
    pub held: Seq<Option<u64>>,
}

impl SourceNeed {
    pub open spec fn state(&self) -> NeedV {
        NeedV { source: self.source@, owed: self.owed, held: self.held@ }
    }
}

pub open spec fn need_states(v: Seq<SourceNeed>) -> Seq<NeedV> {
    v.map_values(|n: SourceNeed| n.state())
}

pub open spec fn need_of<Q: Cut>(subs: Seq<SubV<Q>>, source: Seq<char>) -> NeedV {
    NeedV { source, owed: owed_of(subs, source), held: held_of(subs, source) }
}

/// What the subscriptions need of each source they read, in the order the sources are first read.
pub open spec fn needs_of<Q: Cut>(subs: Seq<SubV<Q>>) -> Seq<NeedV> {
    sources_read(subs).map_values(|source: Seq<char>| need_of(subs, source))
}

/// Does the source have to be built, given the revision it is at? A reset is owed, or some subscription
/// was last cut at another revision.
pub open spec fn has_need(need: NeedV, revision: u64, force: bool) -> bool {
    ||| force
    ||| need.owed
    ||| exists|i: int| 0 <= i < need.held.len() && #[trigger] need.held[i] != Some(revision)
}

/// The sources that have to be built for the next serve pass, with their rows.
pub open spec fn built<R: Rows>(needs: Seq<NeedV>, rows: R, force: bool) -> Seq<PreparedV>
    decreases needs.len(),
{
    if needs.len() == 0 {
        Seq::empty()
    } else {
        let front = built(needs.drop_last(), rows, force);
        let source = needs.last().source;
        let revision = match rows.revision_of(source) {
            Some(r) => r,
            None => 0,
        };
        if has_need(needs.last(), revision, force) {
            front.push(
                PreparedV {
                    source,
                    revision,
                    rows: match rows.rows_of(source) {
                        Some(v) => v,
                        None => Seq::empty(),
                    },
                },
            )
        } else {
            front
        }
    }
}

/// How many subscriptions read each source.
pub open spec fn watchers<Q: Cut>(subs: Seq<SubV<Q>>, source: Seq<char>) -> int
    decreases subs.len(),
{
    if subs.len() == 0 {
        0
    } else {
        watchers(subs.drop_last(), source) + (if subs.last().view.source_of() == source {
            1int
        } else {
            0
        })
    }
}

impl<Q: Cut> WorldState<Q> {
    pub open spec fn fresh() -> WorldState<Q> {
        WorldState {
            epoch: FIRST_EPOCH,
            generation: 0,
            listeners: Seq::empty(),
            next_listener: 0,
            status: HealthResultStatus::Idle,
            fold: FoldV::fresh(None),
            defines: Map::empty(),
            write_to: false,
            asks: false,
            client_spells: None,
            log_dir: None,
        }
    }

    /// The subscriptions of every connection stand by ascending id, and no two connections share a
    /// name, nor does one bear a name not yet given out.
    pub open spec fn wf(self) -> bool {
        &&& forall|i: int| 0 <= i < self.listeners.len() ==> by_id((#[trigger] self.listeners[i]).subs)
        &&& forall|i: int, j: int|
            0 <= i < j && j < self.listeners.len() ==> (#[trigger] self.listeners[i]).id
                < (#[trigger] self.listeners[j]).id
        &&& forall|i: int|
            0 <= i < self.listeners.len() ==> (#[trigger] self.listeners[i]).id < self.next_listener
    }

    pub open spec fn owns(self, generation: u64) -> bool {
        self.generation == generation
    }

    /// A message to every connection; those whose end has hung up are dropped.
    pub open spec fn broadcast(self, m: Said) -> WorldState<Q> {
        WorldState {
            listeners: self.listeners.filter(|l: ListenerV<Q>| l.open).map_values(
                |l: ListenerV<Q>| ListenerV { outbox: l.outbox.push(m), ..l },
            ),
            ..self
        }
    }

    /// A new generation: the epoch and the token move, the coordinates of the fold before it are gone,
    /// it can neither be asked nor written to, and every connection is told.
    pub open spec fn attach(self, log: Seq<char>, client_spells: Option<Seq<char>>) -> WorldState<Q> {
        let epoch = (self.epoch + 1) as i64;
        WorldState {
            epoch,
            generation: self.generation.wrapping_add(1),
            status: HealthResultStatus::Starting,
            fold: FoldV::fresh(Some(log)),
            asks: false,
            write_to: false,
            client_spells,
            ..self
        }.broadcast(
            Said::Epoch(EpochMessage { epoch, reason: EpochReason::Attach, progress: None }),
        )
    }

    pub open spec fn clock(self, generation: u64, name: Seq<char>, source: ZoneSource) -> WorldState<Q> {
        if self.owns(generation) {
            WorldState {
                fold: FoldV {
                    clock_zone: Some(name),
                    clock_source: Some(clock_source_of(source)),
                    ..self.fold
                },
                ..self
            }
        } else {
            self
        }
    }

    pub open spec fn progress(self, generation: u64, mark: FoldMark) -> WorldState<Q> {
        if self.owns(generation) {
            WorldState {
                fold: FoldV {
                    checkpoint: mark.checkpoint,
                    events: mark.events,
                    last_ts: mark.last_ts,
                    clock_skew_ms: mark.skew_ms,
                    ..self.fold
                },
                ..self
            }.broadcast(
                Said::Epoch(
                    EpochMessage {
                        epoch: self.epoch,
                        reason: EpochReason::Progress,
                        progress: Some(
                            FoldProgress {
                                pct_bits: mark.pct_bits,
                                events: mark.events,
                                offset: clamped(mark.checkpoint as int),
                                log_size: clamped(mark.total as int),
                                live: if mark.live {
                                    Some(true)
                                } else {
                                    None
                                },
                            },
                        ),
                    },
                ),
            )
        } else {
            self
        }
    }

    /// The sources that a serve pass has to build.
    pub open spec fn prepared<R: Rows>(self, rows: R, force: bool) -> Seq<PreparedV> {
        built(needs_of(all_subs(self.listeners)), rows, force)
    }

    pub open spec fn serve(self, prepared: Seq<PreparedV>, reset_all: bool) -> WorldState<Q> {
        WorldState {
            listeners: served(self.listeners, prepared, reset_all, self.epoch).0,
            ..self
        }
    }

    /// What was built is pushed, where the turn that built it still owns the world.
    pub open spec fn pushed(
        self,
        generation: u64,
        prepared: Seq<PreparedV>,
        reset_all: bool,
    ) -> WorldState<Q> {
        if self.owns(generation) {
            self.serve(prepared, reset_all)
        } else {
            self
        }
    }

    pub open spec fn landed<R: Rows>(self, generation: u64, mark: FoldMark, rows: R) -> WorldState<Q> {
        self.landed_with(generation, mark, self.prepared(rows, true))
    }

    /// A landing with what was built for it.
    pub open spec fn landed_with(
        self,
        generation: u64,
        mark: FoldMark,
        prepared: Seq<PreparedV>,
    ) -> WorldState<Q> {
        if self.owns(generation) {
            WorldState {
                status: HealthResultStatus::Live,
                fold: FoldV {
                    checkpoint: mark.checkpoint,
                    events: mark.events,
                    last_ts: mark.last_ts,
                    ..self.fold
                },
                ..self
            }.serve(prepared, true)
        } else {
            self
        }
    }

    pub open spec fn idle(self, generation: u64) -> WorldState<Q> {
        if self.owns(generation) {
            WorldState {
                status: HealthResultStatus::Idle,
                asks: false,
                write_to: false,
                ..self
            }
        } else {
            self
        }
    }

    /// One broadcast for each module that moved, in the order given.
    pub open spec fn modules_changed(self, changed: Seq<(Seq<char>, i64)>) -> WorldState<Q>
        decreases changed.len(),
    {
        if changed.len() == 0 {
            self
        } else {
            self.modules_changed(changed.drop_last()).broadcast(
                Said::ModuleChanged { module: changed.last().0, seq: changed.last().1 },
            )
        }
    }

    /// One broadcast for each miss in a domain the wire has a word for, in the order given.
    pub open spec fn misses(
        self,
        misses: Seq<(Seq<char>, Seq<char>)>,
        domains: Seq<Seq<char>>,
    ) -> WorldState<Q>
        decreases misses.len(),
    {
        if misses.len() == 0 {
            self
        } else {
            let front = self.misses(misses.drop_last(), domains);
            if domains.contains(misses.last().0) {
                front.broadcast(
                    Said::KnowledgeMiss { domain: misses.last().0, name: misses.last().1 },
                )
            } else {
                front
            }
        }
    }
}

/// The generation a message names, where it names one.
pub open spec fn named_epoch(m: Said) -> Option<i64> {
    match m {
        Said::Epoch(e) => Some(e.epoch),
        Said::Reset { epoch, .. } => Some(epoch),
        Said::Diff { epoch, .. } => Some(epoch),
        _ => None,
    }
}

/// The generations that a queue names never go back, and none of them is yet to come.
pub open spec fn in_turn(outbox: Seq<Said>, epoch: i64) -> bool {
    &&& forall|i: int|
        0 <= i < outbox.len() ==> (named_epoch(#[trigger] outbox[i]) matches Some(e) ==> e <= epoch)
    &&& forall|i: int, j: int|
        0 <= i < j && j < outbox.len() ==> (named_epoch(#[trigger] outbox[i]) matches Some(e) ==> (
        named_epoch(#[trigger] outbox[j]) matches Some(f) ==> e <= f))
}

impl<Q: Cut> WorldState<Q> {
    /// Every connection's queue names the generations in their turn.
    pub open spec fn heard_in_turn(self) -> bool {
        forall|i: int|
            0 <= i < self.listeners.len() ==> in_turn(
                (#[trigger] self.listeners[i]).outbox,
                self.epoch,
            )
    }
}

/// The place of the first connection of a name, from a place on, or -1.
pub open spec fn listener_place<Q: Cut>(ls: Seq<ListenerV<Q>>, id: u64, from: int) -> int
    decreases ls.len() - from,
{
    if from < 0 || from >= ls.len() {
        -1
    } else if ls[from].id == id {
        from
    } else {
        listener_place(ls, id, from + 1)
    }
}

proof fn lemma_listener_place<Q: Cut>(ls: Seq<ListenerV<Q>>, id: u64, from: int)
    requires
        0 <= from <= ls.len(),
    ensures
        listener_place(ls, id, from) == -1 || from <= listener_place(ls, id, from) < ls.len(),
        listener_place(ls, id, from) >= 0 ==> ls[listener_place(ls, id, from)].id == id,
    decreases ls.len() - from,
{
    if from < ls.len() && ls[from].id != id {
        lemma_listener_place(ls, id, from + 1);
    }
}

impl<Q: Cut> WorldState<Q> {
    pub open spec fn place(self, id: u64) -> int {
        listener_place(self.listeners, id, 0)
    }

    /// The world with one connection changed.
    pub open spec fn with_listener(self, i: int, l: ListenerV<Q>) -> WorldState<Q> {
        WorldState { listeners: self.listeners.update(i, l), ..self }
    }
}

/// The engine's whole state.
pub struct World<Q = SourceView> {
    epoch: i64,
    generation: u64,
    listeners: Vec<Listener<Q>>,
    next_listener: u64,
    status: HealthResultStatus,
    fold: Fold,
    defines: TextMap<String>,
    write_to: bool,
    asks: bool,
    client_spells: Option<String>,
    log_dir: Option<String>,
}

impl<Q: Cut> View for World<Q> {
    type V = WorldState<Q>;

    closed spec fn view(&self) -> WorldState<Q> {
        WorldState {
            epoch: self.epoch,
            generation: self.generation,
            listeners: listener_states(self.listeners@),
            next_listener: self.next_listener,
            status: self.status,
            fold: self.fold.state(),
            defines: self.defines@.at,
            write_to: self.write_to,
            asks: self.asks,
            client_spells: opt_text(self.client_spells),
            log_dir: opt_text(self.log_dir),
        }
    }
}

fn fresh_fold(log: Option<String>) -> (r: Fold)
    ensures
        r.state() == FoldV::fresh(opt_text(log)),
{
    Fold {
        log,
        checkpoint: 0,
        events: 0,
        last_ts: None,
        clock_zone: None,
        clock_source: None,
        clock_skew_ms: None,
    }
}

/// Push a message to every open connection, dropping the ones that have gone.
fn broadcast<Q: Cut>(listeners: &mut Vec<Listener<Q>>, message: &EngineMessage)
    ensures
        listener_states(final(listeners)@) == listener_states(old(listeners)@).filter(
            |l: ListenerV<Q>| l.open,
        ).map_values(|l: ListenerV<Q>| ListenerV { outbox: l.outbox.push(message@), ..l }),
{
    let ghost all = listener_states(listeners@);
    let ghost p = |l: ListenerV<Q>| l.open;
    let ghost told = |l: ListenerV<Q>| ListenerV { outbox: l.outbox.push(message@), ..l };
    let mut left: Vec<Listener<Q>> = Vec::new();
    core::mem::swap(listeners, &mut left);
    let ghost src = left@;
    let mut out: Vec<Listener<Q>> = Vec::new();
    let ghost mut done: int = 0;
    proof {
        reveal(Seq::filter);
        assert(src.skip(0) =~= src);
        assert(listener_states(out@) =~= all.take(0).filter(p).map_values(told));
    }
    while left.len() > 0
        invariant
            0 <= done <= src.len(),
            left@ == src.skip(done),
            all == listener_states(src),
            p == (|l: ListenerV<Q>| l.open),
            told == (|l: ListenerV<Q>| ListenerV { outbox: l.outbox.push(message@), ..l }),
            listener_states(out@) == all.take(done).filter(p).map_values(told),
        decreases left.len(),
    {
        let ghost before = out@;
        let ghost front = all.take(done).filter(p);
        let mut l: Listener<Q> = left.remove(0);
        let ghost was = l.state();
        proof {
            reveal(Seq::filter);
            assert(was == all[done]);
            assert(all.take(done + 1).drop_last() =~= all.take(done));
            assert(all.take(done + 1).last() == was);
            assert(left@ =~= src.skip(done + 1));
        }
        if l.open {
            let copy = message.copy();
            let ghost box0 = l.outbox@;
            l.outbox.push(copy);
            assert(said(l.outbox@) =~= said(box0).push(message@));
            assert(l.state() == told(was));
            out.push(l);
            assert(listener_states(out@) =~= listener_states(before).push(told(was)));
            assert(front.push(was).map_values(told) =~= front.map_values(told).push(told(was)));
        }
        proof {
            done = done + 1;
        }
    }
    assert(all.take(done) =~= all);
    *listeners = out;
}

/// The place of the prepared source of a name.
fn find_prepared(prepared: &Vec<Prepared>, source: &str) -> (r: Option<usize>)
    ensures
        match r {
            Some(i) => i < prepared@.len() && prepared_from(prepared_states(prepared@), source@, 0)
                == Some(prepared@[i as int].state()),
            None => prepared_from(prepared_states(prepared@), source@, 0) is None,
        },
{
    let ghost ps = prepared_states(prepared@);
    let mut i: usize = 0;
    while i < prepared.len()
        invariant
            i <= prepared.len(),
            ps == prepared_states(prepared@),
            prepared_from(ps, source@, 0) == prepared_from(ps, source@, i as int),
        decreases prepared.len() - i,
    {
        assert(ps[i as int] == prepared@[i as int].state());
        if same(prepared[i].source.as_str(), source) {
            return Some(i);
        }
        i = i + 1;
    }
    None
}

/// One subscription in a serve pass: the frame it is sent, and what it holds afterwards.
fn serve_sub<Q: Cut>(
    id: i64,
    sub: &mut Sub<Q>,
    prepared: &Vec<Prepared>,
    reset_all: bool,
    epoch: i64,
) -> (r: Option<Frame>)
    ensures
        final(sub).state() == sub_after(old(sub).state(), prepared_states(prepared@), reset_all),
        match r {
            Some(f) => frame_for(
                id,
                old(sub).state(),
                prepared_states(prepared@),
                reset_all,
                epoch,
            ) == Some(f.state()),
            None => frame_for(
                id,
                old(sub).state(),
                prepared_states(prepared@),
                reset_all,
                epoch,
            ) is None,
        },
{
    let source: &Prepared = match find_prepared(prepared, sub.view.source()) {
        Some(i) => &prepared[i],
        None => {
            return None;
        },
    };
    let current: bool = match sub.revision {
        Some(r) => r == source.revision,
        None => false,
    };
    if !reset_all && sub.held.is_some() && current {
        return None;
    }
    let (rows, total): (Vec<Row>, i64) = sub.view.cut(&source.rows);
    let message: Option<Frame> = match &sub.held {
        Some(held) if !reset_all => {
            let ops = diff(held, &rows);
            if ops.len() == 0 && total == sub.total {
                None
            } else {
                Some(
                    Frame {
                        source: source.source.clone(),
                        kind: FrameKind::Diff,
                        rows: 0,
                        ops: ops.len(),
                        message: EngineMessage::DiffMessage(
                            DiffMessage {
                                id,
                                epoch,
                                total: if total != sub.total {
                                    Some(total)
                                } else {
                                    None
                                },
                                ops,
                            },
                        ),
                    },
                )
            }
        },
        _ => {
            let copy = crate::views::copy_rows(&rows, 0, rows.len());
            assert(row_views(rows@).subrange(0, rows@.len() as int) =~= row_views(rows@));
            Some(
                Frame {
                    source: source.source.clone(),
                    kind: FrameKind::Reset,
                    rows: rows.len(),
                    ops: 0,
                    message: EngineMessage::ResetMessage(
                        ResetMessage { id, epoch, total, rows: copy },
                    ),
                },
            )
        },
    };
    sub.held = Some(rows);
    sub.total = total;
    sub.revision = Some(source.revision);
    message
}

/// One connection in a serve pass: what has to be said to it, in the order of its subscriptions.
fn serve_listener<Q: Cut>(
    subs: &mut Vec<(i64, Sub<Q>)>,
    prepared: &Vec<Prepared>,
    reset_all: bool,
    epoch: i64,
) -> (r: Vec<Frame>)
    ensures
        frame_states(r@) == frames_for(
            sub_states(old(subs)@),
            prepared_states(prepared@),
            reset_all,
            epoch,
        ),
        sub_states(final(subs)@) == sub_states(old(subs)@).map_values(
            |p: (i64, SubV<Q>)| (p.0, sub_after(p.1, prepared_states(prepared@), reset_all)),
        ),
{
    let ghost all = sub_states(subs@);
    let ghost ps = prepared_states(prepared@);
    let mut left: Vec<(i64, Sub<Q>)> = Vec::new();
    core::mem::swap(subs, &mut left);
    let ghost src = left@;
    let mut out: Vec<(i64, Sub<Q>)> = Vec::new();
    let mut frames: Vec<Frame> = Vec::new();
    let ghost mut done: int = 0;
    assert(src.skip(0) =~= src);
    assert(frame_states(frames@) =~= Seq::empty());
    while left.len() > 0
        invariant
            0 <= done <= src.len(),
            left@ == src.skip(done),
            all == sub_states(src),
            ps == prepared_states(prepared@),
            out.len() == done,
            forall|j: int|
                0 <= j < done ==> sub_states(out@)[j] == (
                    (#[trigger] all[j]).0,
                    sub_after(all[j].1, ps, reset_all),
                ),
            frame_states(frames@) == frames_for(all.take(done), ps, reset_all, epoch),
        decreases left.len(),
    {
        let ghost out0 = out@;
        let ghost frames0 = frames@;
        let (id, mut sub): (i64, Sub<Q>) = left.remove(0);
        let ghost was = sub.state();
        proof {
            assert((id, was) == all[done]);
            assert(all.take(done + 1).drop_last() =~= all.take(done));
            assert(all.take(done + 1).last() == (id, was));
            assert(left@ =~= src.skip(done + 1));
        }
        let frame = serve_sub(id, &mut sub, prepared, reset_all, epoch);
        if let Some(f) = frame {
            frames.push(f);
            assert(frame_states(frames@) =~= frame_states(frames0).push(f.state()));
        }
        out.push((id, sub));
        assert(sub_states(out@) =~= sub_states(out0).push((id, sub.state())));
        proof {
            done = done + 1;
        }
    }
    assert(all.take(done) =~= all);
    assert(sub_states(out@) =~= all.map_values(
        |p: (i64, SubV<Q>)| (p.0, sub_after(p.1, ps, reset_all)),
    ));
    *subs = out;
    frames
}

/// Build the sources that a serve pass needs. The change signal is read first, and the rows are asked
/// for only where it has moved, or where a reset is owed or forced.
pub fn build_needed<R: Rows>(needs: &Vec<SourceNeed>, rows: &R, force: bool) -> (r: Vec<Prepared>)
    ensures
        prepared_states(r@) == built(need_states(needs@), *rows, force),
{
    let ghost all = need_states(needs@);
    let mut out: Vec<Prepared> = Vec::new();
    let mut i: usize = 0;
    assert(prepared_states(out@) =~= Seq::empty());
    while i < needs.len()
        invariant
            i <= needs.len(),
            all == need_states(needs@),
            prepared_states(out@) == built(all.take(i as int), *rows, force),
        decreases needs.len() - i,
    {
        let need = &needs[i];
        let source = need.source.as_str();
        let ghost before = out@;
        proof {
            assert(all.take(i + 1).drop_last() =~= all.take(i as int));
            assert(all.take(i + 1).last() == need.state());
        }
        let revision: u64 = match rows.revision(source) {
            Some(r) => r,
            None => 0,
        };
        if need.is_needed(revision, force) {
            let list: Vec<Row> = match rows.rows(source) {
                Some(v) => v,
                None => {
                    let none: Vec<Row> = Vec::new();
                    assert(row_views(none@) =~= Seq::empty());
                    none
                },
            };
            let p = Prepared { source: source.to_owned(), revision, rows: list };
            out.push(p);
            assert(prepared_states(out@) =~= prepared_states(before).push(p.state()));
        }
        i = i + 1;
    }
    assert(all.take(i as int) =~= all);
    out
}

impl SourceNeed {
    /// Whether the source has to be built, given the revision it is at.
    pub fn is_needed(&self, revision: u64, force: bool) -> (r: bool)
        ensures
            r == has_need(self.state(), revision, force),
    {
        if force || self.owed {
            return true;
        }
        let mut i: usize = 0;
        while i < self.held.len()
            invariant
                i <= self.held.len(),
                forall|j: int| 0 <= j < i ==> #[trigger] self.held@[j] == Some(revision),
            decreases self.held.len() - i,
        {
            let current: bool = match self.held[i] {
                Some(r) => r == revision,
                None => false,
            };
            if !current {
                assert(self.state().held[i as int] != Some(revision));
                return true;
            }
            i = i + 1;
        }
        false
    }
}

/// Serve every subscription over a prepared source: the whole of reset-then-diffs, in one place.
///
/// `reset_all` is a landing fold: every window is a new world's and there is nothing to diff against.
/// A subscription whose source was not prepared is skipped.
fn serve<Q: Cut>(
    listeners: &mut Vec<Listener<Q>>,
    prepared: &Vec<Prepared>,
    reset_all: bool,
    epoch: i64,
) -> (r: Vec<Frame>)
    ensures
        (listener_states(final(listeners)@), frame_states(r@)) == served(
            listener_states(old(listeners)@),
            prepared_states(prepared@),
            reset_all,
            epoch,
        ),
{
    let ghost all = listener_states(listeners@);
    let ghost ps = prepared_states(prepared@);
    let mut left: Vec<Listener<Q>> = Vec::new();
    core::mem::swap(listeners, &mut left);
    let ghost src = left@;
    let mut out: Vec<Listener<Q>> = Vec::new();
    let mut sent: Vec<Frame> = Vec::new();
    let ghost mut done: int = 0;
    assert(src.skip(0) =~= src);
    assert(listener_states(out@) =~= Seq::empty());
    assert(frame_states(sent@) =~= Seq::empty());
    while left.len() > 0
        invariant
            0 <= done <= src.len(),
            left@ == src.skip(done),
            all == listener_states(src),
            ps == prepared_states(prepared@),
            (listener_states(out@), frame_states(sent@)) == served(
                all.take(done),
                ps,
                reset_all,
                epoch,
            ),
        decreases left.len(),
    {
        let ghost out0 = out@;
        let ghost sent0 = sent@;
        let mut l: Listener<Q> = left.remove(0);
        let ghost was = l.state();
        proof {
            assert(was == all[done]);
            assert(all.take(done + 1).drop_last() =~= all.take(done));
            assert(all.take(done + 1).last() == was);
            assert(left@ =~= src.skip(done + 1));
        }
        let Listener { id, open, mut outbox, mut subs } = l;
        let mut frames = serve_listener(&mut subs, prepared, reset_all, epoch);
        let ghost own = frames_for(was.subs, ps, reset_all, epoch);
        if open || frames.len() == 0 {
            deliver(&frames, &mut outbox);
            let after = Listener { id, open, outbox, subs };
            assert(after.state() =~= listener_after(was, ps, reset_all, epoch));
            out.push(after);
            assert(listener_states(out@) =~= listener_states(out0).push(after.state()));
            let ghost f0 = frames@;
            sent.append(&mut frames);
            assert(frame_states(sent@) =~= frame_states(sent0) + frame_states(f0));
        } else {
            assert(own.len() > 0);
            let first = frames.remove(0);
            assert(first.state() == own[0]);
            sent.push(first);
            assert(frame_states(sent@) =~= frame_states(sent0).push(own[0]));
        }
        proof {
            done = done + 1;
        }
    }
    assert(all.take(done) =~= all);
    *listeners = out;
    sent
}

/// The messages of the frames, put into an outbox in order.
fn deliver(frames: &Vec<Frame>, outbox: &mut Vec<EngineMessage>)
    ensures
        said(final(outbox)@) == said(old(outbox)@) + frame_states(frames@).map_values(
            |f: FrameV| f.message,
        ),
{
    let ghost msgs = frame_states(frames@).map_values(|f: FrameV| f.message);
    let mut i: usize = 0;
    assert(said(outbox@) + msgs.take(0) =~= said(outbox@));
    while i < frames.len()
        invariant
            i <= frames.len(),
            msgs == frame_states(frames@).map_values(|f: FrameV| f.message),
            said(outbox@) == said(old(outbox)@) + msgs.take(i as int),
        decreases frames.len() - i,
    {
        let ghost before = outbox@;
        let copy = frames[i].message.copy();
        outbox.push(copy);
        assert(said(outbox@) =~= said(before).push(copy@));
        assert(msgs[i as int] == copy@);
        assert(msgs.take(i + 1) =~= msgs.take(i as int).push(msgs[i as int]));
        assert(said(before).push(copy@) =~= said(old(outbox)@) + msgs.take(i + 1));
        i = i + 1;
    }
    assert(msgs.take(i as int) =~= msgs);
}

/// Why a question to the fold goes unanswered, or nothing where it is answered.
pub open spec fn unanswered<T>(asks: bool, reply: Reply<T>) -> Option<Seq<char>> {
    if !asks {
        Some("no log is attached, so there is no fold to ask"@)
    } else {
        match reply {
            Reply::Ended => Some("the fold that was answering has ended"@),
            Reply::TimedOut => Some("the fold did not answer within 5000 ms"@),
            Reply::Answered(_) => None,
        }
    }
}

/// The same for a performance question, which an engine without a fold answers too.
pub open spec fn perf_unanswered<T>(asks: bool, reply: Reply<T>) -> Option<Seq<char>> {
    if asks {
        unanswered(asks, reply)
    } else {
        None
    }
}

/// Each source somebody is subscribed to, and how many are.
pub open spec fn watched<Q: Cut>(subs: Seq<SubV<Q>>) -> Map<Seq<char>, i64> {
    Map::new(|s: Seq<char>| watchers(subs, s) > 0, |s: Seq<char>| clamped(watchers(subs, s)))
}

/// The coordinate of a fold, where a log is attached.
pub open spec fn is_mark(mark: Option<LogMark>, fold: FoldV) -> bool {
    match (mark, fold.log) {
        (Some(m), Some(log)) => m.log@ == log && m.offset == clamped(fold.checkpoint as int),
        (None, None) => true,
        _ => false,
    }
}

/// The largest of the worst latencies, over the sources that have one.
pub open spec fn worst_of(serve: Seq<SourceMeter>) -> Option<u64>
    decreases serve.len(),
{
    if serve.len() == 0 {
        None
    } else {
        match (worst_of(serve.drop_last()), serve.last().latency_max_us) {
            (Some(a), Some(b)) => if a >= b {
                Some(a)
            } else {
                Some(b)
            },
            (Some(a), None) => Some(a),
            (None, b) => b,
        }
    }
}

proof fn lemma_watchers_nonneg<Q: Cut>(subs: Seq<SubV<Q>>, source: Seq<char>)
    ensures
        watchers(subs, source) >= 0,
    decreases subs.len(),
{
    if subs.len() > 0 {
        lemma_watchers_nonneg(subs.drop_last(), source);
    }
}

proof fn lemma_push_last<Q: Cut>(subs: Seq<SubV<Q>>, x: SubV<Q>)
    ensures
        subs.push(x).drop_last() == subs,
        subs.push(x).last() == x,
{
    assert(subs.push(x).drop_last() =~= subs);
}

/// What was measured, or nothing of it.
fn empty_perf() -> (r: EnginePerf)
    ensures
        r.ingest == (IngestCost { spell_db_ms: None, scan_ms: None, scan_bytes: None }),
        r.serve@ == Seq::<SourceMeter>::empty(),
        r.timeline@ == Seq::<Moment>::empty(),
{
    EnginePerf {
        ingest: IngestCost { spell_db_ms: None, scan_ms: None, scan_bytes: None },
        serve: Vec::new(),
        timeline: Vec::new(),
    }
}

/// What a performance question is answered from: the fold's own measurements, or none without a fold.
pub open spec fn measured_is(m: EnginePerf, asks: bool, reply: Reply<EnginePerf>) -> bool {
    if asks {
        reply matches Reply::Answered(p) && m == p
    } else {
        &&& m.ingest == (IngestCost { spell_db_ms: None, scan_ms: None, scan_bytes: None })
        &&& m.serve@ == Seq::<SourceMeter>::empty()
        &&& m.timeline@ == Seq::<Moment>::empty()
    }
}

/// What a question about a module came to, by the door there was when it was asked.
pub open spec fn module_answers<T>(
    r: SnapshotAnswer<T>,
    asks: bool,
    reply: Reply<Option<T>>,
) -> bool {
    match unanswered(asks, reply) {
        Some(why) => r matches SnapshotAnswer::Unavailable(s) && s@ == why,
        None => match reply->Answered_0 {
            Some(v) => r == SnapshotAnswer::Snapshot(v),
            None => r is NotFound,
        },
    }
}

/// What a combat question came to; `without` is what is said where the fold has no combat engine.
pub open spec fn combat_answers<T>(
    r: CombatAnswer<T>,
    asks: bool,
    reply: Reply<Option<T>>,
    without: Seq<char>,
) -> bool {
    match unanswered(asks, reply) {
        Some(why) => r matches CombatAnswer::Unavailable(s) && s@ == why,
        None => match reply->Answered_0 {
            Some(v) => r == CombatAnswer::Answer(v),
            None => r matches CombatAnswer::Unavailable(s) && s@ == without,
        },
    }
}

/// What a question for the readings came to.
pub open spec fn budgets_answers(
    r: PerfAnswer<PerfBudgetsResult>,
    epoch: i64,
    asks: bool,
    reply: Reply<EnginePerf>,
) -> bool {
    match perf_unanswered(asks, reply) {
        Some(why) => r matches PerfAnswer::Unavailable(s) && s@ == why,
        None => exists|m: EnginePerf| #[trigger]
            measured_is(m, asks, reply) && r == PerfAnswer::Perf(
                PerfBudgetsResult {
                    epoch,
                    readings: Readings {
                        scan_ms: m.ingest.scan_ms,
                        scan_bytes: m.ingest.scan_bytes,
                        worst_serve_us: worst_of(m.serve@),
                    },
                },
            ),
    }
}

/// What a question for the recent history came to.
pub open spec fn timeline_answers(
    r: PerfAnswer<PerfTimelineResult>,
    epoch: i64,
    asks: bool,
    reply: Reply<EnginePerf>,
) -> bool {
    match perf_unanswered(asks, reply) {
        Some(why) => r matches PerfAnswer::Unavailable(s) && s@ == why,
        None => r matches PerfAnswer::Perf(p) && {
            &&& p.epoch == epoch
            &&& p.capacity == TIMELINE_CAPACITY
            &&& p.cadence_ms == TIMELINE_CADENCE_MS
            &&& exists|m: EnginePerf| #[trigger]
                measured_is(m, asks, reply) && p.timeline@ == m.timeline@.map_values(
                    |x: Moment| moment_of(x),
                )
        },
    }
}

/// What the world is when it is asked about itself.
#[verifier::ext_equal]
pub struct StandingV {
    pub status: HealthResultStatus,
    pub epoch: i64,
    pub fold: FoldV,
    pub watched: Map<Seq<char>, i64>,
    pub asks: bool,
}

impl<Q: Cut> WorldState<Q> {
    pub open spec fn standing(self) -> StandingV {
        StandingV {
            status: self.status,
            epoch: self.epoch,
            fold: self.fold,
            watched: watched(all_subs(self.listeners)),
            asks: self.asks,
        }
    }
}

/// What the world says of itself, given the two readings of the outside world.
pub open spec fn is_health(
    r: HealthResult,
    at: StandingV,
    uptime_ms: u64,
    log_mtime_ms: Option<i64>,
) -> bool {
    &&& r.status == at.status
    &&& r.epoch == at.epoch
    &&& r.uptime_ms == clamped(uptime_ms as int)
    &&& r.events == (if at.fold.log is Some {
        Some(at.fold.events)
    } else {
        None
    })
    &&& r.last_event_ts == at.fold.last_ts
    &&& r.log_mtime_ms == (if at.fold.log is Some {
        log_mtime_ms
    } else {
        None
    })
    &&& is_mark(r.mark, at.fold)
}

/// What a question about the engine's performance came to.
pub open spec fn perf_answers(
    r: PerfAnswer<PerfSnapshotResult>,
    at: StandingV,
    uptime_ms: u64,
    reply: Reply<EnginePerf>,
) -> bool {
    match perf_unanswered(at.asks, reply) {
        Some(why) => r matches PerfAnswer::Unavailable(s) && s@ == why,
        None => r matches PerfAnswer::Perf(p) && {
            &&& p.status == perf_status_of(at.status)
            &&& p.epoch == at.epoch
            &&& p.uptime_ms == clamped(uptime_ms as int)
            &&& p.events == (if at.fold.log is Some {
                Some(at.fold.events)
            } else {
                None
            })
            &&& p.last_event_ts == at.fold.last_ts
            &&& opt_text(p.clock_zone) == at.fold.clock_zone
            &&& p.clock_source == at.fold.clock_source
            &&& p.clock_skew_ms == at.fold.clock_skew_ms
            &&& is_mark(p.mark, at.fold)
            &&& exists|m: EnginePerf| #[trigger]
                measured_is(m, at.asks, reply) && p.ingest == (PerfIngest {
                    spell_db_ms: clamped_opt(m.ingest.spell_db_ms),
                    scan_ms: clamped_opt(m.ingest.scan_ms),
                    scan_bytes: clamped_opt(m.ingest.scan_bytes),
                }) && serves(p.serve@, m.serve@, at.watched)
        },
    }
}

/// What a question to the fold came to, by the door there was when it was asked. The three ways there
/// is nobody to answer are stated differently because they read differently in a bug report.
pub fn fold_answer<T>(asks: bool, reply: Reply<T>) -> (r: Result<T, String>)
    ensures
        match r {
            Ok(v) => unanswered(asks, reply) is None && reply == Reply::Answered(v),
            Err(why) => unanswered(asks, reply) == Some(why@),
        },
{
    if !asks {
        return Err("no log is attached, so there is no fold to ask".to_owned());
    }
    match reply {
        Reply::Ended => Err("the fold that was answering has ended".to_owned()),
        Reply::TimedOut => Err("the fold did not answer within 5000 ms".to_owned()),
        Reply::Answered(v) => Ok(v),
    }
}

/// One module's published state, by the door there was when it was asked for.
pub fn module_answer<T>(asks: bool, reply: Reply<Option<T>>) -> (r: SnapshotAnswer<T>)
    ensures
        module_answers(r, asks, reply),
{
    match fold_answer(asks, reply) {
        Ok(Some(v)) => SnapshotAnswer::Snapshot(v),
        Ok(None) => SnapshotAnswer::NotFound,
        Err(why) => SnapshotAnswer::Unavailable(why),
    }
}

/// The combat engine's state, by the door there was when it was asked for.
pub fn meter_answer<T>(asks: bool, reply: Reply<Option<T>>) -> (r: CombatAnswer<T>)
    ensures
        combat_answers(
            r,
            asks,
            reply,
            "this fold carries no combat engine, so there is no meter to read"@,
        ),
{
    match fold_answer(asks, reply) {
        Err(why) => CombatAnswer::Unavailable(why),
        Ok(None) => CombatAnswer::Unavailable(
            "this fold carries no combat engine, so there is no meter to read".to_owned(),
        ),
        Ok(Some(v)) => CombatAnswer::Answer(v),
    }
}

/// A search of the fights, by the door there was when it was asked for.
pub fn fights_answer<T>(asks: bool, reply: Reply<Option<T>>) -> (r: CombatAnswer<T>)
    ensures
        combat_answers(
            r,
            asks,
            reply,
            "this fold carries no combat engine, so there is no fight history to search"@,
        ),
{
    match fold_answer(asks, reply) {
        Err(why) => CombatAnswer::Unavailable(why),
        Ok(None) => CombatAnswer::Unavailable(
            "this fold carries no combat engine, so there is no fight history to search".to_owned(),
        ),
        Ok(Some(v)) => CombatAnswer::Answer(v),
    }
}

/// What has been looted off one creature, by the door there was when it was asked for.
pub fn loot_answer<T>(asks: bool, spellings: &Vec<String>, reply: Reply<Vec<T>>) -> (r: Vec<T>)
    ensures
        if spellings@.len() > 0 && unanswered(asks, reply) is None {
            reply == Reply::Answered(r)
        } else {
            r@ == Seq::<T>::empty()
        },
{
    if spellings.len() == 0 {
        return Vec::new();
    }
    match fold_answer(asks, reply) {
        Ok(v) => v,
        Err(_) => Vec::new(),
    }
}

/// What a performance question is answered from, by the door there was when it was asked. A world with
/// no fold has no door, and that is an idle engine rather than a refusal.
fn measured_answer(asks: bool, reply: Reply<EnginePerf>) -> (r: Result<EnginePerf, String>)
    ensures
        match r {
            Ok(m) => perf_unanswered(asks, reply) is None && measured_is(m, asks, reply),
            Err(why) => perf_unanswered(asks, reply) == Some(why@),
        },
{
    if !asks {
        return Ok(empty_perf());
    }
    fold_answer(asks, reply)
}

/// The readings that the budgets are judged against, by the generation and the door there were when
/// they were asked for.
pub fn budgets_answer(epoch: i64, asks: bool, reply: Reply<EnginePerf>) -> (r: PerfAnswer<
    PerfBudgetsResult,
>)
    ensures
        budgets_answers(r, epoch, asks, reply),
{
    let measured = match measured_answer(asks, reply) {
        Ok(m) => m,
        Err(why) => {
            return PerfAnswer::Unavailable(why);
        },
    };
    PerfAnswer::Perf(
        PerfBudgetsResult {
            epoch,
            readings: Readings {
                scan_ms: measured.ingest.scan_ms,
                scan_bytes: measured.ingest.scan_bytes,
                worst_serve_us: worst_serve(&measured.serve),
            },
        },
    )
}

/// The recent history, by the generation and the door there were when it was asked for.
pub fn timeline_answer(epoch: i64, asks: bool, reply: Reply<EnginePerf>) -> (r: PerfAnswer<
    PerfTimelineResult,
>)
    ensures
        timeline_answers(r, epoch, asks, reply),
{
    let measured = match measured_answer(asks, reply) {
        Ok(m) => m,
        Err(why) => {
            return PerfAnswer::Unavailable(why);
        },
    };
    let mut timeline: Vec<PerfMoment> = Vec::new();
    let mut i: usize = 0;
    while i < measured.timeline.len()
        invariant
            i <= measured.timeline.len(),
            timeline.len() == i,
            forall|j: int|
                0 <= j < i ==> #[trigger] timeline@[j] == moment_of(measured.timeline@[j]),
        decreases measured.timeline.len() - i,
    {
        timeline.push(moment_row(&measured.timeline[i]));
        i = i + 1;
    }
    assert(timeline@ =~= measured.timeline@.map_values(|x: Moment| moment_of(x)));
    PerfAnswer::Perf(
        PerfTimelineResult {
            epoch,
            capacity: TIMELINE_CAPACITY,
            cadence_ms: TIMELINE_CADENCE_MS,
            timeline,
        },
    )
}

/// What the world is, copied when it is asked, so that the counts, the coordinate and the door are of one
/// instant; what has to be waited for or read off a file is added to the copy.
pub struct Standing {
    status: HealthResultStatus,
    epoch: i64,
    fold: Fold,
    watched: TextMap<i64>,
    asks: bool,
}

impl View for Standing {
    type V = StandingV;

    closed spec fn view(&self) -> StandingV {
        StandingV {
            status: self.status,
            epoch: self.epoch,
            fold: self.fold.state(),
            watched: self.watched@.at,
            asks: self.asks,
        }
    }
}

impl Standing {
    /// The log that was attached.
    pub fn log(&self) -> (r: Option<String>)
        ensures
            opt_text(r) == self@.fold.log,
    {
        copy_opt(&self.fold.log)
    }

    /// What the world said of itself, with the readings taken since.
    pub fn health(&self, uptime_ms: u64, log_mtime_ms: Option<i64>) -> (r: HealthResult)
        ensures
            is_health(r, self@, uptime_ms, log_mtime_ms),
    {
        let mark = self.fold.mark();
        let attached: bool = mark.is_some();
        HealthResult {
            status: self.status,
            epoch: self.epoch,
            uptime_ms: clamp_i64(uptime_ms),
            events: if attached {
                Some(self.fold.events)
            } else {
                None
            },
            last_event_ts: self.fold.last_ts,
            log_mtime_ms: if attached {
                log_mtime_ms
            } else {
                None
            },
            mark,
        }
    }

    /// What this engine was doing and what it has cost, with the fold's reply to the question.
    pub fn perf_snapshot(&self, uptime_ms: u64, reply: Reply<EnginePerf>) -> (r: PerfAnswer<
        PerfSnapshotResult,
    >)
        ensures
            perf_answers(r, self@, uptime_ms, reply),
    {
        let measured = match measured_answer(self.asks, reply) {
            Ok(m) => m,
            Err(why) => {
                return PerfAnswer::Unavailable(why);
            },
        };
        let mark = self.fold.mark();
        let attached: bool = mark.is_some();
        PerfAnswer::Perf(
            PerfSnapshotResult {
                status: perf_status(self.status),
                epoch: self.epoch,
                uptime_ms: clamp_i64(uptime_ms),
                events: if attached {
                    Some(self.fold.events)
                } else {
                    None
                },
                last_event_ts: self.fold.last_ts,
                clock_zone: copy_opt(&self.fold.clock_zone),
                clock_source: self.fold.clock_source,
                clock_skew_ms: self.fold.clock_skew_ms,
                mark,
                ingest: PerfIngest {
                    spell_db_ms: clamp_opt(measured.ingest.spell_db_ms),
                    scan_ms: clamp_opt(measured.ingest.scan_ms),
                    scan_bytes: clamp_opt(measured.ingest.scan_bytes),
                },
                serve: serve_rows(&measured.serve, &self.watched),
            },
        )
    }
}

impl Fold {
    /// The mark of the fold, where a log is attached.
    fn mark(&self) -> (r: Option<LogMark>)
        ensures
            is_mark(r, self.state()),
    {
        match &self.log {
            Some(log) => Some(LogMark { log: log.clone(), offset: clamp_i64(self.checkpoint) }),
            None => None,
        }
    }

    fn copy(&self) -> (r: Fold)
        ensures
            r.state() == self.state(),
    {
        Fold {
            log: copy_opt(&self.log),
            checkpoint: self.checkpoint,
            events: self.events,
            last_ts: self.last_ts,
            clock_zone: copy_opt(&self.clock_zone),
            clock_source: self.clock_source,
            clock_skew_ms: self.clock_skew_ms,
        }
    }
}

/// One name the corpus could not answer.
pub struct Miss {
    pub domain: String,
    pub name: String,
}

pub open spec fn miss_views(v: Seq<Miss>) -> Seq<(Seq<char>, Seq<char>)> {
    v.map_values(|m: Miss| (m.domain@, m.name@))
}

/// Whether a session mark is taken, by the status and the door that were read together and what came
/// back through the door.
pub fn mark_taken(status: HealthResultStatus, takes_writes: bool, reply: Reply<bool>) -> (r: bool)
    ensures
        r == (status == HealthResultStatus::Live && takes_writes && reply == Reply::Answered(true)),
{
    status == HealthResultStatus::Live && confirmed(takes_writes, reply)
}

/// Whether a statement to the fold was taken, by the door there was when it was made and what came back
/// through it. One that is not answered in time is not claimed.
pub fn confirmed(takes_writes: bool, reply: Reply<bool>) -> (r: bool)
    ensures
        r == (takes_writes && reply == Reply::Answered(true)),
{
    let took: bool = match reply {
        Reply::Answered(b) => b,
        _ => false,
    };
    takes_writes && took
}

impl Default for World {
    fn default() -> (r: Self)
        ensures
            r@ == WorldState::<SourceView>::fresh(),
    {
        World::new()
    }
}

pub open spec fn moved_views(v: Seq<(String, i64)>) -> Seq<(Seq<char>, i64)> {
    v.map_values(|m: (String, i64)| (m.0@, m.1))
}

impl World {
    /// A fresh world. A respawn is a launch, so a world is only ever made fresh and there is no state to
    /// restore.
    pub fn new() -> (r: Self)
        ensures
            r@ == WorldState::<SourceView>::fresh(),
            r@.wf(),
    {
        World::over_views()
    }
}

impl<Q: Cut> World<Q> {
    /// A fresh world whose subscriptions are over the caller's own views.
    pub fn over_views() -> (r: Self)
        ensures
            r@ == WorldState::<Q>::fresh(),
            r@.wf(),
    {
        let r = World {
            epoch: FIRST_EPOCH,
            generation: 0,
            listeners: Vec::new(),
            next_listener: 0,
            status: HealthResultStatus::Idle,
            fold: fresh_fold(None),
            defines: TextMap::new(),
            write_to: false,
            asks: false,
            client_spells: None,
            log_dir: None,
        };
        assert(r@.listeners =~= Seq::empty());
        r
    }

    /// Register a connection and give it its name and its queue.
    pub fn join(&mut self) -> (r: ListenerId)
        requires
            old(self)@.next_listener < u64::MAX,
        ensures
            old(self)@.wf() ==> final(self)@.wf(),
            r.n == old(self)@.next_listener,
            final(self)@ == (WorldState {
                next_listener: (old(self)@.next_listener + 1) as u64,
                listeners: old(self)@.listeners.push(
                    ListenerV {
                        id: old(self)@.next_listener,
                        open: true,
                        outbox: Seq::empty(),
                        subs: Seq::empty(),
                    },
                ),
                ..old(self)@
            }),
    {
        let id: u64 = self.next_listener;
        self.next_listener = self.next_listener + 1;
        let l = Listener { id, open: true, outbox: Vec::new(), subs: Vec::new() };
        let ghost before = self.listeners@;
        assert(l.state().outbox =~= Seq::empty());
        assert(l.state().subs =~= Seq::empty());
        self.listeners.push(l);
        assert(listener_states(self.listeners@) =~= listener_states(before).push(l.state()));
        ListenerId { n: id }
    }

    /// Deregister a connection, and with it every subscription it held. Idempotent.
    pub fn leave(&mut self, id: ListenerId)
        ensures
            old(self)@.wf() ==> final(self)@.wf(),
            final(self)@ == (WorldState {
                listeners: old(self)@.listeners.filter(|l: ListenerV<Q>| l.id != id.n),
                ..old(self)@
            }),
    {
        let ghost all = listener_states(self.listeners@);
        let ghost p = |l: ListenerV<Q>| l.id != id.n;
        proof {
            if self@.wf() {
                lemma_filter_keeps_order(self@, p);
            }
        }
        let mut left: Vec<Listener<Q>> = Vec::new();
        core::mem::swap(&mut self.listeners, &mut left);
        let ghost src = left@;
        let mut out: Vec<Listener<Q>> = Vec::new();
        let ghost mut done: int = 0;
        proof {
            reveal(Seq::filter);
            assert(src.skip(0) =~= src);
            assert(listener_states(out@) =~= all.take(0).filter(p));
        }
        while left.len() > 0
            invariant
                0 <= done <= src.len(),
                left@ == src.skip(done),
                all == listener_states(src),
                p == (|l: ListenerV<Q>| l.id != id.n),
                listener_states(out@) == all.take(done).filter(p),
            decreases left.len(),
        {
            let ghost before = out@;
            let l: Listener<Q> = left.remove(0);
            proof {
                reveal(Seq::filter);
                assert(l.state() == all[done]);
                assert(all.take(done + 1).drop_last() =~= all.take(done));
                assert(all.take(done + 1).last() == l.state());
                assert(left@ =~= src.skip(done + 1));
            }
            if l.id != id.n {
                out.push(l);
                assert(listener_states(out@) =~= listener_states(before).push(l.state()));
            }
            proof {
                done = done + 1;
            }
        }
        assert(all.take(done) =~= all);
        self.listeners = out;
    }

    fn find_listener(&self, id: ListenerId) -> (r: Option<usize>)
        ensures
            match r {
                Some(i) => i < self.listeners@.len() && self@.place(id.n) == i,
                None => self@.place(id.n) == -1,
            },
    {
        let ghost ls = self@.listeners;
        let mut i: usize = 0;
        while i < self.listeners.len()
            invariant
                i <= self.listeners.len(),
                ls == listener_states(self.listeners@),
                listener_place(ls, id.n, 0) == listener_place(ls, id.n, i as int),
            decreases self.listeners.len() - i,
        {
            assert(ls[i as int] == self.listeners@[i as int].state());
            if self.listeners[i].id == id.n {
                return Some(i);
            }
            i = i + 1;
        }
        None
    }

    /// The connection's end has hung up: it is dropped at the next message it should have been sent.
    pub fn hang_up(&mut self, id: ListenerId)
        ensures
            old(self)@.wf() ==> final(self)@.wf(),
            final(self)@ == (if old(self)@.place(id.n) >= 0 {
                old(self)@.with_listener(
                    old(self)@.place(id.n),
                    ListenerV { open: false, ..old(self)@.listeners[old(self)@.place(id.n)] },
                )
            } else {
                old(self)@
            }),
    {
        if let Some(i) = self.find_listener(id) {
            let ghost before = self.listeners@;
            proof {
                lemma_listener_place(self@.listeners, id.n, 0);
                if self@.wf() {
                    lemma_changed_listener_keeps_order(
                        self@,
                        i as int,
                        ListenerV { open: false, ..self@.listeners[i as int] },
                    );
                }
            }
            self.listeners[i].open = false;
            assert(listener_states(self.listeners@) =~= listener_states(before).update(
                i as int,
                self.listeners@[i as int].state(),
            ));
        }
    }

    /// Takes what is queued for a connection, oldest first.
    pub fn collect(&mut self, id: ListenerId) -> (r: Vec<EngineMessage>)
        ensures
            old(self)@.wf() ==> final(self)@.wf(),
            ({
                let i = old(self)@.place(id.n);
                &&& said(r@) == (if i >= 0 {
                    old(self)@.listeners[i].outbox
                } else {
                    Seq::empty()
                })
                &&& final(self)@ == (if i >= 0 {
                    old(self)@.with_listener(
                        i,
                        ListenerV { outbox: Seq::empty(), ..old(self)@.listeners[i] },
                    )
                } else {
                    old(self)@
                })
            }),
    {
        let mut out: Vec<EngineMessage> = Vec::new();
        assert(said(out@) =~= Seq::empty());
        if let Some(i) = self.find_listener(id) {
            let ghost before = self.listeners@;
            assert(self@.listeners[i as int] == before[i as int].state());
            proof {
                if self@.wf() {
                    lemma_changed_listener_keeps_order(
                        self@,
                        i as int,
                        ListenerV { outbox: Seq::empty(), ..self@.listeners[i as int] },
                    );
                }
            }
            core::mem::swap(&mut self.listeners[i].outbox, &mut out);
            assert(said(self.listeners@[i as int].outbox@) =~= Seq::empty());
            assert(listener_states(self.listeners@) =~= listener_states(before).update(
                i as int,
                self.listeners@[i as int].state(),
            ));
        }
        out
    }

    /// Open one subscription over a view, and answer with the epoch its reset must name. It opens
    /// owing a reset.
    pub fn open_subscription(
        &mut self,
        listener: ListenerId,
        subscription: i64,
        view: Q,
    ) -> (r: i64)
        ensures
            old(self)@.wf() ==> final(self)@.wf(),
            r == old(self)@.epoch,
            ({
                let i = old(self)@.place(listener.n);
                let fresh = SubV { view, held: None, total: 0, revision: None };
                final(self)@ == (if i >= 0 {
                    let l = old(self)@.listeners[i];
                    old(self)@.with_listener(
                        i,
                        ListenerV { subs: with_sub(l.subs, subscription, fresh), ..l },
                    )
                } else {
                    old(self)@
                })
            }),
    {
        let sub = Sub { view, held: None, total: 0, revision: None };
        if let Some(i) = self.find_listener(listener) {
            let ghost before = self.listeners@;
            assert(self@.listeners[i as int] == before[i as int].state());
            proof {
                if self@.wf() {
                    let l = self@.listeners[i as int];
                    lemma_with_sub(l.subs, subscription, sub.state());
                    lemma_changed_listener_keeps_order(
                        self@,
                        i as int,
                        ListenerV { subs: with_sub(l.subs, subscription, sub.state()), ..l },
                    );
                }
            }
            put_sub(&mut self.listeners[i].subs, subscription, sub);
            assert(listener_states(self.listeners@) =~= listener_states(before).update(
                i as int,
                self.listeners@[i as int].state(),
            ));
        }
        self.epoch
    }

    /// Close one subscription. `false` when this connection does not hold it.
    pub fn close_subscription(&mut self, listener: ListenerId, subscription: i64) -> (r: bool)
        ensures
            old(self)@.wf() ==> final(self)@.wf(),
            ({
                let i = old(self)@.place(listener.n);
                let l = old(self)@.listeners[i];
                let kept = l.subs.filter(|p: (i64, SubV<Q>)| p.0 != subscription);
                &&& r == (i >= 0 && kept.len() != l.subs.len())
                &&& final(self)@ == (if i >= 0 {
                    old(self)@.with_listener(i, ListenerV { subs: kept, ..l })
                } else {
                    old(self)@
                })
            }),
    {
        if let Some(i) = self.find_listener(listener) {
            let ghost before = self.listeners@;
            assert(self@.listeners[i as int] == before[i as int].state());
            proof {
                if self@.wf() {
                    let l = self@.listeners[i as int];
                    lemma_fewer_subs(l.subs, |p: (i64, SubV<Q>)| p.0 != subscription);
                    lemma_changed_listener_keeps_order(
                        self@,
                        i as int,
                        ListenerV {
                            subs: l.subs.filter(|p: (i64, SubV<Q>)| p.0 != subscription),
                            ..l
                        },
                    );
                }
            }
            let r = drop_sub(&mut self.listeners[i].subs, subscription);
            assert(listener_states(self.listeners@) =~= listener_states(before).update(
                i as int,
                self.listeners@[i as int].state(),
            ));
            r
        } else {
            false
        }
    }

    /// Serve every open subscription: the view layer's cadence tick. Says whether this turn owns the
    /// world, and hands back the frames that were sent. A turn that lost the world writes nothing.
    pub fn serve_views<R: Rows>(&mut self, generation: u64, rows: &R) -> (r: (bool, Vec<Frame>))
        ensures
            old(self)@.wf() ==> final(self)@.wf(),
            r.0 == old(self)@.owns(generation),
            ({
                let prepared = old(self)@.prepared(*rows, false);
                &&& final(self)@ == (if r.0 {
                    old(self)@.serve(prepared, false)
                } else {
                    old(self)@
                })
                &&& frame_states(r.1@) == (if r.0 {
                    served(old(self)@.listeners, prepared, false, old(self)@.epoch).1
                } else {
                    Seq::empty()
                })
            }),
    {
        let prepared = self.prepare(rows, false);
        self.serve_prepared(generation, &prepared, false)
    }

    /// Push what was built for a serve pass. Ownership is asked here and not when it was built: a turn
    /// that lost the world in between writes nothing, which is what makes building elsewhere safe.
    pub fn serve_prepared(&mut self, generation: u64, prepared: &Vec<Prepared>, reset_all: bool) -> (r: (
        bool,
        Vec<Frame>,
    ))
        ensures
            old(self)@.wf() ==> final(self)@.wf(),
            r.0 == old(self)@.owns(generation),
            final(self)@ == old(self)@.pushed(generation, prepared_states(prepared@), reset_all),
            frame_states(r.1@) == (if r.0 {
                served(
                    old(self)@.listeners,
                    prepared_states(prepared@),
                    reset_all,
                    old(self)@.epoch,
                ).1
            } else {
                Seq::empty()
            }),
    {
        if self.generation != generation {
            let none: Vec<Frame> = Vec::new();
            assert(frame_states(none@) =~= Seq::empty());
            return (false, none);
        }
        let epoch: i64 = self.epoch;
        proof {
            if self@.wf() {
                lemma_serve_keeps_order(self@, prepared_states(prepared@), reset_all);
            }
        }
        let frames = serve(&mut self.listeners, prepared, reset_all, epoch);
        (true, frames)
    }

    /// The sources that subscriptions read, each once, in the order they are first read.
    fn sources(&self) -> (r: Vec<String>)
        ensures
            texts(r@) == sources_read(all_subs(self@.listeners)),
    {
        let ghost ls = listener_states(self.listeners@);
        let mut out: Vec<String> = Vec::new();
        let mut i: usize = 0;
        assert(texts(out@) =~= Seq::empty());
        while i < self.listeners.len()
            invariant
                i <= self.listeners.len(),
                ls == listener_states(self.listeners@),
                texts(out@) == sources_read(all_subs(ls.take(i as int))),
            decreases self.listeners.len() - i,
        {
            let subs = &self.listeners[i].subs;
            let ghost front = all_subs(ls.take(i as int));
            let ghost own = sub_states(subs@).map_values(|p: (i64, SubV<Q>)| p.1);
            let mut j: usize = 0;
            proof {
                assert(ls.take(i + 1).drop_last() =~= ls.take(i as int));
                assert(ls.take(i + 1).last() == self.listeners@[i as int].state());
                assert(front + own.take(0) =~= front);
            }
            while j < subs.len()
                invariant
                    j <= subs.len(),
                    own == sub_states(subs@).map_values(|p: (i64, SubV<Q>)| p.1),
                    texts(out@) == sources_read(front + own.take(j as int)),
                decreases subs.len() - j,
            {
                let source = subs[j].1.view.source();
                proof {
                    let x = own[j as int];
                    assert(x.view.source_of() == source@);
                    assert(front + own.take(j + 1) =~= (front + own.take(j as int)).push(x));
                    lemma_push_last(front + own.take(j as int), x);
                }
                if !lists(&out, source) {
                    let name = source.to_owned();
                    assert(texts(out@.push(name)) =~= texts(out@).push(name@));
                    out.push(name);
                }
                j = j + 1;
            }
            assert(own.take(j as int) =~= own);
            i = i + 1;
        }
        assert(ls.take(i as int) =~= ls);
        out
    }

    /// What the subscriptions to one source need.
    fn need(&self, source: &str) -> (r: SourceNeed)
        ensures
            r.state() == need_of(all_subs(self@.listeners), source@),
    {
        let ghost ls = listener_states(self.listeners@);
        let mut owed = false;
        let mut held: Vec<Option<u64>> = Vec::new();
        let mut i: usize = 0;
        while i < self.listeners.len()
            invariant
                i <= self.listeners.len(),
                ls == listener_states(self.listeners@),
                owed == owed_of(all_subs(ls.take(i as int)), source@),
                held@ == held_of(all_subs(ls.take(i as int)), source@),
            decreases self.listeners.len() - i,
        {
            let subs = &self.listeners[i].subs;
            let ghost front = all_subs(ls.take(i as int));
            let ghost own = sub_states(subs@).map_values(|p: (i64, SubV<Q>)| p.1);
            let mut j: usize = 0;
            proof {
                assert(ls.take(i + 1).drop_last() =~= ls.take(i as int));
                assert(ls.take(i + 1).last() == self.listeners@[i as int].state());
                assert(front + own.take(0) =~= front);
            }
            while j < subs.len()
                invariant
                    j <= subs.len(),
                    own == sub_states(subs@).map_values(|p: (i64, SubV<Q>)| p.1),
                    owed == owed_of(front + own.take(j as int), source@),
                    held@ == held_of(front + own.take(j as int), source@),
                decreases subs.len() - j,
            {
                let sub = &subs[j].1;
                proof {
                    let x = own[j as int];
                    assert(x == sub.state());
                    assert(front + own.take(j + 1) =~= (front + own.take(j as int)).push(x));
                    lemma_push_last(front + own.take(j as int), x);
                }
                if same(sub.view.source(), source) {
                    owed = owed || sub.held.is_none();
                    held.push(sub.revision);
                }
                j = j + 1;
            }
            assert(own.take(j as int) =~= own);
            i = i + 1;
        }
        assert(ls.take(i as int) =~= ls);
        SourceNeed { source: source.to_owned(), owed, held }
    }

    /// Which sources are subscribed, and at what revisions: all that has to be known before anything is
    /// built.
    pub fn needs(&self) -> (r: Vec<SourceNeed>)
        ensures
            need_states(r@) == needs_of(all_subs(self@.listeners)),
    {
        let sources = self.sources();
        let ghost subs = all_subs(self@.listeners);
        let mut out: Vec<SourceNeed> = Vec::new();
        let mut i: usize = 0;
        while i < sources.len()
            invariant
                i <= sources.len(),
                out.len() == i,
                subs == all_subs(self@.listeners),
                forall|j: int|
                    0 <= j < i ==> (#[trigger] out@[j]).state() == need_of(subs, sources@[j]@),
            decreases sources.len() - i,
        {
            out.push(self.need(sources[i].as_str()));
            i = i + 1;
        }
        assert(need_states(out@) =~= needs_of(subs)) by {
            assert forall|j: int| 0 <= j < out.len() implies need_states(out@)[j] == needs_of(
                subs,
            )[j] by {
                assert(sources_read(subs)[j] == sources@[j]@);
                assert(out@[j].state() == need_of(subs, sources@[j]@));
            }
        }
        out
    }

    /// Which sources have to be built for the next serve pass, and their rows. `force` is a landing
    /// fold: every subscription is owed a reset, so every subscribed source is built.
    pub fn prepare<R: Rows>(&self, rows: &R, force: bool) -> (r: Vec<Prepared>)
        ensures
            prepared_states(r@) == self@.prepared(*rows, force),
    {
        build_needed(&self.needs(), rows, force)
    }

    /// Answer `session.health`, with the two readings of the outside world it carries: how long the
    /// process has been up, and the attached log's modification time.
    ///
    /// The mark, the event count and the file's time are absent before the first attach, and absent is
    /// not zero.
    pub fn health(&self, uptime_ms: u64, log_mtime_ms: Option<i64>) -> (r: HealthResult)
        ensures
            is_health(r, self@.standing(), uptime_ms, log_mtime_ms),
    {
        self.standing().health(uptime_ms, log_mtime_ms)
    }

    /// Answer `module.snapshot`: one module's published state, from the fold that is running.
    pub fn module_snapshot<T>(&self, reply: Reply<Option<T>>) -> (r: SnapshotAnswer<T>)
        ensures
            module_answers(r, self@.asks, reply),
    {
        module_answer(self.asks, reply)
    }

    /// How many subscriptions are open over each source right now, across every connection.
    fn subscriber_counts(&self) -> (r: TextMap<i64>)
        ensures
            r@.at == watched(all_subs(self@.listeners)),
    {
        let ghost ls = listener_states(self.listeners@);
        let mut out: TextMap<i64> = TextMap::new();
        let mut i: usize = 0;
        assert(out@.at =~= watched::<Q>(Seq::empty()));
        while i < self.listeners.len()
            invariant
                i <= self.listeners.len(),
                ls == listener_states(self.listeners@),
                out@.at == watched(all_subs(ls.take(i as int))),
            decreases self.listeners.len() - i,
        {
            let subs = &self.listeners[i].subs;
            let ghost front = all_subs(ls.take(i as int));
            let ghost own = sub_states(subs@).map_values(|p: (i64, SubV<Q>)| p.1);
            let mut j: usize = 0;
            proof {
                assert(ls.take(i + 1).drop_last() =~= ls.take(i as int));
                assert(ls.take(i + 1).last() == self.listeners@[i as int].state());
                assert(front + own.take(0) =~= front);
            }
            while j < subs.len()
                invariant
                    j <= subs.len(),
                    own == sub_states(subs@).map_values(|p: (i64, SubV<Q>)| p.1),
                    out@.at == watched(front + own.take(j as int)),
                decreases subs.len() - j,
            {
                let source = subs[j].1.view.source();
                let ghost before = front + own.take(j as int);
                let ghost x = own[j as int];
                let ghost was = out@.at;
                proof {
                    assert(x.view.source_of() == source@);
                    assert(front + own.take(j + 1) =~= before.push(x));
                    lemma_push_last(before, x);
                    lemma_watchers_nonneg(before, source@);
                }
                let count: i64 = match out.get(source) {
                    Some(n) => *n,
                    None => 0,
                };
                let next: i64 = if count < i64::MAX {
                    count + 1
                } else {
                    count
                };
                out.insert(source.to_owned(), next);
                proof {
                    let after = watched(before.push(x));
                    assert forall|s: Seq<char>| #[trigger] out@.at.contains_key(s)
                        == after.contains_key(s) && (after.contains_key(s) ==> out@.at[s]
                        == after[s]) by {
                        lemma_watchers_nonneg(before, s);
                    }
                    assert(out@.at =~= after);
                }
                j = j + 1;
            }
            assert(own.take(j as int) =~= own);
            i = i + 1;
        }
        assert(ls.take(i as int) =~= ls);
        out
    }

    /// What the world is now, for what it says of itself.
    pub fn standing(&self) -> (r: Standing)
        ensures
            r@ == self@.standing(),
    {
        Standing {
            status: self.status,
            epoch: self.epoch,
            fold: self.fold.copy(),
            watched: self.subscriber_counts(),
            asks: self.asks,
        }
    }

    /// Answer `perf.snapshot`: what this engine is doing and what it has cost. An engine with nothing
    /// attached still answers.
    pub fn perf_snapshot(&self, uptime_ms: u64, reply: Reply<EnginePerf>) -> (r: PerfAnswer<
        PerfSnapshotResult,
    >)
        ensures
            perf_answers(r, self@.standing(), uptime_ms, reply),
    {
        self.standing().perf_snapshot(uptime_ms, reply)
    }

    /// The readings that `perf.budgets` judges, and the generation they are of.
    pub fn perf_budgets(&self, reply: Reply<EnginePerf>) -> (r: PerfAnswer<PerfBudgetsResult>)
        ensures
            budgets_answers(r, self@.epoch, self@.asks, reply),
    {
        budgets_answer(self.epoch, self.asks, reply)
    }

    /// Answer `perf.timeline`: the bounded recent history behind the snapshot's totals, and the
    /// horizon it is bounded by.
    pub fn perf_timeline(&self, reply: Reply<EnginePerf>) -> (r: PerfAnswer<PerfTimelineResult>)
        ensures
            timeline_answers(r, self@.epoch, self@.asks, reply),
    {
        timeline_answer(self.epoch, self.asks, reply)
    }

    /// Answer `combat.snapshot`: the combat engine's whole state, from the fold that is running.
    pub fn combat_snapshot<T>(&self, reply: Reply<Option<T>>) -> (r: CombatAnswer<T>)
        ensures
            combat_answers(
                r,
                self@.asks,
                reply,
                "this fold carries no combat engine, so there is no meter to read"@,
            ),
    {
        meter_answer(self.asks, reply)
    }

    /// Answer `combat.searchFights`: a ranked search of the fold's whole encounter history.
    pub fn search_fights<T>(&self, reply: Reply<Option<T>>) -> (r: CombatAnswer<T>)
        ensures
            combat_answers(
                r,
                self@.asks,
                reply,
                "this fold carries no combat engine, so there is no fight history to search"@,
            ),
    {
        fights_answer(self.asks, reply)
    }

    /// Answer `resist.levels`: the only refusal is that there is nobody to ask.
    pub fn resist_levels<T>(&self, reply: Reply<Vec<T>>) -> (r: Result<Vec<T>, String>)
        ensures
            match r {
                Ok(v) => unanswered(self@.asks, reply) is None && reply == Reply::Answered(v),
                Err(why) => unanswered(self@.asks, reply) == Some(why@),
            },
    {
        fold_answer(self.asks, reply)
    }

    /// Where the client's spell table of the attached install lies. `None` when nothing has been
    /// attached.
    pub fn client_spells(&self) -> (r: Option<String>)
        ensures
            opt_text(r) == self@.client_spells,
    {
        copy_opt(&self.client_spells)
    }

    /// Take one family of app knowledge. The world records the push, and says whether there is a fold
    /// to hand it to; a define pushed at a world without one is applied by the next attach.
    pub fn define(&mut self, family: &str, payload: &str) -> (r: bool)
        ensures
            old(self)@.wf() ==> final(self)@.wf(),
            r == old(self)@.write_to,
            final(self)@ == (WorldState {
                defines: old(self)@.defines.insert(family@, payload@),
                ..old(self)@
            }),
    {
        self.defines.insert(family.to_owned(), payload.to_owned());
        self.write_to
    }

    /// Everything the app has told this process, ordered by family.
    pub fn held_defines(&self) -> (r: Vec<(String, String)>)
        ensures
            crate::sorted::ascending(r@.map_values(|p: (String, String)| p.0@)),
            forall|k: Seq<char>|
                #[trigger] self@.defines.contains_key(k) <==> r@.map_values(
                    |p: (String, String)| p.0@,
                ).contains(k),
            forall|i: int| 0 <= i < r.len() ==> self@.defines[(#[trigger] r@[i]).0@] == r@[i].1@,
    {
        let n: usize = self.defines.len();
        let mut out: Vec<(String, String)> = Vec::new();
        let mut i: usize = 0;
        while i < n
            invariant
                i <= n,
                n == self.defines@.keys.len(),
                out.len() == i,
                forall|j: int|
                    0 <= j < i ==> (#[trigger] out@[j]).0@ == self.defines@.keys[j] && out@[j].1@
                        == self.defines@.at[self.defines@.keys[j]],
            decreases n - i,
        {
            out.push((self.defines.key_at(i).to_owned(), self.defines.value_at(i).clone()));
            i = i + 1;
        }
        assert(out@.map_values(|p: (String, String)| p.0@) =~= self.defines@.keys);
        out
    }

    /// Where the character logs live, as the app just said.
    pub fn set_log_dir(&mut self, dir: &str)
        ensures
            old(self)@.wf() ==> final(self)@.wf(),
            final(self)@ == (WorldState { log_dir: Some(dir@), ..old(self)@ }),
    {
        self.log_dir = Some(dir.to_owned());
    }

    /// The directory whose character logs are to be listed, or why there is none.
    pub fn list_logs(&self) -> (r: Result<String, String>)
        ensures
            match self@.log_dir {
                Some(dir) => r matches Ok(d) && d@ == dir,
                None => r matches Err(why) && why@
                    == "no log directory has been pushed, so there is nothing to enumerate; the app names it with logs.setDir"@,
            },
    {
        match &self.log_dir {
            Some(dir) => Ok(dir.clone()),
            None => Err(
                "no log directory has been pushed, so there is nothing to enumerate; the app names it with logs.setDir".to_owned(),
            ),
        }
    }

    /// The ingest offers to take writes.
    pub fn serve_writes(&mut self, generation: u64) -> (r: bool)
        ensures
            old(self)@.wf() ==> final(self)@.wf(),
            r == old(self)@.owns(generation),
            final(self)@ == (if r {
                WorldState { write_to: true, ..old(self)@ }
            } else {
                old(self)@
            }),
    {
        if self.generation != generation {
            return false;
        }
        self.write_to = true;
        true
    }

    /// An alert fired: announce it to every connection. It changes nothing else.
    pub fn report_fire(&mut self, generation: u64, fire: &Fire) -> (r: bool)
        ensures
            old(self)@.wf() ==> final(self)@.wf(),
            r == old(self)@.owns(generation),
            final(self)@ == (if r {
                old(self)@.broadcast(Said::Fire(fire@))
            } else {
                old(self)@
            }),
    {
        if self.generation != generation {
            return false;
        }
        let frame = EngineMessage::FireMessage(fire.copy());
        proof {
            if self@.wf() {
                self@.a_broadcast_keeps_the_world_in_order(frame@);
            }
        }
        broadcast(&mut self.listeners, &frame);
        true
    }

    /// A live `/con` produced a card: announce it to every connection. It changes nothing else.
    pub fn report_con_card(&mut self, generation: u64, card: &str) -> (r: bool)
        ensures
            old(self)@.wf() ==> final(self)@.wf(),
            r == old(self)@.owns(generation),
            final(self)@ == (if r {
                old(self)@.broadcast(Said::ConCard(card@))
            } else {
                old(self)@
            }),
    {
        if self.generation != generation {
            return false;
        }
        let frame = EngineMessage::ConCardMessage(card.to_owned());
        proof {
            if self@.wf() {
                self@.a_broadcast_keeps_the_world_in_order(frame@);
            }
        }
        broadcast(&mut self.listeners, &frame);
        true
    }

    /// Modules moved: one frame per module, in the order given.
    pub fn report_modules_changed(&mut self, generation: u64, changed: &Vec<(String, i64)>) -> (r: bool)
        ensures
            old(self)@.wf() ==> final(self)@.wf(),
            r == old(self)@.owns(generation),
            final(self)@ == (if r {
                old(self)@.modules_changed(moved_views(changed@))
            } else {
                old(self)@
            }),
    {
        if self.generation != generation {
            return false;
        }
        let ghost all = moved_views(changed@);
        let mut i: usize = 0;
        assert(all.take(0) =~= Seq::empty());
        while i < changed.len()
            invariant
                i <= changed.len(),
                all == moved_views(changed@),
                self@ == old(self)@.modules_changed(all.take(i as int)),
            decreases changed.len() - i,
        {
            proof {
                assert(all.take(i + 1).drop_last() =~= all.take(i as int));
                assert(all.take(i + 1).last() == all[i as int]);
            }
            let frame = EngineMessage::ModuleChangedMessage {
                module: changed[i].0.clone(),
                seq: changed[i].1,
            };
            broadcast(&mut self.listeners, &frame);
            i = i + 1;
        }
        assert(all.take(i as int) =~= all);
        proof {
            if old(self)@.wf() {
                lemma_modules_changed_keeps_order(old(self)@, all);
            }
        }
        true
    }

    /// Take a session mark, or refuse it. It is refused unless the world is live and its fold takes
    /// writes, and then the fold's own answer is the answer; one that does not come in time is a
    /// refusal. The status it was decided under is stated beside it.
    pub fn session_mark(&self, reply: Reply<bool>) -> (r: (bool, HealthResultStatus))
        ensures
            r.1 == self@.status,
            r.0 == (self@.status == HealthResultStatus::Live && self@.write_to && reply
                == Reply::Answered(true)),
    {
        (mark_taken(self.status, self.write_to, reply), self.status)
    }

    /// Confirm a sighting. A world with no fold has no row to confirm, and there is no status gate.
    pub fn confirm_sighting(&self, reply: Reply<bool>) -> (r: bool)
        ensures
            r == (self@.write_to && reply == Reply::Answered(true)),
    {
        confirmed(self.write_to, reply)
    }

    /// What has been looted off one creature. No fold, or a fold that does not answer in time, is an
    /// empty history rather than a refusal.
    pub fn own_loot<T>(&self, spellings: &Vec<String>, reply: Reply<Vec<T>>) -> (r: Vec<T>)
        ensures
            if spellings@.len() > 0 && unanswered(self@.asks, reply) is None {
                reply == Reply::Answered(r)
            } else {
                r@ == Seq::<T>::empty()
            },
    {
        loot_answer(self.asks, spellings, reply)
    }

    /// Announce every name the corpus could not answer. It is not gated on the generation: a miss
    /// states something about the process's corpus. A domain the wire has no word for is passed over.
    pub fn announce_knowledge_misses(&mut self, misses: &Vec<Miss>, domains: &Vec<String>)
        ensures
            old(self)@.wf() ==> final(self)@.wf(),
            final(self)@ == old(self)@.misses(miss_views(misses@), texts(domains@)),
    {
        let ghost all = miss_views(misses@);
        let mut i: usize = 0;
        assert(all.take(0) =~= Seq::empty());
        while i < misses.len()
            invariant
                i <= misses.len(),
                all == miss_views(misses@),
                self@ == old(self)@.misses(all.take(i as int), texts(domains@)),
            decreases misses.len() - i,
        {
            proof {
                assert(all.take(i + 1).drop_last() =~= all.take(i as int));
                assert(all.take(i + 1).last() == all[i as int]);
            }
            if lists(domains, misses[i].domain.as_str()) {
                let frame = EngineMessage::KnowledgeMissMessage {
                    domain: misses[i].domain.clone(),
                    name: misses[i].name.clone(),
                };
                broadcast(&mut self.listeners, &frame);
            }
            i = i + 1;
        }
        assert(all.take(i as int) =~= all);
        proof {
            if old(self)@.wf() {
                lemma_misses_keep_order(old(self)@, all, texts(domains@));
            }
        }
    }

    /// What the fold has consumed: the log, the mark, and what was counted reaching it.
    pub fn mark(&self) -> (r: Mark)
        ensures
            opt_text(r.log) == self@.fold.log,
            r.checkpoint == self@.fold.checkpoint,
            r.events == self@.fold.events,
            r.last_ts == self@.fold.last_ts,
    {
        Mark {
            log: copy_opt(&self.fold.log),
            checkpoint: self.fold.checkpoint,
            events: self.fold.events,
            last_ts: self.fold.last_ts,
        }
    }

    /// Answer `session.attach`: begin a generation over one log, preempting anything already folding.
    /// The install is named by the log, so its client table is replaced with it. It is always
    /// accepted; what the app has told the process is untouched.
    pub fn attach(&mut self, log_path: &str, client_spells: Option<String>) -> (r: AttachResult)
        requires
            old(self)@.epoch < i64::MAX,
        ensures
            old(self)@.wf() ==> final(self)@.wf(),
            final(self)@ == old(self)@.attach(log_path@, opt_text(client_spells)),
            r.epoch == old(self)@.epoch + 1,
            r.accepted,
            r.generation == final(self)@.generation,
    {
        self.epoch = self.epoch + 1;
        self.generation = self.generation.wrapping_add(1);
        self.status = HealthResultStatus::Starting;
        self.fold = fresh_fold(Some(log_path.to_owned()));
        self.asks = false;
        self.write_to = false;
        self.client_spells = client_spells;
        let announcement = EngineMessage::EpochMessage(
            EpochMessage { epoch: self.epoch, reason: EpochReason::Attach, progress: None },
        );
        proof {
            if self@.wf() {
                self@.a_broadcast_keeps_the_world_in_order(announcement@);
            }
        }
        broadcast(&mut self.listeners, &announcement);
        AttachResult { epoch: self.epoch, accepted: true, generation: self.generation }
    }

    /// The zone this generation resolved, stated once, at attach, before the first stamp is parsed.
    pub fn report_clock(&mut self, generation: u64, resolved: &ResolvedZone) -> (r: bool)
        ensures
            old(self)@.wf() ==> final(self)@.wf(),
            final(self)@ == old(self)@.clock(generation, resolved.zone@.name(), resolved.source),
            r == old(self)@.owns(generation),
    {
        if self.generation != generation {
            return false;
        }
        self.fold.clock_zone = Some(resolved.zone.name());
        self.fold.clock_source = Some(clock_source(resolved.source));
        true
    }

    /// Does this turn still own the world?
    pub fn owns(&self, generation: u64) -> (r: bool)
        ensures
            r == self@.owns(generation),
    {
        self.generation == generation
    }

    /// Is there a fold to ask?
    pub fn takes_asks(&self) -> (r: bool)
        ensures
            r == self@.asks,
    {
        self.asks
    }

    /// Is there a fold to write to?
    pub fn takes_writes(&self) -> (r: bool)
        ensures
            r == self@.write_to,
    {
        self.write_to
    }

    /// The ingest offers to answer questions.
    pub fn serve_asks(&mut self, generation: u64) -> (r: bool)
        ensures
            old(self)@.wf() ==> final(self)@.wf(),
            r == old(self)@.owns(generation),
            final(self)@ == (if r {
                WorldState { asks: true, ..old(self)@ }
            } else {
                old(self)@
            }),
    {
        if self.generation != generation {
            return false;
        }
        self.asks = true;
        true
    }

    /// Move the health status, if this turn still owns the world.
    pub fn report_status(&mut self, generation: u64, status: HealthResultStatus) -> (r: bool)
        ensures
            old(self)@.wf() ==> final(self)@.wf(),
            r == old(self)@.owns(generation),
            final(self)@ == (if r {
                WorldState { status, ..old(self)@ }
            } else {
                old(self)@
            }),
    {
        if self.generation != generation {
            return false;
        }
        self.status = status;
        true
    }

    /// Announce one measurement of the fold to every connection.
    pub fn report_progress(&mut self, generation: u64, mark: FoldMark) -> (r: bool)
        ensures
            old(self)@.wf() ==> final(self)@.wf(),
            r == old(self)@.owns(generation),
            final(self)@ == old(self)@.progress(generation, mark),
    {
        if self.generation != generation {
            return false;
        }
        self.fold.checkpoint = mark.checkpoint;
        self.fold.events = mark.events;
        self.fold.last_ts = mark.last_ts;
        self.fold.clock_skew_ms = mark.skew_ms;
        let frame = EngineMessage::EpochMessage(
            EpochMessage {
                epoch: self.epoch,
                reason: EpochReason::Progress,
                progress: Some(
                    FoldProgress {
                        pct_bits: mark.pct_bits,
                        events: mark.events,
                        offset: clamp_i64(mark.checkpoint),
                        log_size: clamp_i64(mark.total),
                        live: if mark.live {
                            Some(true)
                        } else {
                            None
                        },
                    },
                ),
            },
        );
        proof {
            if self@.wf() {
                self@.a_broadcast_keeps_the_world_in_order(frame@);
            }
        }
        broadcast(&mut self.listeners, &frame);
        true
    }

    /// The fold landed: the historical scan is complete and the tail has the file. Every open
    /// subscription is reset, on every connection, stamped with this generation, even when its window
    /// is empty. Hands back the frames that were sent.
    pub fn report_fold_landed<R: Rows>(&mut self, generation: u64, mark: FoldMark, rows: &R) -> (r: (
        bool,
        Vec<Frame>,
    ))
        ensures
            old(self)@.wf() ==> final(self)@.wf(),
            r.0 == old(self)@.owns(generation),
            final(self)@ == old(self)@.landed(generation, mark, *rows),
            frame_states(r.1@) == (if r.0 {
                served(
                    old(self)@.listeners,
                    old(self)@.prepared(*rows, true),
                    true,
                    old(self)@.epoch,
                ).1
            } else {
                Seq::empty()
            }),
    {
        let prepared = self.prepare(rows, true);
        self.land_prepared(generation, mark, &prepared)
    }

    /// A landing with what was built for it. Ownership is asked here, as it is of any push.
    pub fn land_prepared(&mut self, generation: u64, mark: FoldMark, prepared: &Vec<Prepared>) -> (r: (
        bool,
        Vec<Frame>,
    ))
        ensures
            old(self)@.wf() ==> final(self)@.wf(),
            r.0 == old(self)@.owns(generation),
            final(self)@ == old(self)@.landed_with(generation, mark, prepared_states(prepared@)),
            frame_states(r.1@) == (if r.0 {
                served(
                    old(self)@.listeners,
                    prepared_states(prepared@),
                    true,
                    old(self)@.epoch,
                ).1
            } else {
                Seq::empty()
            }),
    {
        if self.generation != generation {
            let none: Vec<Frame> = Vec::new();
            assert(frame_states(none@) =~= Seq::empty());
            return (false, none);
        }
        self.status = HealthResultStatus::Live;
        self.fold.checkpoint = mark.checkpoint;
        self.fold.events = mark.events;
        self.fold.last_ts = mark.last_ts;
        let epoch: i64 = self.epoch;
        proof {
            if self@.wf() {
                lemma_serve_keeps_order(self@, prepared_states(prepared@), true);
            }
        }
        let frames = serve(&mut self.listeners, prepared, true, epoch);
        (true, frames)
    }

    /// There is no fold any more. The epoch is untouched: a fold that died created no new generation.
    pub fn report_idle(&mut self, generation: u64) -> (r: bool)
        ensures
            old(self)@.wf() ==> final(self)@.wf(),
            r == old(self)@.owns(generation),
            final(self)@ == old(self)@.idle(generation),
    {
        if self.generation != generation {
            return false;
        }
        self.status = HealthResultStatus::Idle;
        self.asks = false;
        self.write_to = false;
        true
    }
}

/// Every frame of a serve pass names the generation it is cut in.
proof fn lemma_frames_name_the_epoch<Q: Cut>(
    subs: Seq<(i64, SubV<Q>)>,
    prepared: Seq<PreparedV>,
    reset_all: bool,
    epoch: i64,
)
    ensures
        forall|i: int|
            0 <= i && i < frames_for(subs, prepared, reset_all, epoch).len() ==> named_epoch(
                (#[trigger] frames_for(subs, prepared, reset_all, epoch)[i]).message,
            ) == Some(epoch),
    decreases subs.len(),
{
    if subs.len() > 0 {
        lemma_frames_name_the_epoch(subs.drop_last(), prepared, reset_all, epoch);
    }
}

proof fn lemma_served_in_turn<Q: Cut>(
    ls: Seq<ListenerV<Q>>,
    prepared: Seq<PreparedV>,
    reset_all: bool,
    epoch: i64,
)
    requires
        forall|i: int| 0 <= i < ls.len() ==> in_turn((#[trigger] ls[i]).outbox, epoch),
    ensures
        ({
            let after = served(ls, prepared, reset_all, epoch).0;
            forall|i: int| 0 <= i < after.len() ==> in_turn((#[trigger] after[i]).outbox, epoch)
        }),
    decreases ls.len(),
{
    if ls.len() > 0 {
        lemma_served_in_turn(ls.drop_last(), prepared, reset_all, epoch);
        let l = ls.last();
        lemma_frames_name_the_epoch(l.subs, prepared, reset_all, epoch);
        let own = frames_for(l.subs, prepared, reset_all, epoch);
        let told = listener_after(l, prepared, reset_all, epoch).outbox;
        assert(in_turn(ls[ls.len() - 1].outbox, epoch));
        assert forall|i: int| l.outbox.len() <= i < told.len() implies named_epoch(
            #[trigger] told[i],
        ) == Some(epoch) by {
            assert(told[i] == own[i - l.outbox.len()].message);
        }
        assert(in_turn(told, epoch)) by {
            assert forall|i: int| 0 <= i < l.outbox.len() implies #[trigger] told[i]
                == l.outbox[i] by {}
        }
        let front = served(ls.drop_last(), prepared, reset_all, epoch).0;
        let after = served(ls, prepared, reset_all, epoch).0;
        assert forall|i: int| 0 <= i < after.len() implies in_turn(
            (#[trigger] after[i]).outbox,
            epoch,
        ) by {
            if i < front.len() {
                assert(after[i] == front[i]);
                assert(in_turn(front[i].outbox, epoch));
            } else {
                assert(after[i] == listener_after(l, prepared, reset_all, epoch));
            }
        }
    }
}

/// The subscriptions of the first connections come first among all of them.
proof fn lemma_prefix_subs<Q: Cut>(ls: Seq<ListenerV<Q>>, n: int)
    requires
        0 <= n <= ls.len(),
    ensures
        all_subs(ls.take(n)).len() <= all_subs(ls).len(),
        forall|m: int|
            0 <= m < all_subs(ls.take(n)).len() ==> all_subs(ls)[m] == #[trigger] all_subs(
                ls.take(n),
            )[m],
    decreases ls.len() - n,
{
    if n < ls.len() {
        lemma_prefix_subs(ls, n + 1);
        assert(ls.take(n + 1).drop_last() =~= ls.take(n));
        let longer = all_subs(ls.take(n + 1));
        let shorter = all_subs(ls.take(n));
        assert forall|m: int| 0 <= m < shorter.len() implies all_subs(ls)[m] == #[trigger] shorter[m] by {
            assert(longer[m] == shorter[m]);
        }
    } else {
        assert(ls.take(n) =~= ls);
    }
}

fn worst_serve(serve: &Vec<SourceMeter>) -> (r: Option<u64>)
    ensures
        r == worst_of(serve@),
{
    let mut worst: Option<u64> = None;
    let mut i: usize = 0;
    while i < serve.len()
        invariant
            i <= serve.len(),
            worst == worst_of(serve@.take(i as int)),
        decreases serve.len() - i,
    {
        assert(serve@.take(i + 1).drop_last() =~= serve@.take(i as int));
        worst = match (worst, serve[i].latency_max_us) {
            (Some(a), Some(b)) => if a >= b {
                Some(a)
            } else {
                Some(b)
            },
            (Some(a), None) => Some(a),
            (None, b) => b,
        };
        i = i + 1;
    }
    assert(serve@.take(i as int) =~= serve@);
    worst
}

proof fn lemma_with_sub_at<Q: Cut>(s: Seq<(i64, SubV<Q>)>, id: i64, sub: SubV<Q>, i: int)
    requires
        0 <= i <= s.len(),
        forall|j: int| i <= j < s.len() ==> (#[trigger] s[j]).0 > id,
        i > 0 ==> s[i - 1].0 <= id,
    ensures
        i > 0 && s[i - 1].0 == id ==> with_sub(s, id, sub) == s.update(i - 1, (id, sub)),
        !(i > 0 && s[i - 1].0 == id) ==> with_sub(s, id, sub) == s.insert(i, (id, sub)),
    decreases s.len(),
{
    if i < s.len() {
        let f = s.drop_last();
        lemma_with_sub_at(f, id, sub, i);
        if i > 0 && s[i - 1].0 == id {
            assert(s.update(i - 1, (id, sub)) =~= f.update(i - 1, (id, sub)).push(s.last()));
        } else {
            assert(s.insert(i, (id, sub)) =~= f.insert(i, (id, sub)).push(s.last()));
        }
    } else if i > 0 && s[i - 1].0 == id {
        assert(s.update(i - 1, (id, sub)) =~= s.drop_last().push((id, sub)));
    } else {
        assert(s.insert(i, (id, sub)) =~= s.push((id, sub)));
    }
}

fn put_sub<Q: Cut>(subs: &mut Vec<(i64, Sub<Q>)>, id: i64, sub: Sub<Q>)
    ensures
        sub_states(final(subs)@) == with_sub(sub_states(old(subs)@), id, sub.state()),
{
    let ghost before = subs@;
    let ghost all = sub_states(before);
    let mut i: usize = subs.len();
    while i > 0 && subs[i - 1].0 > id
        invariant
            i <= subs.len(),
            subs@ == before,
            all == sub_states(before),
            forall|j: int| i <= j < subs.len() ==> (#[trigger] all[j]).0 > id,
        decreases i,
    {
        i = i - 1;
        assert(all[i as int].0 == before[i as int].0);
    }
    proof {
        if i > 0 {
            assert(all[i - 1].0 == before[i - 1].0);
        }
        lemma_with_sub_at(all, id, sub.state(), i as int);
    }
    if i > 0 && subs[i - 1].0 == id {
        subs.set(i - 1, (id, sub));
        assert(sub_states(subs@) =~= all.update(i - 1, (id, sub.state())));
    } else {
        subs.insert(i, (id, sub));
        assert(sub_states(subs@) =~= all.insert(i as int, (id, sub.state())));
    }
}

fn drop_sub<Q: Cut>(subs: &mut Vec<(i64, Sub<Q>)>, id: i64) -> (r: bool)
    ensures
        sub_states(final(subs)@) == sub_states(old(subs)@).filter(|p: (i64, SubV<Q>)| p.0 != id),
        r == (final(subs)@.len() != old(subs)@.len()),
{
    let ghost all = sub_states(subs@);
    let ghost p = |q: (i64, SubV<Q>)| q.0 != id;
    let mut left: Vec<(i64, Sub<Q>)> = Vec::new();
    core::mem::swap(subs, &mut left);
    let ghost src = left@;
    let mut out: Vec<(i64, Sub<Q>)> = Vec::new();
    let mut gone = false;
    let ghost mut done: int = 0;
    proof {
        reveal(Seq::filter);
        assert(src.skip(0) =~= src);
        assert(sub_states(out@) =~= all.take(0).filter(p));
    }
    while left.len() > 0
        invariant
            0 <= done <= src.len(),
            left@ == src.skip(done),
            all == sub_states(src),
            p == (|q: (i64, SubV<Q>)| q.0 != id),
            sub_states(out@) == all.take(done).filter(p),
            out.len() <= done,
            gone == (out.len() != done),
        decreases left.len(),
    {
        let ghost before = out@;
        let s: (i64, Sub<Q>) = left.remove(0);
        let ghost was = (s.0, s.1.state());
        proof {
            reveal(Seq::filter);
            assert(was == all[done]);
            assert(all.take(done + 1).drop_last() =~= all.take(done));
            assert(all.take(done + 1).last() == was);
            assert(left@ =~= src.skip(done + 1));
        }
        if s.0 != id {
            out.push(s);
            assert(sub_states(out@) =~= sub_states(before).push(was));
        } else {
            gone = true;
        }
        proof {
            done = done + 1;
        }
    }
    assert(all.take(done) =~= all);
    *subs = out;
    gone
}

// ---- what the world keeps -------------------------------------------------------------------

impl<Q: Cut> WorldState<Q> {
    /// A turn that has lost the world writes nothing, whatever it reports.
    pub proof fn a_loser_writes_nothing<R: Rows>(
        self,
        loser: u64,
        mark: FoldMark,
        rows: R,
        name: Seq<char>,
        source: ZoneSource,
        prepared: Seq<PreparedV>,
        reset_all: bool,
    )
        requires
            !self.owns(loser),
        ensures
            self.clock(loser, name, source) == self,
            self.pushed(loser, prepared, reset_all) == self,
            self.landed_with(loser, mark, prepared) == self,
            self.progress(loser, mark) == self,
            self.landed(loser, mark, rows) == self,
            self.idle(loser) == self,
    {
    }

    /// A turn that loses the world between building and pushing writes nothing: what it built is
    /// dropped, whatever it is.
    pub proof fn what_a_loser_built_is_dropped(
        self,
        turn: u64,
        log: Seq<char>,
        client_spells: Option<Seq<char>>,
        prepared: Seq<PreparedV>,
        reset_all: bool,
        mark: FoldMark,
    )
        requires
            self.owns(turn),
        ensures
            ({
                let next = self.attach(log, client_spells);
                &&& next.pushed(turn, prepared, reset_all) == next
                &&& next.landed_with(turn, mark, prepared) == next
            }),
    {
    }

    /// An attach strips the turn before it of the world, moves the epoch by one, and leaves nothing of
    /// the fold before it to be asked or written to; what the app has told the process stays.
    pub proof fn an_attach_begins_a_new_world(
        self,
        log: Seq<char>,
        client_spells: Option<Seq<char>>,
    )
        requires
            self.epoch < i64::MAX,
        ensures
            ({
                let next = self.attach(log, client_spells);
                &&& !next.owns(self.generation)
                &&& next.epoch == self.epoch + 1
                &&& next.fold == FoldV::fresh(Some(log))
                &&& !next.asks && !next.write_to
                &&& next.status == HealthResultStatus::Starting
                &&& next.defines == self.defines && next.log_dir == self.log_dir
            }),
    {
    }

    /// A connection that is there hears a broadcast as the next thing in its queue; one that has hung up
    /// hears nothing further.
    pub proof fn everyone_who_is_there_hears_it(self, m: Said, i: int)
        requires
            0 <= i < self.broadcast(m).listeners.len(),
        ensures
            ({
                let l = self.broadcast(m).listeners[i];
                &&& l.open
                &&& l.outbox.len() > 0 && l.outbox.last() == m
                &&& exists|j: int|
                    0 <= j < self.listeners.len() && (#[trigger] self.listeners[j]).id == l.id
                        && l.outbox == self.listeners[j].outbox.push(m) && l.subs
                        == self.listeners[j].subs
            }),
    {
        let p = |l: ListenerV<Q>| l.open;
        let kept = self.listeners.filter(p);
        self.listeners.lemma_filter_pred(p, i);
        assert(kept.contains(kept[i]));
        self.listeners.lemma_filter_contains_rev(p, kept[i]);
        let j = choose|j: int| 0 <= j < self.listeners.len() && self.listeners[j] == kept[i];
        assert(self.listeners[j].id == kept[i].id);
    }

    /// Nobody who is there is passed over by a broadcast.
    pub proof fn nobody_who_is_there_is_passed_over(self, m: Said, j: int)
        requires
            0 <= j < self.listeners.len(),
            self.listeners[j].open,
        ensures
            exists|i: int|
                0 <= i < self.broadcast(m).listeners.len() && (
                #[trigger] self.broadcast(m).listeners[i]).id == self.listeners[j].id,
    {
        let p = |l: ListenerV<Q>| l.open;
        let kept = self.listeners.filter(p);
        self.listeners.lemma_filter_contains(p, j);
        let i = choose|i: int| 0 <= i < kept.len() && kept[i] == self.listeners[j];
        assert(self.broadcast(m).listeners[i].id == self.listeners[j].id);
    }

    /// A landing fold resets every open subscription: each is told its whole window anew, under the
    /// epoch that landed, in the order of its id, even where the window is empty.
    pub proof fn a_landing_resets_every_subscription<R: Rows>(self, rows: R, l: int, i: int)
        requires
            0 <= l < self.listeners.len(),
            0 <= i < self.listeners[l].subs.len(),
        ensures
            ({
                let prepared = self.prepared(rows, true);
                let subs = self.listeners[l].subs;
                let frames = frames_for(subs, prepared, true, self.epoch);
                &&& frames.len() == subs.len()
                &&& frames[i].kind == FrameKind::Reset
                &&& frames[i].message matches Said::Reset { id, epoch, .. } && id == subs[i].0
                    && epoch == self.epoch
            }),
    {
        let all = all_subs(self.listeners);
        let prepared = self.prepared(rows, true);
        let subs = self.listeners[l].subs;
        assert forall|k: int| 0 <= k < subs.len() implies prepared_from(
            prepared,
            (#[trigger] subs[k]).1.view.source_of(),
            0,
        ) is Some by {
            lemma_sub_is_among_all(self.listeners, l, k);
            lemma_source_is_read(all, subs[k].1);
            let source = subs[k].1.view.source_of();
            let names = sources_read(all);
            let at = choose|at: int| 0 <= at < names.len() && names[at] == source;
            lemma_built_with_force(needs_of(all), rows, at);
        }
        lemma_all_reset(subs, prepared, self.epoch);
    }

    /// No connection hears of a generation before the one that it follows: a broadcast that names the
    /// present generation, or none, keeps every queue in turn.
    pub proof fn a_broadcast_is_heard_in_turn(self, m: Said)
        requires
            self.heard_in_turn(),
            named_epoch(m) matches Some(e) ==> e == self.epoch,
        ensures
            self.broadcast(m).heard_in_turn(),
    {
        let p = |l: ListenerV<Q>| l.open;
        let kept = self.listeners.filter(p);
        let after = self.broadcast(m).listeners;
        assert forall|i: int| 0 <= i < after.len() implies in_turn(
            (#[trigger] after[i]).outbox,
            self.epoch,
        ) by {
            assert(kept.contains(kept[i]));
            self.listeners.lemma_filter_contains_rev(p, kept[i]);
            let j = choose|j: int| 0 <= j < self.listeners.len() && self.listeners[j] == kept[i];
            assert(in_turn(self.listeners[j].outbox, self.epoch));
            assert(after[i].outbox == self.listeners[j].outbox.push(m));
        }
    }

    /// A serve pass names the generation it is cut in, and nothing else.
    pub proof fn a_serve_is_heard_in_turn(self, prepared: Seq<PreparedV>, reset_all: bool)
        requires
            self.heard_in_turn(),
        ensures
            self.serve(prepared, reset_all).heard_in_turn(),
    {
        lemma_served_in_turn(self.listeners, prepared, reset_all, self.epoch);
    }

    /// An attach is announced after everything that was said of the generation before it, and whatever
    /// an ingest reports after that names no other generation than its own.
    pub proof fn generations_are_heard_in_turn<R: Rows>(
        self,
        log: Seq<char>,
        client_spells: Option<Seq<char>>,
        generation: u64,
        mark: FoldMark,
        rows: R,
    )
        requires
            self.heard_in_turn(),
            self.epoch < i64::MAX,
        ensures
            self.attach(log, client_spells).heard_in_turn(),
            self.progress(generation, mark).heard_in_turn(),
            self.landed(generation, mark, rows).heard_in_turn(),
    {
        let epoch = (self.epoch + 1) as i64;
        let next = WorldState {
            epoch,
            generation: self.generation.wrapping_add(1),
            status: HealthResultStatus::Starting,
            fold: FoldV::fresh(Some(log)),
            asks: false,
            write_to: false,
            client_spells,
            ..self
        };
        assert(next.heard_in_turn()) by {
            assert forall|i: int| 0 <= i < next.listeners.len() implies in_turn(
                (#[trigger] next.listeners[i]).outbox,
                epoch,
            ) by {
                assert(in_turn(self.listeners[i].outbox, self.epoch));
            }
        }
        next.a_broadcast_is_heard_in_turn(
            Said::Epoch(EpochMessage { epoch, reason: EpochReason::Attach, progress: None }),
        );
        if self.owns(generation) {
            let moved = WorldState {
                fold: FoldV {
                    checkpoint: mark.checkpoint,
                    events: mark.events,
                    last_ts: mark.last_ts,
                    clock_skew_ms: mark.skew_ms,
                    ..self.fold
                },
                ..self
            };
            assert(moved.heard_in_turn());
            let frame = Said::Epoch(
                EpochMessage {
                    epoch: self.epoch,
                    reason: EpochReason::Progress,
                    progress: Some(
                        FoldProgress {
                            pct_bits: mark.pct_bits,
                            events: mark.events,
                            offset: clamped(mark.checkpoint as int),
                            log_size: clamped(mark.total as int),
                            live: if mark.live {
                                Some(true)
                            } else {
                                None
                            },
                        },
                    ),
                },
            );
            moved.a_broadcast_is_heard_in_turn(frame);
            assert(self.progress(generation, mark) == moved.broadcast(frame));
            lemma_served_in_turn(self.listeners, self.prepared(rows, true), true, self.epoch);
        }
    }

    /// A subscription that owes a reset is sent a reset or nothing.
    pub proof fn an_owed_reset_comes_first(
        id: i64,
        sub: SubV<Q>,
        prepared: Seq<PreparedV>,
        reset_all: bool,
        epoch: i64,
    )
        requires
            sub.held is None,
        ensures
            frame_for(id, sub, prepared, reset_all, epoch) matches Some(f) ==> f.kind
                == FrameKind::Reset,
    {
    }

    /// What a client holds is what its subscription says it holds: a reset is the window itself, a
    /// difference leads from the window held to the next, and silence means that it did not move.
    pub proof fn the_client_holds_the_window(
        id: i64,
        sub: SubV<Q>,
        prepared: Seq<PreparedV>,
        reset_all: bool,
        epoch: i64,
    )
        requires
            sub.held matches Some(h) ==> crate::views::keyed(h),
            prepared_from(prepared, sub.view.source_of(), 0) matches Some(p) ==> crate::views::keyed(
                sub.view.window(p.rows),
            ),
        ensures
            match frame_for(id, sub, prepared, reset_all, epoch) {
                Some(f) => match f.message {
                    Said::Reset { rows, .. } => sub_after(sub, prepared, reset_all).held == Some(rows),
                    Said::Diff { ops, .. } => sub.held is Some && sub_after(
                        sub,
                        prepared,
                        reset_all,
                    ).held == Some(crate::views::patched(sub.held->0, ops)),
                    _ => false,
                },
                None => sub_after(sub, prepared, reset_all).held == sub.held,
            },
    {
        if let Some(p) = prepared_from(prepared, sub.view.source_of(), 0) {
            if sub.held is Some {
                let a = sub.held->0;
                let b = sub.view.window(p.rows);
                crate::views::a_difference_leads_from_one_window_to_the_other(a, b);
                if difference(a, b).len() == 0 {
                    assert(difference(a, b) =~= Seq::empty());
                    assert(crate::views::patched(a, difference(a, b)) == a);
                }
            }
        }
    }

    /// Opening a subscription keeps the ids of a connection in order, and the subscription is there,
    /// owing a reset.
    pub proof fn opening_keeps_the_order(subs: Seq<(i64, SubV<Q>)>, id: i64, sub: SubV<Q>)
        requires
            by_id(subs),
        ensures
            by_id(with_sub(subs, id, sub)),
            with_sub(subs, id, sub).contains((id, sub)),
    {
        lemma_with_sub(subs, id, sub);
    }

    /// Joining keeps every connection's name its own.
    pub proof fn joining_keeps_the_names_apart(self)
        requires
            self.wf(),
            self.next_listener < u64::MAX,
        ensures
            (WorldState {
                next_listener: (self.next_listener + 1) as u64,
                listeners: self.listeners.push(
                    ListenerV {
                        id: self.next_listener,
                        open: true,
                        outbox: Seq::empty(),
                        subs: Seq::empty(),
                    },
                ),
                ..self
            }).wf(),
    {
    }

    /// A broadcast leaves the connections' names and subscriptions in order.
    pub proof fn a_broadcast_keeps_the_world_in_order(self, m: Said)
        requires
            self.wf(),
        ensures
            self.broadcast(m).wf(),
    {
        let p = |l: ListenerV<Q>| l.open;
        lemma_filter_in_order(self.listeners, p);
        let kept = self.listeners.filter(p);
        let after = self.broadcast(m).listeners;
        assert forall|i: int| 0 <= i < after.len() implies by_id((#[trigger] after[i]).subs) && after[i].id
            < self.next_listener by {
            assert(after[i].subs == kept[i].subs && after[i].id == kept[i].id);
            assert(self.listeners.contains(kept[i]));
        }
        assert forall|i: int, j: int| 0 <= i < j && j < after.len() implies (#[trigger] after[i]).id < (
        #[trigger] after[j]).id by {
            assert(kept[i].id < kept[j].id);
        }
    }

    /// An attach does too.
    pub proof fn an_attach_keeps_the_world_in_order(
        self,
        log: Seq<char>,
        client_spells: Option<Seq<char>>,
    )
        requires
            self.wf(),
            self.epoch < i64::MAX,
        ensures
            self.attach(log, client_spells).wf(),
    {
        let epoch = (self.epoch + 1) as i64;
        let s = WorldState {
            epoch,
            generation: self.generation.wrapping_add(1),
            status: HealthResultStatus::Starting,
            fold: FoldV::fresh(Some(log)),
            asks: false,
            write_to: false,
            client_spells,
            ..self
        };
        assert(s.wf());
        s.a_broadcast_keeps_the_world_in_order(
            Said::Epoch(EpochMessage { epoch, reason: EpochReason::Attach, progress: None }),
        );
    }
}

/// What a filter keeps comes from the list, in its order.
proof fn lemma_filter_in_order<Q: Cut>(ls: Seq<ListenerV<Q>>, p: spec_fn(ListenerV<Q>) -> bool)
    requires
        forall|i: int, j: int|
            0 <= i < j && j < ls.len() ==> (#[trigger] ls[i]).id < (#[trigger] ls[j]).id,
    ensures
        forall|i: int, j: int|
            0 <= i < j && j < ls.filter(p).len() ==> (#[trigger] ls.filter(p)[i]).id < (
            #[trigger] ls.filter(p)[j]).id,
        forall|i: int| 0 <= i && i < ls.filter(p).len() ==> ls.contains(#[trigger] ls.filter(p)[i]),
    decreases ls.len(),
{
    reveal(Seq::filter);
    if ls.len() > 0 {
        let f = ls.drop_last();
        assert forall|i: int, j: int| 0 <= i < j && j < f.len() implies (#[trigger] f[i]).id < (
        #[trigger] f[j]).id by {
            assert(ls[i].id < ls[j].id);
        }
        lemma_filter_in_order(f, p);
        let k = ls.filter(p);
        let kf = f.filter(p);
        assert forall|i: int| 0 <= i && i < k.len() implies ls.contains(#[trigger] k[i]) by {
            if i < kf.len() {
                assert(k[i] == kf[i]);
                let x = choose|x: int| 0 <= x < f.len() && f[x] == kf[i];
                assert(ls[x] == k[i]);
            } else {
                assert(ls[ls.len() - 1] == k[i]);
            }
        }
        assert forall|i: int, j: int| 0 <= i < j && j < k.len() implies (#[trigger] k[i]).id < (
        #[trigger] k[j]).id by {
            if j < kf.len() {
                assert(kf[i].id < kf[j].id);
            } else {
                assert(k[i] == kf[i]);
                let x = choose|x: int| 0 <= x < f.len() && f[x] == kf[i];
                assert(ls[x].id < ls[ls.len() - 1].id);
            }
        }
    }
}

proof fn lemma_with_sub<Q: Cut>(s: Seq<(i64, SubV<Q>)>, id: i64, sub: SubV<Q>)
    requires
        by_id(s),
    ensures
        by_id(with_sub(s, id, sub)),
        with_sub(s, id, sub).contains((id, sub)),
        forall|i: int|
            0 <= i && i < with_sub(s, id, sub).len() ==> (#[trigger] with_sub(s, id, sub)[i]).0 <= id
                || (s.len() > 0 && with_sub(s, id, sub)[i].0 <= s.last().0),
    decreases s.len(),
{
    let w = with_sub(s, id, sub);
    if s.len() == 0 || s.last().0 < id {
        assert(w[w.len() - 1] == (id, sub));
        assert forall|i: int, j: int| 0 <= i < j && j < w.len() implies (#[trigger] w[i]).0 < (
        #[trigger] w[j]).0 by {
            if j < s.len() {
                assert(s[i].0 < s[j].0);
            } else if s.len() > 0 {
                assert(s[i].0 <= s[s.len() - 1].0);
            }
        }
    } else if s.last().0 == id {
        assert(w[w.len() - 1] == (id, sub));
        assert forall|i: int, j: int| 0 <= i < j && j < w.len() implies (#[trigger] w[i]).0 < (
        #[trigger] w[j]).0 by {
            assert(s[i].0 < s[j].0);
            assert(w[i] == s[i]);
        }
    } else {
        let f = s.drop_last();
        assert(by_id(f)) by {
            assert forall|i: int, j: int| 0 <= i < j && j < f.len() implies (#[trigger] f[i]).0 < (
            #[trigger] f[j]).0 by {
                assert(s[i].0 < s[j].0);
            }
        }
        lemma_with_sub(f, id, sub);
        let wf = with_sub(f, id, sub);
        let x = choose|x: int| 0 <= x < wf.len() && wf[x] == (id, sub);
        assert(w[x] == (id, sub));
        assert forall|i: int, j: int| 0 <= i < j && j < w.len() implies (#[trigger] w[i]).0 < (
        #[trigger] w[j]).0 by {
            if j < wf.len() {
                assert(wf[i].0 < wf[j].0);
            } else {
                assert(w[i] == wf[i]);
                if f.len() > 0 {
                    assert(f.last() == s[s.len() - 2]);
                    assert(s[s.len() - 2].0 < s[s.len() - 1].0);
                }
            }
        }
        assert forall|i: int| 0 <= i && i < w.len() implies (#[trigger] w[i]).0 <= id || (s.len() > 0
            && w[i].0 <= s.last().0) by {
            if i < wf.len() {
                assert(w[i] == wf[i]);
                if f.len() > 0 {
                    assert(f.last() == s[s.len() - 2]);
                    assert(s[s.len() - 2].0 < s[s.len() - 1].0);
                }
            }
        }
    }
}

proof fn lemma_sub_is_among_all<Q: Cut>(ls: Seq<ListenerV<Q>>, l: int, k: int)
    requires
        0 <= l < ls.len(),
        0 <= k < ls[l].subs.len(),
    ensures
        all_subs(ls).contains(ls[l].subs[k].1),
{
    lemma_prefix_subs(ls, l + 1);
    let upto = all_subs(ls.take(l + 1));
    let front = all_subs(ls.take(l));
    let own = ls[l].subs.map_values(|p: (i64, SubV<Q>)| p.1);
    assert(ls.take(l + 1).drop_last() =~= ls.take(l));
    assert(upto == front + own);
    let m = front.len() + k;
    assert(upto[m] == own[k]);
    assert(all_subs(ls)[m] == upto[m]);
}

proof fn lemma_source_is_read<Q: Cut>(subs: Seq<SubV<Q>>, sub: SubV<Q>)
    requires
        subs.contains(sub),
    ensures
        sources_read(subs).contains(sub.view.source_of()),
    decreases subs.len(),
{
    let i = choose|i: int| 0 <= i < subs.len() && subs[i] == sub;
    let f = subs.drop_last();
    let front = sources_read(f);
    if i < f.len() {
        assert(f[i] == sub);
        lemma_source_is_read(f, sub);
        let x = choose|x: int| 0 <= x < front.len() && front[x] == sub.view.source_of();
        assert(sources_read(subs)[x] == sub.view.source_of());
    } else if !front.contains(sub.view.source_of()) {
        assert(sources_read(subs)[front.len() as int] == sub.view.source_of());
    }
}

proof fn lemma_built_with_force<R: Rows>(needs: Seq<NeedV>, rows: R, i: int)
    requires
        0 <= i < needs.len(),
    ensures
        prepared_from(built(needs, rows, true), needs[i].source, 0) is Some,
    decreases needs.len(),
{
    let b = built(needs, rows, true);
    let f = needs.drop_last();
    let source = needs[i].source;
    if i < f.len() {
        lemma_built_with_force(f, rows, i);
        lemma_prepared_longer(built(f, rows, true), b.last(), source, 0);
    } else {
        assert(b.last().source == source);
        lemma_prepared_found(b, source, 0, b.len() - 1);
    }
}

proof fn lemma_prepared_found(p: Seq<PreparedV>, source: Seq<char>, from: int, i: int)
    requires
        0 <= from <= i < p.len(),
        p[i].source == source,
    ensures
        prepared_from(p, source, from) is Some,
    decreases i - from,
{
    if from < i && p[from].source != source {
        lemma_prepared_found(p, source, from + 1, i);
    }
}

proof fn lemma_prepared_longer(p: Seq<PreparedV>, x: PreparedV, source: Seq<char>, from: int)
    requires
        0 <= from,
        prepared_from(p, source, from) is Some,
    ensures
        prepared_from(p.push(x), source, from) is Some,
    decreases p.len() - from,
{
    if from < p.len() && p[from].source != source {
        lemma_prepared_longer(p, x, source, from + 1);
    }
}

proof fn lemma_all_reset<Q: Cut>(subs: Seq<(i64, SubV<Q>)>, prepared: Seq<PreparedV>, epoch: i64)
    requires
        forall|k: int|
            0 <= k < subs.len() ==> prepared_from(
                prepared,
                (#[trigger] subs[k]).1.view.source_of(),
                0,
            ) is Some,
    ensures
        ({
            let frames = frames_for(subs, prepared, true, epoch);
            &&& frames.len() == subs.len()
            &&& forall|i: int|
                0 <= i < subs.len() ==> (#[trigger] frames[i]).kind == FrameKind::Reset && (
                frames[i].message matches Said::Reset { id, epoch: e, .. } && id == subs[i].0 && e
                    == epoch)
        }),
    decreases subs.len(),
{
    if subs.len() > 0 {
        let f = subs.drop_last();
        assert forall|k: int| 0 <= k < f.len() implies prepared_from(
            prepared,
            (#[trigger] f[k]).1.view.source_of(),
            0,
        ) is Some by {
            assert(f[k] == subs[k]);
        }
        lemma_all_reset(f, prepared, epoch);
        assert(subs.last() == subs[subs.len() - 1]);
    }
}

proof fn lemma_filter_keeps_order<Q: Cut>(s: WorldState<Q>, p: spec_fn(ListenerV<Q>) -> bool)
    requires
        s.wf(),
    ensures
        (WorldState { listeners: s.listeners.filter(p), ..s }).wf(),
{
    lemma_filter_in_order(s.listeners, p);
    let kept = s.listeners.filter(p);
    assert forall|i: int| 0 <= i < kept.len() implies by_id((#[trigger] kept[i]).subs) && kept[i].id
        < s.next_listener by {
        assert(s.listeners.contains(kept[i]));
    }
}

proof fn lemma_changed_listener_keeps_order<Q: Cut>(s: WorldState<Q>, i: int, l: ListenerV<Q>)
    requires
        s.wf(),
        0 <= i < s.listeners.len(),
        l.id == s.listeners[i].id,
        by_id(l.subs),
    ensures
        s.with_listener(i, l).wf(),
{
    let after = s.with_listener(i, l).listeners;
    assert forall|x: int, y: int| 0 <= x < y && y < after.len() implies (#[trigger] after[x]).id < (
    #[trigger] after[y]).id by {
        assert(s.listeners[x].id < s.listeners[y].id);
    }
    assert forall|x: int| 0 <= x < after.len() implies by_id((#[trigger] after[x]).subs) && after[x].id
        < s.next_listener by {
        assert(s.listeners[x].id < s.next_listener);
    }
}

proof fn lemma_fewer_subs<Q: Cut>(s: Seq<(i64, SubV<Q>)>, q: spec_fn((i64, SubV<Q>)) -> bool)
    requires
        by_id(s),
    ensures
        by_id(s.filter(q)),
        forall|i: int| 0 <= i && i < s.filter(q).len() ==> s.contains(#[trigger] s.filter(q)[i]),
    decreases s.len(),
{
    reveal(Seq::filter);
    if s.len() > 0 {
        let f = s.drop_last();
        assert(by_id(f)) by {
            assert forall|i: int, j: int| 0 <= i < j && j < f.len() implies (#[trigger] f[i]).0 < (
            #[trigger] f[j]).0 by {
                assert(s[i].0 < s[j].0);
            }
        }
        lemma_fewer_subs(f, q);
        let k = s.filter(q);
        let kf = f.filter(q);
        assert forall|i: int| 0 <= i && i < k.len() implies s.contains(#[trigger] k[i]) by {
            if i < kf.len() {
                assert(k[i] == kf[i]);
                let x = choose|x: int| 0 <= x < f.len() && f[x] == kf[i];
                assert(s[x] == k[i]);
            } else {
                assert(s[s.len() - 1] == k[i]);
            }
        }
        assert forall|i: int, j: int| 0 <= i < j && j < k.len() implies (#[trigger] k[i]).0 < (
        #[trigger] k[j]).0 by {
            if j < kf.len() {
                assert(kf[i].0 < kf[j].0);
            } else {
                assert(k[i] == kf[i]);
                let x = choose|x: int| 0 <= x < f.len() && f[x] == kf[i];
                assert(s[x].0 < s[s.len() - 1].0);
            }
        }
    }
}

/// The connections that a serve pass leaves come from those it found, in their order, under their
/// names, with subscriptions of the same ids.
proof fn lemma_served_in_order<Q: Cut>(
    ls: Seq<ListenerV<Q>>,
    prepared: Seq<PreparedV>,
    reset_all: bool,
    epoch: i64,
)
    requires
        forall|i: int, j: int|
            0 <= i < j && j < ls.len() ==> (#[trigger] ls[i]).id < (#[trigger] ls[j]).id,
        forall|i: int| 0 <= i < ls.len() ==> by_id((#[trigger] ls[i]).subs),
    ensures
        ({
            let after = served(ls, prepared, reset_all, epoch).0;
            &&& forall|i: int, j: int|
                0 <= i < j && j < after.len() ==> (#[trigger] after[i]).id < (#[trigger] after[j]).id
            &&& forall|i: int|
                0 <= i < after.len() ==> by_id((#[trigger] after[i]).subs) && exists|x: int|
                    0 <= x < ls.len() && (#[trigger] ls[x]).id == after[i].id
        }),
    decreases ls.len(),
{
    if ls.len() > 0 {
        let f = ls.drop_last();
        assert forall|i: int, j: int| 0 <= i < j && j < f.len() implies (#[trigger] f[i]).id < (
        #[trigger] f[j]).id by {
            assert(ls[i].id < ls[j].id);
        }
        assert forall|i: int| 0 <= i < f.len() implies by_id((#[trigger] f[i]).subs) by {
            assert(f[i] == ls[i]);
        }
        lemma_served_in_order(f, prepared, reset_all, epoch);
        let front = served(f, prepared, reset_all, epoch).0;
        let after = served(ls, prepared, reset_all, epoch).0;
        let last = listener_after(ls.last(), prepared, reset_all, epoch);
        assert(by_id(last.subs)) by {
            let subs = ls[ls.len() - 1].subs;
            assert(by_id(subs));
            assert forall|i: int, j: int| 0 <= i < j && j < last.subs.len() implies (
            #[trigger] last.subs[i]).0 < (#[trigger] last.subs[j]).0 by {
                assert(subs[i].0 < subs[j].0);
            }
        }
        assert forall|i: int| 0 <= i < after.len() implies by_id((#[trigger] after[i]).subs) && exists|x: int|
            0 <= x < ls.len() && (#[trigger] ls[x]).id == after[i].id by {
            if i < front.len() {
                assert(after[i] == front[i]);
                let x = choose|x: int| 0 <= x < f.len() && (#[trigger] f[x]).id == front[i].id;
                assert(ls[x].id == after[i].id);
            } else {
                assert(ls[ls.len() - 1].id == after[i].id);
            }
        }
        assert forall|i: int, j: int| 0 <= i < j && j < after.len() implies (#[trigger] after[i]).id < (
        #[trigger] after[j]).id by {
            if j < front.len() {
                assert(front[i].id < front[j].id);
            } else {
                assert(after[i] == front[i]);
                let x = choose|x: int| 0 <= x < f.len() && (#[trigger] f[x]).id == front[i].id;
                assert(ls[x].id < ls[ls.len() - 1].id);
            }
        }
    }
}

proof fn lemma_serve_keeps_order<Q: Cut>(s: WorldState<Q>, prepared: Seq<PreparedV>, reset_all: bool)
    requires
        s.wf(),
    ensures
        s.serve(prepared, reset_all).wf(),
{
    lemma_served_in_order(s.listeners, prepared, reset_all, s.epoch);
    let after = s.serve(prepared, reset_all).listeners;
    assert forall|i: int| 0 <= i < after.len() implies (#[trigger] after[i]).id < s.next_listener by {
        let x = choose|x: int| 0 <= x < s.listeners.len() && (#[trigger] s.listeners[x]).id == after[i].id;
        assert(s.listeners[x].id < s.next_listener);
    }
}

proof fn lemma_modules_changed_keeps_order<Q: Cut>(s: WorldState<Q>, changed: Seq<(Seq<char>, i64)>)
    requires
        s.wf(),
    ensures
        s.modules_changed(changed).wf(),
    decreases changed.len(),
{
    if changed.len() > 0 {
        lemma_modules_changed_keeps_order(s, changed.drop_last());
        s.modules_changed(changed.drop_last()).a_broadcast_keeps_the_world_in_order(
            Said::ModuleChanged { module: changed.last().0, seq: changed.last().1 },
        );
    }
}

proof fn lemma_misses_keep_order<Q: Cut>(
    s: WorldState<Q>,
    misses: Seq<(Seq<char>, Seq<char>)>,
    domains: Seq<Seq<char>>,
)
    requires
        s.wf(),
    ensures
        s.misses(misses, domains).wf(),
    decreases misses.len(),
{
    if misses.len() > 0 {
        lemma_misses_keep_order(s, misses.drop_last(), domains);
        s.misses(misses.drop_last(), domains).a_broadcast_keeps_the_world_in_order(
            Said::KnowledgeMiss { domain: misses.last().0, name: misses.last().1 },
        );
    }
}

} // verus!
