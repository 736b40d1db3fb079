//! What the world is for: laws of what an ingest reports, of what a serve pass builds and says, and of
//! what a question is answered.
use crate::clock::PerfSnapshotResultClockSource;
use crate::timestamp::ZoneSource;
use crate::translate::{clamped, HealthResultStatus};
use crate::views::{Cut, FrameKind, Rows};
use crate::wire::{EpochMessage, EpochReason, FoldProgress, Said};
use crate::world::{
    all_subs, built, by_id, frame_for, frames_for, held_of, listener_place, need_of, needs_of,
    owed_of, prepared_from, served, sources_read, sub_after, watched, watchers, with_sub, FoldMark,
    FoldV, FrameV, ListenerV, NeedV, PreparedV, SubV, WorldState,
};
use vstd::prelude::*;

verus! {

// ---- what an ingest reports ------------------------------------------------------------------

impl<Q: Cut> WorldState<Q> {
    /// A fresh world is idle, in the first generation, with nobody listening and nothing told.
    pub proof fn a_fresh_world_is_idle()
        ensures
            ({
                let w = WorldState::<Q>::fresh();
                &&& w.epoch == 1 && w.generation == 0
                &&& w.listeners.len() == 0 && w.next_listener == 0
                &&& w.status == HealthResultStatus::Idle
                &&& w.fold.log is None && w.fold.checkpoint == 0 && w.fold.events == 0
                &&& w.fold.last_ts is None && w.fold.clock_zone is None && w.fold.clock_source is None
                    && w.fold.clock_skew_ms is None
                &&& w.defines == Map::<Seq<char>, Seq<char>>::empty()
                &&& !w.asks && !w.write_to && w.client_spells is None && w.log_dir is None
            }),
    {
    }

    /// A broadcast is the next thing in the queue of everybody who is there, in the order they joined;
    /// whoever has hung up is dropped, and nothing else of the world moves.
    pub proof fn a_broadcast_reaches_whoever_is_there(self, m: Said)
        ensures
            ({
                let next = self.broadcast(m);
                let there = self.listeners.filter(|l: ListenerV<Q>| l.open);
                &&& next.listeners.len() == there.len()
                &&& forall|i: int|
                    0 <= i < there.len() ==> (#[trigger] next.listeners[i]).outbox
                        == there[i].outbox.push(m) && next.listeners[i].id == there[i].id
                        && next.listeners[i].subs == there[i].subs && next.listeners[i].open
                        == there[i].open
                &&& next == (WorldState { listeners: next.listeners, ..self })
            }),
    {
    }

    /// An attach is a new generation by one, of another turn, over the log it names: nothing of the fold
    /// before it is left, its doors are shut, and everybody is told of the generation. What the app has
    /// told, and who listens to what, stays.
    pub proof fn an_attach_is_a_new_generation(self, log: Seq<char>, client_spells: Option<Seq<char>>)
        requires
            self.epoch < i64::MAX,
        ensures
            ({
                let next = self.attach(log, client_spells);
                &&& next.epoch == self.epoch + 1
                &&& next.generation != self.generation
                &&& self.generation < u64::MAX ==> next.generation == self.generation + 1
                &&& next.status == HealthResultStatus::Starting
                &&& next.fold.log == Some(log) && next.fold.checkpoint == 0 && next.fold.events == 0
                &&& next.fold.last_ts is None && next.fold.clock_zone is None && next.fold.clock_source
                    is None && next.fold.clock_skew_ms is None
                &&& !next.asks && !next.write_to
                &&& next.client_spells == client_spells
                &&& next.defines == self.defines && next.log_dir == self.log_dir && next.next_listener
                    == self.next_listener
                &&& next.listeners == self.broadcast(
                    Said::Epoch(
                        EpochMessage {
                            epoch: (self.epoch + 1) as i64,
                            reason: EpochReason::Attach,
                            progress: None,
                        },
                    ),
                ).listeners
            }),
    {
    }

    /// The clock that a turn states is the zone's name and where it came from, and nothing else moves; a
    /// turn that does not own the world states none.
    pub proof fn a_clock_is_stated_by_its_owner(self, generation: u64, name: Seq<char>, source: ZoneSource)
        ensures
            ({
                let next = self.clock(generation, name, source);
                &&& generation != self.generation ==> next == self
                &&& generation == self.generation ==> {
                    &&& next.fold.clock_zone == Some(name)
                    &&& next.fold.clock_source == Some(PerfSnapshotResultClockSource::Host) <==> source
                        == ZoneSource::Host
                    &&& next.fold.clock_source == Some(PerfSnapshotResultClockSource::Platform)
                        <==> source == ZoneSource::Platform
                    &&& next.fold.clock_source == Some(PerfSnapshotResultClockSource::Offset) <==> source
                        == ZoneSource::Offset
                    &&& next.fold.clock_source == Some(PerfSnapshotResultClockSource::Utc) <==> source
                        == ZoneSource::Utc
                    &&& next == (WorldState {
                        fold: FoldV {
                            clock_zone: next.fold.clock_zone,
                            clock_source: next.fold.clock_source,
                            ..self.fold
                        },
                        ..self
                    })
                }
            }),
    {
    }

    /// Progress is the fold's own coordinates, and everybody is told them under the generation that stands;
    /// a turn that does not own the world makes none.
    pub proof fn progress_is_told_as_it_was_measured(self, generation: u64, mark: FoldMark)
        ensures
            ({
                let next = self.progress(generation, mark);
                let told = FoldProgress {
                    pct_bits: mark.pct_bits,
                    events: mark.events,
                    offset: clamped(mark.checkpoint as int),
                    log_size: clamped(mark.total as int),
                    live: if mark.live {
                        Some(true)
                    } else {
                        None
                    },
                };
                &&& generation != self.generation ==> next == self
                &&& generation == self.generation ==> {
                    &&& next.fold.checkpoint == mark.checkpoint
                    &&& next.fold.events == mark.events
                    &&& next.fold.last_ts == mark.last_ts
                    &&& next.fold.clock_skew_ms == mark.skew_ms
                    &&& next.fold.log == self.fold.log && next.fold.clock_zone == self.fold.clock_zone
                        && next.fold.clock_source == self.fold.clock_source
                    &&& next.listeners == self.broadcast(
                        Said::Epoch(
                            EpochMessage {
                                epoch: self.epoch,
                                reason: EpochReason::Progress,
                                progress: Some(told),
                            },
                        ),
                    ).listeners
                    &&& next == (WorldState { fold: next.fold, listeners: next.listeners, ..self })
                }
            }),
    {
    }

    /// A landing makes the world live at the coordinates it landed at, and serves every subscription anew;
    /// a turn that does not own the world lands nothing.
    pub proof fn a_landing_goes_live(
        self,
        generation: u64,
        mark: FoldMark,
        prepared: Seq<PreparedV>,
    )
        ensures
            ({
                let next = self.landed_with(generation, mark, prepared);
                &&& generation != self.generation ==> next == self
                &&& generation == self.generation ==> {
                    &&& next.status == HealthResultStatus::Live
                    &&& next.fold.checkpoint == mark.checkpoint
                    &&& next.fold.events == mark.events
                    &&& next.fold.last_ts == mark.last_ts
                    &&& next.fold == (FoldV {
                        checkpoint: next.fold.checkpoint,
                        events: next.fold.events,
                        last_ts: next.fold.last_ts,
                        ..self.fold
                    })
                    &&& next.listeners == served(self.listeners, prepared, true, self.epoch).0
                    &&& next == (WorldState {
                        status: next.status,
                        fold: next.fold,
                        listeners: next.listeners,
                        ..self
                    })
                }
            }),
    {
    }

    /// A landing builds every source that somebody reads, and a serve pass pushes what was built where the
    /// turn still owns the world.
    pub proof fn a_serve_pass_is_its_owners<R: Rows>(
        self,
        generation: u64,
        mark: FoldMark,
        rows: R,
        prepared: Seq<PreparedV>,
        reset_all: bool,
    )
        ensures
            self.landed(generation, mark, rows) == self.landed_with(
                generation,
                mark,
                built(needs_of(all_subs(self.listeners)), rows, true),
            ),
            generation != self.generation ==> self.pushed(generation, prepared, reset_all) == self,
            generation == self.generation ==> self.pushed(generation, prepared, reset_all) == (
            WorldState {
                listeners: served(self.listeners, prepared, reset_all, self.epoch).0,
                ..self
            }),
    {
    }

    /// A fold that is gone leaves the world idle, with both doors shut, in the same generation; a turn that
    /// does not own the world changes nothing.
    pub proof fn a_fold_that_ended_leaves_the_world_idle(self, generation: u64)
        ensures
            ({
                let next = self.idle(generation);
                &&& generation != self.generation ==> next == self
                &&& generation == self.generation ==> next.status == HealthResultStatus::Idle
                    && !next.asks && !next.write_to && next == (WorldState {
                    status: next.status,
                    asks: next.asks,
                    write_to: next.write_to,
                    ..self
                })
            }),
    {
    }

    /// Where nobody has hung up, each connection hears of every module that moved, in the order given.
    pub proof fn every_moved_module_is_told(self, changed: Seq<(Seq<char>, i64)>, i: int)
        requires
            forall|j: int| 0 <= j < self.listeners.len() ==> (#[trigger] self.listeners[j]).open,
            0 <= i < self.listeners.len(),
        ensures
            ({
                let next = self.modules_changed(changed);
                &&& next.listeners.len() == self.listeners.len()
                &&& next.listeners[i].outbox == self.listeners[i].outbox + changed.map_values(
                    |c: (Seq<char>, i64)| Said::ModuleChanged { module: c.0, seq: c.1 },
                )
                &&& next.listeners[i].id == self.listeners[i].id && next.listeners[i].subs
                    == self.listeners[i].subs && next.listeners[i].open
                &&& next == (WorldState { listeners: next.listeners, ..self })
            }),
        decreases changed.len(),
    {
        let say = |c: (Seq<char>, i64)| Said::ModuleChanged { module: c.0, seq: c.1 };
        if changed.len() == 0 {
            assert(self.listeners[i].outbox + changed.map_values(say) =~= self.listeners[i].outbox);
        } else {
            let f = changed.drop_last();
            self.every_moved_module_is_told(f, i);
            let mid = self.modules_changed(f);
            assert forall|j: int| 0 <= j < mid.listeners.len() implies (
            #[trigger] mid.listeners[j]).open by {
                self.every_moved_module_is_told(f, j);
            }
            lemma_all_open(mid.listeners);
            assert(changed.map_values(say) =~= f.map_values(say).push(say(changed.last())));
            assert(self.modules_changed(changed).listeners[i].outbox =~= self.listeners[i].outbox
                + changed.map_values(say));
        }
    }

    /// Where nobody has hung up, each connection hears of every miss in a domain that the wire has a word
    /// for, in the order given, and of no other.
    pub proof fn every_miss_of_a_known_domain_is_told(
        self,
        misses: Seq<(Seq<char>, Seq<char>)>,
        domains: Seq<Seq<char>>,
        i: int,
    )
        requires
            forall|j: int| 0 <= j < self.listeners.len() ==> (#[trigger] self.listeners[j]).open,
            0 <= i < self.listeners.len(),
        ensures
            ({
                let next = self.misses(misses, domains);
                &&& next.listeners.len() == self.listeners.len()
                &&& next.listeners[i].outbox == self.listeners[i].outbox + misses.filter(
                    |m: (Seq<char>, Seq<char>)| domains.contains(m.0),
                ).map_values(
                    |m: (Seq<char>, Seq<char>)| Said::KnowledgeMiss { domain: m.0, name: m.1 },
                )
                &&& next.listeners[i].open
                &&& next == (WorldState { listeners: next.listeners, ..self })
            }),
        decreases misses.len(),
    {
        reveal(Seq::filter);
        let p = |m: (Seq<char>, Seq<char>)| domains.contains(m.0);
        let say = |m: (Seq<char>, Seq<char>)| Said::KnowledgeMiss { domain: m.0, name: m.1 };
        if misses.len() == 0 {
            assert(self.listeners[i].outbox + misses.filter(p).map_values(say)
                =~= self.listeners[i].outbox);
        } else {
            let f = misses.drop_last();
            self.every_miss_of_a_known_domain_is_told(f, domains, i);
            let mid = self.misses(f, domains);
            assert forall|j: int| 0 <= j < mid.listeners.len() implies (
            #[trigger] mid.listeners[j]).open by {
                self.every_miss_of_a_known_domain_is_told(f, domains, j);
            }
            lemma_all_open(mid.listeners);
            if p(misses.last()) {
                assert(f.filter(p).push(misses.last()).map_values(say) =~= f.filter(p).map_values(
                    say,
                ).push(say(misses.last())));
                assert(self.misses(misses, domains).listeners[i].outbox =~= self.listeners[i].outbox
                    + misses.filter(p).map_values(say));
            }
        }
    }
}

proof fn lemma_all_open<Q: Cut>(ls: Seq<ListenerV<Q>>)
    requires
        forall|j: int| 0 <= j < ls.len() ==> (#[trigger] ls[j]).open,
    ensures
        ls.filter(|l: ListenerV<Q>| l.open) == ls,
    decreases ls.len(),
{
    reveal(Seq::filter);
    if ls.len() > 0 {
        assert forall|j: int| 0 <= j < ls.drop_last().len() implies (
        #[trigger] ls.drop_last()[j]).open by {
            assert(ls[j].open);
        }
        lemma_all_open(ls.drop_last());
        assert(ls[ls.len() - 1].open);
        assert(ls =~= ls.drop_last().push(ls.last()));
    }
}

// ---- what a serve pass builds ----------------------------------------------------------------

proof fn lemma_owed<Q: Cut>(subs: Seq<SubV<Q>>, source: Seq<char>)
    ensures
        owed_of(subs, source) <==> exists|i: int|
            0 <= i < subs.len() && (#[trigger] subs[i]).view.source_of() == source && subs[i].held is None,
    decreases subs.len(),
{
    if subs.len() > 0 {
        let f = subs.drop_last();
        lemma_owed(f, source);
        if owed_of(f, source) {
            let i = choose|i: int|
                0 <= i < f.len() && (#[trigger] f[i]).view.source_of() == source && f[i].held is None;
            assert(subs[i] == f[i]);
        }
        assert(subs.last() == subs[subs.len() - 1]);
        if exists|i: int|
            0 <= i < subs.len() && (#[trigger] subs[i]).view.source_of() == source && subs[i].held
                is None {
            let i = choose|i: int|
                0 <= i < subs.len() && (#[trigger] subs[i]).view.source_of() == source && subs[i].held
                    is None;
            if i < f.len() {
                assert(f[i] == subs[i]);
            }
        }
    }
}

proof fn lemma_stale<Q: Cut>(subs: Seq<SubV<Q>>, source: Seq<char>, revision: u64)
    ensures
        (exists|i: int|
            0 <= i && i < held_of(subs, source).len() && #[trigger] held_of(subs, source)[i] != Some(
                revision,
            )) <==> exists|i: int|
            0 <= i < subs.len() && (#[trigger] subs[i]).view.source_of() == source && subs[i].revision
                != Some(revision),
    decreases subs.len(),
{
    if subs.len() > 0 {
        let f = subs.drop_last();
        let (h, hf) = (held_of(subs, source), held_of(f, source));
        lemma_stale(f, source, revision);
        assert(subs.last() == subs[subs.len() - 1]);
        if exists|i: int| 0 <= i < h.len() && #[trigger] h[i] != Some(revision) {
            let i = choose|i: int| 0 <= i < h.len() && #[trigger] h[i] != Some(revision);
            if i < hf.len() {
                assert(hf[i] == h[i]);
                let j = choose|j: int|
                    0 <= j < f.len() && (#[trigger] f[j]).view.source_of() == source && f[j].revision
                        != Some(revision);
                assert(subs[j] == f[j]);
            } else {
                assert(subs[subs.len() - 1].revision != Some(revision));
            }
        }
        if exists|j: int|
            0 <= j < subs.len() && (#[trigger] subs[j]).view.source_of() == source && subs[j].revision
                != Some(revision) {
            let j = choose|j: int|
                0 <= j < subs.len() && (#[trigger] subs[j]).view.source_of() == source
                    && subs[j].revision != Some(revision);
            if j < f.len() {
                assert(f[j] == subs[j]);
                let i = choose|i: int| 0 <= i < hf.len() && #[trigger] hf[i] != Some(revision);
                assert(h[i] == hf[i]);
            } else {
                assert(h[h.len() - 1] != Some(revision));
            }
        }
    }
}

proof fn lemma_read<Q: Cut>(subs: Seq<SubV<Q>>, source: Seq<char>)
    ensures
        sources_read(subs).contains(source) <==> exists|i: int|
            0 <= i < subs.len() && (#[trigger] subs[i]).view.source_of() == source,
        sources_read(subs).no_duplicates(),
    decreases subs.len(),
{
    if subs.len() > 0 {
        let f = subs.drop_last();
        lemma_read(f, source);
        lemma_read(f, subs.last().view.source_of());
        let (r, rf) = (sources_read(subs), sources_read(f));
        assert(subs.last() == subs[subs.len() - 1]);
        if r.contains(source) {
            let x = choose|x: int| 0 <= x < r.len() && r[x] == source;
            if x < rf.len() {
                assert(rf[x] == source);
                let i = choose|i: int| 0 <= i < f.len() && (#[trigger] f[i]).view.source_of() == source;
                assert(subs[i] == f[i]);
            } else {
                assert(subs[subs.len() - 1].view.source_of() == source);
            }
        }
        if exists|i: int| 0 <= i < subs.len() && (#[trigger] subs[i]).view.source_of() == source {
            let i = choose|i: int|
                0 <= i < subs.len() && (#[trigger] subs[i]).view.source_of() == source;
            if i < f.len() {
                assert(f[i] == subs[i]);
                let x = choose|x: int| 0 <= x < rf.len() && rf[x] == source;
                assert(r[x] == source);
            } else if rf.contains(source) {
                let x = choose|x: int| 0 <= x < rf.len() && rf[x] == source;
                assert(r[x] == source);
            } else {
                assert(r[r.len() - 1] == source);
            }
        }
    }
}

/// A source is built by the need that names it, and by no other.
proof fn lemma_built_by_its_need<R: Rows>(needs: Seq<NeedV>, rows: R, force: bool, source: Seq<char>)
    requires
        forall|i: int, j: int|
            0 <= i < j && j < needs.len() ==> (#[trigger] needs[i]).source != (#[trigger] needs[j]).source,
    ensures
        ({
            let b = built(needs, rows, force);
            let revision = if rows.revision_of(source) is Some {
                rows.revision_of(source)->0
            } else {
                0
            };
            &&& forall|m: int|
                0 <= m < b.len() && (#[trigger] b[m]).source == source ==> b[m].revision == revision
                    && b[m].rows == (if rows.rows_of(source) is Some {
                    rows.rows_of(source)->0
                } else {
                    Seq::empty()
                })
            &&& (exists|m: int| 0 <= m < b.len() && (#[trigger] b[m]).source == source) <==> exists|
                i: int,
            |
                0 <= i < needs.len() && (#[trigger] needs[i]).source == source && (force
                    || needs[i].owed || exists|h: int|
                    0 <= h < needs[i].held.len() && #[trigger] needs[i].held[h] != Some(revision))
            &&& forall|m: int, n: int|
                0 <= m < n && n < b.len() ==> (#[trigger] b[m]).source != (#[trigger] b[n]).source
            &&& forall|m: int|
                0 <= m < b.len() ==> exists|i: int|
                    0 <= i < needs.len() && (#[trigger] needs[i]).source == (#[trigger] b[m]).source
        }),
    decreases needs.len(),
{
    if needs.len() > 0 {
        let f = needs.drop_last();
        let last = needs.last();
        assert(last == needs[needs.len() - 1]);
        assert forall|i: int, j: int| 0 <= i < j && j < f.len() implies (#[trigger] f[i]).source != (
        #[trigger] f[j]).source by {
            assert(needs[i].source != needs[j].source);
        }
        lemma_built_by_its_need(f, rows, force, source);
        let (b, bf) = (built(needs, rows, force), built(f, rows, force));
        let revision = if rows.revision_of(source) is Some {
            rows.revision_of(source)->0
        } else {
            0
        };
        assert forall|m: int| 0 <= m < bf.len() implies #[trigger] b[m] == bf[m] by {}
        assert forall|m: int| 0 <= m < bf.len() implies (#[trigger] bf[m]).source != last.source by {
            let i = choose|i: int| 0 <= i < f.len() && (#[trigger] f[i]).source == bf[m].source;
            assert(needs[i].source != needs[needs.len() - 1].source);
        }
        assert forall|m: int| 0 <= m < b.len() implies exists|i: int|
            0 <= i < needs.len() && (#[trigger] needs[i]).source == (#[trigger] b[m]).source by {
            if m < bf.len() {
                let i = choose|i: int| 0 <= i < f.len() && (#[trigger] f[i]).source == bf[m].source;
                assert(needs[i].source == b[m].source);
            } else {
                assert(needs[needs.len() - 1].source == b[m].source);
            }
        }
        if exists|m: int| 0 <= m < b.len() && (#[trigger] b[m]).source == source {
            let m = choose|m: int| 0 <= m < b.len() && (#[trigger] b[m]).source == source;
            if m < bf.len() {
                assert(bf[m].source == source);
                let i = choose|i: int|
                    0 <= i < f.len() && (#[trigger] f[i]).source == source && (force || f[i].owed
                        || exists|h: int|
                        0 <= h < f[i].held.len() && #[trigger] f[i].held[h] != Some(revision));
                assert(needs[i] == f[i]);
            } else {
                assert(needs[needs.len() - 1].source == source);
            }
        }
        if exists|i: int|
            0 <= i < needs.len() && (#[trigger] needs[i]).source == source && (force || needs[i].owed
                || exists|h: int|
                0 <= h < needs[i].held.len() && #[trigger] needs[i].held[h] != Some(revision)) {
            let i = choose|i: int|
                0 <= i < needs.len() && (#[trigger] needs[i]).source == source && (force
                    || needs[i].owed || exists|h: int|
                    0 <= h < needs[i].held.len() && #[trigger] needs[i].held[h] != Some(revision));
            if i < f.len() {
                assert(f[i] == needs[i]);
                let m = choose|m: int| 0 <= m < bf.len() && (#[trigger] bf[m]).source == source;
                assert(b[m].source == source);
            } else {
                assert(b[b.len() - 1].source == source);
            }
        }
    }
}

proof fn lemma_found(p: Seq<PreparedV>, source: Seq<char>, from: int)
    requires
        0 <= from,
    ensures
        prepared_from(p, source, from) is Some <==> exists|m: int|
            from <= m < p.len() && (#[trigger] p[m]).source == source,
        prepared_from(p, source, from) matches Some(x) ==> exists|m: int|
            from <= m < p.len() && (#[trigger] p[m]) == x && x.source == source,
    decreases p.len() - from,
{
    if from < p.len() && p[from].source != source {
        lemma_found(p, source, from + 1);
        if prepared_from(p, source, from + 1) is Some {
            let m = choose|m: int|
                from + 1 <= m < p.len() && (#[trigger] p[m]) == prepared_from(p, source, from + 1)->0;
            assert(p[m].source == source);
        }
    } else if from < p.len() {
        assert(p[from].source == source);
    }
}

impl<Q: Cut> WorldState<Q> {
    /// A source is built for a serve pass exactly where some subscription reads it and it is a landing, or
    /// one that reads it owes a reset, or one was last cut at another revision. What is built is the
    /// source's rows at its revision, nought and nothing where it has none; and each source is built once.
    pub proof fn a_source_is_built_when_somebody_needs_it<R: Rows>(
        self,
        rows: R,
        force: bool,
        source: Seq<char>,
    )
        ensures
            ({
                let subs = all_subs(self.listeners);
                let prepared = self.prepared(rows, force);
                let revision = if rows.revision_of(source) is Some {
                    rows.revision_of(source)->0
                } else {
                    0
                };
                let found = prepared_from(prepared, source, 0);
                &&& found is Some <==> exists|i: int|
                    0 <= i < subs.len() && (#[trigger] subs[i]).view.source_of() == source && (force
                        || subs[i].held is None || subs[i].revision != Some(revision))
                &&& found matches Some(p) ==> p.source == source && p.revision == revision && p.rows == (
                if rows.rows_of(source) is Some {
                    rows.rows_of(source)->0
                } else {
                    Seq::empty()
                })
                &&& forall|m: int, n: int|
                    0 <= m < n && n < prepared.len() ==> (#[trigger] prepared[m]).source != (
                    #[trigger] prepared[n]).source
            }),
    {
        let subs = all_subs(self.listeners);
        let needs = needs_of(subs);
        let names = sources_read(subs);
        let prepared = self.prepared(rows, force);
        let revision = if rows.revision_of(source) is Some {
            rows.revision_of(source)->0
        } else {
            0
        };
        lemma_read(subs, source);
        lemma_owed(subs, source);
        lemma_stale(subs, source, revision);
        assert forall|i: int, j: int| 0 <= i < j && j < needs.len() implies (#[trigger] needs[i]).source
            != (#[trigger] needs[j]).source by {
            assert(names[i] != names[j]);
        }
        lemma_built_by_its_need(needs, rows, force, source);
        lemma_found(prepared, source, 0);
        let held = held_of(subs, source);
        assert((exists|h: int| 0 <= h && h < held.len() && #[trigger] held[h] != Some(revision)) <==> exists|
            i: int,
        |
            0 <= i < subs.len() && (#[trigger] subs[i]).view.source_of() == source && subs[i].revision
                != Some(revision));
        if exists|m: int| 0 <= m < prepared.len() && (#[trigger] prepared[m]).source == source {
            let i = choose|i: int|
                0 <= i < needs.len() && (#[trigger] needs[i]).source == source && (force
                    || needs[i].owed || exists|h: int|
                    0 <= h < needs[i].held.len() && #[trigger] needs[i].held[h] != Some(revision));
            assert(needs[i] == need_of(subs, names[i]));
            assert(names.contains(source));
            if force {
                let x = choose|x: int| 0 <= x < subs.len() && (#[trigger] subs[x]).view.source_of() == source;
                assert(subs[x].view.source_of() == source);
            } else if !needs[i].owed {
                let h = choose|h: int|
                    0 <= h < needs[i].held.len() && #[trigger] needs[i].held[h] != Some(revision);
                assert(held[h] != Some(revision));
            }
            assert(prepared_from(prepared, source, 0) is Some);
        }
        if exists|x: int|
            0 <= x < subs.len() && (#[trigger] subs[x]).view.source_of() == source && (force
                || subs[x].held is None || subs[x].revision != Some(revision)) {
            let x = choose|x: int|
                0 <= x < subs.len() && (#[trigger] subs[x]).view.source_of() == source && (force
                    || subs[x].held is None || subs[x].revision != Some(revision));
            assert(names.contains(source));
            let i = choose|i: int| 0 <= i < names.len() && names[i] == source;
            assert(needs[i] == need_of(subs, source));
            assert(needs[i].source == source);
            if !force && !needs[i].owed {
                assert(subs[x].held is Some);
                let h = choose|h: int| 0 <= h && h < held.len() && #[trigger] held[h] != Some(revision);
                assert(needs[i].held[h] != Some(revision));
            }
            assert(exists|m: int|
                0 <= m < prepared.len() && (#[trigger] prepared[m]).source == source);
        }
    }
}

// ---- what a serve pass says ------------------------------------------------------------------

impl<Q: Cut> WorldState<Q> {
    /// What one subscription is told: nothing where its source was not built, or where it holds a window of
    /// the revision that was and no reset is forced. Else its window anew where it owes one or one is
    /// forced, with the view's total; and else what changed, with the total where that moved, or nothing
    /// where neither did. Everything is said under the subscription's id and the generation that stands.
    pub proof fn a_subscription_is_told_what_it_does_not_hold(
        id: i64,
        sub: SubV<Q>,
        prepared: Seq<PreparedV>,
        reset_all: bool,
        epoch: i64,
    )
        ensures
            ({
                let found = prepared_from(prepared, sub.view.source_of(), 0);
                let f = frame_for(id, sub, prepared, reset_all, epoch);
                let after = sub_after(sub, prepared, reset_all);
                let current = !reset_all && sub.held is Some && found is Some && sub.revision == Some(
                    found->0.revision,
                );
                &&& after.view == sub.view
                &&& found is None || current ==> f is None && after == sub
                &&& found matches Some(p) ==> !current ==> {
                    let rows = sub.view.window(p.rows);
                    let total = sub.view.total(p.rows);
                    &&& after.held == Some(rows) && after.total == total && after.revision == Some(
                        p.revision,
                    )
                    &&& reset_all || sub.held is None ==> f == Some(
                        FrameV {
                            source: p.source,
                            kind: FrameKind::Reset,
                            rows: rows.len() as int,
                            ops: 0,
                            message: Said::Reset { id, epoch, total, rows },
                        },
                    )
                    &&& !reset_all && sub.held is Some ==> {
                        let ops = crate::views::difference(sub.held->0, rows);
                        &&& f is None <==> ops.len() == 0 && total == sub.total
                        &&& f matches Some(x) ==> x.kind == FrameKind::Diff && x.rows == 0 && x.ops
                            == ops.len() && x.source == p.source
                        &&& f matches Some(x) ==> x.message matches Said::Diff {
                            id: i,
                            epoch: e,
                            total_moved,
                            ops: o,
                        } && i == id && e == epoch && o == ops && (total_moved is Some <==> total
                            != sub.total) && (total_moved matches Some(t) ==> t == total)
                    }
                }
            }),
    {
    }

    /// A connection is told what its subscriptions are, one after another in their order, and each holds
    /// what it was told.
    pub proof fn a_connection_is_told_in_the_order_of_its_subscriptions(
        subs: Seq<(i64, SubV<Q>)>,
        prepared: Seq<PreparedV>,
        reset_all: bool,
        epoch: i64,
    )
        ensures
            frames_for(subs, prepared, reset_all, epoch) == subs.filter(
                |p: (i64, SubV<Q>)| frame_for(p.0, p.1, prepared, reset_all, epoch) is Some,
            ).map_values(
                |p: (i64, SubV<Q>)| frame_for(p.0, p.1, prepared, reset_all, epoch)->0,
            ),
        decreases subs.len(),
    {
        reveal(Seq::filter);
        let p = |p: (i64, SubV<Q>)| frame_for(p.0, p.1, prepared, reset_all, epoch) is Some;
        let m = |p: (i64, SubV<Q>)| frame_for(p.0, p.1, prepared, reset_all, epoch)->0;
        if subs.len() == 0 {
            assert(subs.filter(p).map_values(m) =~= Seq::empty());
        } else {
            let f = subs.drop_last();
            WorldState::a_connection_is_told_in_the_order_of_its_subscriptions(
                f,
                prepared,
                reset_all,
                epoch,
            );
            if p(subs.last()) {
                assert(f.filter(p).push(subs.last()).map_values(m) =~= f.filter(p).map_values(m).push(
                    m(subs.last()),
                ));
            }
        }
    }

    /// A serve pass where nobody has hung up: every connection stays, hears its own frames behind what it
    /// had heard, and holds what its subscriptions were told.
    pub proof fn everybody_hears_their_own_frames(
        ls: Seq<ListenerV<Q>>,
        prepared: Seq<PreparedV>,
        reset_all: bool,
        epoch: i64,
        i: int,
    )
        requires
            forall|j: int| 0 <= j < ls.len() ==> (#[trigger] ls[j]).open,
            0 <= i < ls.len(),
        ensures
            ({
                let next = served(ls, prepared, reset_all, epoch).0;
                let own = frames_for(ls[i].subs, prepared, reset_all, epoch);
                &&& next.len() == ls.len()
                &&& next[i].id == ls[i].id && next[i].open
                &&& next[i].outbox == ls[i].outbox + own.map_values(|f: FrameV| f.message)
                &&& next[i].subs.len() == ls[i].subs.len()
                &&& forall|k: int|
                    0 <= k < ls[i].subs.len() ==> (#[trigger] next[i].subs[k]).0 == ls[i].subs[k].0
                        && next[i].subs[k].1 == sub_after(ls[i].subs[k].1, prepared, reset_all)
            }),
        decreases ls.len(),
    {
        let f = ls.drop_last();
        assert forall|j: int| 0 <= j < f.len() implies (#[trigger] f[j]).open by {
            assert(ls[j].open);
        }
        assert(ls.last() == ls[ls.len() - 1]);
        if i < f.len() {
            WorldState::everybody_hears_their_own_frames(f, prepared, reset_all, epoch, i);
            assert(f[i] == ls[i]);
        } else if f.len() > 0 {
            WorldState::everybody_hears_their_own_frames(f, prepared, reset_all, epoch, 0);
        }
    }

    /// A connection that has hung up is dropped at the first frame it should have been sent, which alone is
    /// put to it; one that is owed none stays.
    pub proof fn whoever_hung_up_is_dropped_at_the_first_frame(
        l: ListenerV<Q>,
        prepared: Seq<PreparedV>,
        reset_all: bool,
        epoch: i64,
    )
        requires
            !l.open,
        ensures
            ({
                let own = frames_for(l.subs, prepared, reset_all, epoch);
                let (next, frames) = served(seq![l], prepared, reset_all, epoch);
                &&& own.len() > 0 ==> next.len() == 0 && frames == seq![own[0]]
                &&& own.len() == 0 ==> next.len() == 1 && next[0].id == l.id && frames.len() == 0
            }),
    {
        assert(seq![l].drop_last() =~= Seq::empty());
        let own = frames_for(l.subs, prepared, reset_all, epoch);
        reveal_with_fuel(served, 2);
        assert(Seq::<FrameV>::empty().push(own[0]) =~= seq![own[0]]);
    }

    /// The frames of two lists of connections are those of the first and then those of the second.
    pub proof fn a_serve_pass_takes_the_connections_in_turn(
        ls: Seq<ListenerV<Q>>,
        l: ListenerV<Q>,
        prepared: Seq<PreparedV>,
        reset_all: bool,
        epoch: i64,
    )
        ensures
            ({
                let (a, x) = served(ls, prepared, reset_all, epoch);
                let (b, y) = served(seq![l], prepared, reset_all, epoch);
                let (c, z) = served(ls.push(l), prepared, reset_all, epoch);
                c == a + b && z == x + y
            }),
    {
        assert(ls.push(l).drop_last() =~= ls);
        assert(seq![l].drop_last() =~= Seq::empty());
        reveal_with_fuel(served, 2);
        let (a, x) = served(ls, prepared, reset_all, epoch);
        let (b, y) = served(seq![l], prepared, reset_all, epoch);
        let (c, z) = served(ls.push(l), prepared, reset_all, epoch);
        assert(c =~= a + b);
        assert(z =~= x + y);
    }

    /// A subscription that is opened stands under its id, in place of one that stood there, and no other
    /// moves.
    pub proof fn an_opened_subscription_stands_under_its_id(
        subs: Seq<(i64, SubV<Q>)>,
        id: i64,
        sub: SubV<Q>,
        other: i64,
        x: SubV<Q>,
    )
        requires
            by_id(subs),
        ensures
            with_sub(subs, id, sub).contains((id, sub)),
            other != id ==> (with_sub(subs, id, sub).contains((other, x)) <==> subs.contains((other, x))),
            x != sub ==> !with_sub(subs, id, sub).contains((id, x)),
            by_id(with_sub(subs, id, sub)),
    {
        WorldState::opening_keeps_the_order(subs, id, sub);
        lemma_with_others(subs, id, sub, other, x);
        let w = with_sub(subs, id, sub);
        if w.contains((id, x)) {
            let i = choose|i: int| 0 <= i < w.len() && w[i] == (id, x);
            let j = choose|j: int| 0 <= j < w.len() && w[j] == (id, sub);
            if i < j {
                assert(w[i].0 < w[j].0);
            }
            if j < i {
                assert(w[j].0 < w[i].0);
            }
        }
    }
}

proof fn lemma_with_others<Q: Cut>(
    subs: Seq<(i64, SubV<Q>)>,
    id: i64,
    sub: SubV<Q>,
    other: i64,
    x: SubV<Q>,
)
    ensures
        other != id ==> (with_sub(subs, id, sub).contains((other, x)) <==> subs.contains((other, x))),
    decreases subs.len(),
{
    if other != id {
        let w = with_sub(subs, id, sub);
        if subs.len() == 0 || subs.last().0 < id {
            assert(w == subs.push((id, sub)));
            if subs.contains((other, x)) {
                let i = choose|i: int| 0 <= i < subs.len() && subs[i] == (other, x);
                assert(w[i] == (other, x));
            }
            if w.contains((other, x)) {
                let i = choose|i: int| 0 <= i < w.len() && w[i] == (other, x);
                assert(subs[i] == (other, x));
            }
        } else if subs.last().0 == id {
            if subs.contains((other, x)) {
                let i = choose|i: int| 0 <= i < subs.len() && subs[i] == (other, x);
                assert(w[i] == (other, x));
            }
            if w.contains((other, x)) {
                let i = choose|i: int| 0 <= i < w.len() && w[i] == (other, x);
                assert(subs[i] == (other, x));
            }
        } else {
            let f = subs.drop_last();
            lemma_with_others(f, id, sub, other, x);
            let wf = with_sub(f, id, sub);
            if subs.contains((other, x)) {
                let i = choose|i: int| 0 <= i < subs.len() && subs[i] == (other, x);
                if i < f.len() {
                    assert(f[i] == (other, x));
                    let j = choose|j: int| 0 <= j < wf.len() && wf[j] == (other, x);
                    assert(w[j] == (other, x));
                } else {
                    assert(w[w.len() - 1] == (other, x));
                }
            }
            if w.contains((other, x)) {
                let i = choose|i: int| 0 <= i < w.len() && w[i] == (other, x);
                if i < wf.len() {
                    assert(wf[i] == (other, x));
                    let j = choose|j: int| 0 <= j < f.len() && f[j] == (other, x);
                    assert(subs[j] == (other, x));
                } else {
                    assert(subs[subs.len() - 1] == (other, x));
                }
            }
        }
    }
}

/// A source is watched by as many as read it, and one that nobody reads is not listed.
pub proof fn a_source_is_watched_by_whoever_reads_it<Q: Cut>(subs: Seq<SubV<Q>>, source: Seq<char>)
    ensures
        ({
            let readers = subs.filter(|s: SubV<Q>| s.view.source_of() == source);
            &&& watchers(subs, source) == readers.len()
            &&& watched(subs).contains_key(source) <==> readers.len() > 0
            &&& readers.len() > 0 ==> watched(subs)[source] == clamped(readers.len() as int)
        }),
    decreases subs.len(),
{
    reveal(Seq::filter);
    if subs.len() > 0 {
        a_source_is_watched_by_whoever_reads_it(subs.drop_last(), source);
    }
}

/// Every subscription of every connection is one of all the subscriptions, and there are no others.
pub proof fn all_subscriptions_are_everybodys<Q: Cut>(ls: Seq<ListenerV<Q>>, x: SubV<Q>)
    ensures
        all_subs(ls).contains(x) <==> exists|l: int, k: int|
            0 <= l < ls.len() && 0 <= k < ls[l].subs.len() && (#[trigger] ls[l].subs[k]).1 == x,
    decreases ls.len(),
{
    if ls.len() > 0 {
        let f = ls.drop_last();
        all_subscriptions_are_everybodys(f, x);
        let own = ls.last().subs.map_values(|p: (i64, SubV<Q>)| p.1);
        let all = all_subs(ls);
        assert(ls.last() == ls[ls.len() - 1]);
        if all.contains(x) {
            let i = choose|i: int| 0 <= i < all.len() && all[i] == x;
            if i < all_subs(f).len() {
                assert(all_subs(f)[i] == x);
                let (l, k) = choose|l: int, k: int|
                    0 <= l < f.len() && 0 <= k < f[l].subs.len() && (#[trigger] f[l].subs[k]).1 == x;
                assert(ls[l].subs[k].1 == x);
            } else {
                let k = i - all_subs(f).len();
                assert(own[k] == x);
                assert(ls[ls.len() - 1].subs[k].1 == x);
            }
        }
        if exists|l: int, k: int|
            0 <= l < ls.len() && 0 <= k < ls[l].subs.len() && (#[trigger] ls[l].subs[k]).1 == x {
            let (l, k) = choose|l: int, k: int|
                0 <= l < ls.len() && 0 <= k < ls[l].subs.len() && (#[trigger] ls[l].subs[k]).1 == x;
            if l < f.len() {
                assert(f[l].subs[k].1 == x);
                let i = choose|i: int| 0 <= i < all_subs(f).len() && all_subs(f)[i] == x;
                assert(all[i] == x);
            } else {
                assert(own[k] == x);
                assert(all[all_subs(f).len() + k] == x);
            }
        }
    }
}

proof fn lemma_placed<Q: Cut>(ls: Seq<ListenerV<Q>>, id: u64, from: int)
    requires
        0 <= from <= ls.len(),
    ensures
        ({
            let p = listener_place(ls, id, from);
            &&& p == -1 || (from <= p < ls.len() && ls[p].id == id)
            &&& p == -1 ==> forall|j: int| from <= j < ls.len() ==> (#[trigger] ls[j]).id != id
        }),
    decreases ls.len() - from,
{
    if from < ls.len() && ls[from].id != id {
        lemma_placed(ls, id, from + 1);
    }
}

impl<Q: Cut> WorldState<Q> {
    /// A connection is found where it stands, by its own name; one that has left, or never joined, is
    /// found nowhere. What is written at its place is its own, and every other connection stays.
    pub proof fn a_connection_is_found_by_its_name(self, i: int, id: u64, l: ListenerV<Q>, j: int)
        requires
            self.wf(),
            0 <= i < self.listeners.len(),
            0 <= j < self.listeners.len(),
        ensures
            self.place(self.listeners[i].id) == i,
            self.place(id) == -1 <==> forall|x: int|
                0 <= x < self.listeners.len() ==> (#[trigger] self.listeners[x]).id != id,
            self.with_listener(i, l).listeners[i] == l,
            j != i ==> self.with_listener(i, l).listeners[j] == self.listeners[j],
            self.with_listener(i, l).listeners.len() == self.listeners.len(),
            self.with_listener(i, l) == (WorldState {
                listeners: self.with_listener(i, l).listeners,
                ..self
            }),
    {
        let ls = self.listeners;
        lemma_placed(ls, ls[i].id, 0);
        lemma_placed(ls, id, 0);
        let p = self.place(ls[i].id);
        if p == -1 {
            assert(ls[i].id != ls[i].id);
        } else if p < i {
            assert(ls[p].id < ls[i].id);
        } else if i < p {
            assert(ls[i].id < ls[p].id);
        }
        let q = self.place(id);
        if q >= 0 {
            assert(ls[q].id == id);
        }
    }

    /// What is read of a source is the first of it that was built.
    pub proof fn the_first_built_is_read(p: Seq<PreparedV>, m: int)
        requires
            0 <= m < p.len(),
            forall|n: int| 0 <= n < m ==> (#[trigger] p[n]).source != p[m].source,
        ensures
            prepared_from(p, p[m].source, 0) == Some(p[m]),
    {
        lemma_read_from(p, m, 0);
    }
}

proof fn lemma_read_from(p: Seq<PreparedV>, m: int, from: int)
    requires
        0 <= from <= m < p.len(),
        forall|n: int| 0 <= n < m ==> (#[trigger] p[n]).source != p[m].source,
    ensures
        prepared_from(p, p[m].source, from) == Some(p[m]),
    decreases m - from,
{
    if from < m {
        assert(p[from].source != p[m].source);
        lemma_read_from(p, m, from + 1);
    }
}

} // verus!
