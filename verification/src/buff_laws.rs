//! What the buff fold is for: laws of landings, endings, deaths, absences and sweeps, stated over what
//! is asked and what comes of it.
use crate::buff_rounds::Landing;
use crate::buffs_entities::Pets;
use crate::buffs_instance_rules::{bound_span, Open};
use crate::buffs_instances::{Expired, Instances, Landed};
use crate::buffs_shapes::{
    entity_part, instance_key_reads_back, spell_part, BuffClass, Disposition, DurationSample,
    EstimatorSource,
};
use crate::buffs_stats::{observed, Learned};
use crate::buffs_view::{Active, RowSpec};
use crate::learner_laws::{last_five, of_class};
use crate::spell_facts::Nature;
use crate::text::{begins, lower, trimmed};
use vstd::prelude::*;

verus! {

// ---- what a corpse teaches -------------------------------------------------------------------

/// A corpse teaches its span from the landing exactly where every rail lets it through: the row lives,
/// the log has printed the line's wear-off, no absence passed, the catalog states a duration, there is
/// one landing, and the span is above the estimate, within three times the catalog's word, and, for a
/// name that begins with an article, within twice the estimate. A proper name takes no such cap.
pub proof fn a_corpse_teaches_its_span(
    o: Open,
    entity_key: Seq<char>,
    death_ts: i64,
    row_lives: bool,
    stats: Learned,
)
    ensures
        ({
            let span = death_ts - o.group.landings[0].ts;
            let est = stats.estimate(o.spell_key, o.caster).ms;
            let n = entity_key.len();
            let article = (n >= 2 && entity_key[0] == 'a' && entity_key[1] == ' ') || (n >= 3
                && entity_key[0] == 'a' && entity_key[1] == 'n' && entity_key[2] == ' ') || (n >= 4
                && entity_key[0] == 't' && entity_key[1] == 'h' && entity_key[2] == 'e'
                && entity_key[3] == ' ');
            let sound = row_lives && stats.wear_off.contains(o.spell_key) && !o.spanned_gap
                && o.group.landings.len() == 1 && stats.db.at.contains_key(o.spell_key)
                && stats.db.at[o.spell_key].duration_ms is Some
                && stats.db.at[o.spell_key].duration_ms->0 > 0;
            let d = stats.db.at[o.spell_key].duration_ms->0;
            let beats = est is Some && 0 < span <= i64::MAX && span > est->0 && span <= 3 * d;
            let r = bound_span(o, entity_key, death_ts, row_lives, stats);
            &&& r matches Some(ms) ==> ms == span
            &&& !article ==> (r is Some <==> sound && beats)
            &&& article ==> (r is Some <==> sound && beats && span <= 2 * est->0)
        }),
{
    reveal_strlit("a ");
    reveal_strlit("an ");
    reveal_strlit("the ");
    let k = entity_key;
    if k.len() >= 2 && k[0] == 'a' && k[1] == ' ' {
        assert(k.take(2) =~= "a "@);
    }
    if k.len() >= 3 && k[0] == 'a' && k[1] == 'n' && k[2] == ' ' {
        assert(k.take(3) =~= "an "@);
    }
    if k.len() >= 4 && k[0] == 't' && k[1] == 'h' && k[2] == 'e' && k[3] == ' ' {
        assert(k.take(4) =~= "the "@);
    }
    if begins(k, "a "@) {
        assert(k.take(2)[0] == 'a' && k.take(2)[1] == ' ');
    }
    if begins(k, "an "@) {
        assert(k.take(3)[0] == 'a' && k.take(3)[1] == 'n' && k.take(3)[2] == ' ');
    }
    if begins(k, "the "@) {
        assert(k.take(4)[0] == 't' && k.take(4)[1] == 'h' && k.take(4)[2] == 'e' && k.take(4)[3]
            == ' ');
    }
}

// ---- landings --------------------------------------------------------------------------------

impl Instances {
    /// The record behind a landing that is not refused and not permanent bears the caster that the landing
    /// states, the player where it states none. Where another caster's record stood, or none, it holds
    /// the one landing just made and no absence; where the same caster's stood, it is that one with the
    /// landing in it.
    pub proof fn a_landing_is_its_casters_own(
        self,
        spell: Seq<char>,
        spec: Landed,
        stats: Learned,
        pets: Pets,
    )
        requires
            !Instances::refuses(spell, spec, stats),
            !(spec.on_self() && (stats.permanent(spec.line(spell)) || (spec.illusion
                && spec.permanent_illusion_owned_ts is Some && spec.ts
                >= spec.permanent_illusion_owned_ts->0))),
        ensures
            ({
                let ik = spec.line(spell) + seq!['|'] + spec.entity();
                let next = self.apply(spell, spec, stats, pets).0;
                let caster = if spec.caster is Some {
                    spec.caster->0
                } else {
                    "self"@
                };
                let o = next.open.at[ik];
                let a = next.active.at[ik];
                let stood = self.open.at.contains_key(ik) && self.open.at[ik].caster == caster;
                &&& next.open.at.contains_key(ik)
                &&& next.active.at.contains_key(ik)
                &&& o.caster == caster
                &&& o.spell == spell
                &&& o.cast_name == spec.cast_name
                &&& !stood ==> o.spell_key == spec.line(spell) && o.entity_key == spec.entity()
                    && !o.spanned_gap && o.group.landings == seq![
                    Landing { ts: spec.ts, contaminated: spec.candidates is Some },
                ]
                &&& stood ==> o.spell_key == self.open.at[ik].spell_key && o.entity_key
                    == self.open.at[ik].entity_key && o.spanned_gap == self.open.at[ik].spanned_gap
                    && o.group == self.open.at[ik].group.land(spec.ts, spec.candidates is Some)
                &&& a.caster == Some(caster)
                &&& a.spell == spell
                &&& a.cast_name == spec.cast_name
                &&& a.candidates == spec.candidates
                &&& a.permanent is None
                &&& a.started_ts == o.group.landings[0].ts
                &&& a.count == Some(o.group.landings.len() as int)
            }),
    {
        let ik = spec.line(spell) + seq!['|'] + spec.entity();
        let l = Landing { ts: spec.ts, contaminated: spec.candidates is Some };
        assert(Seq::<Landing>::empty().push(l) =~= seq![l]);
    }

    /// A landing is refused when it states no duration, no illusion and no permanent spell, and when it is
    /// a debuff on the player; a refused one changes nothing at all. One that is not is written down:
    /// its line is noted, its stamp is kept, and a cast of it in flight has landed.
    pub proof fn a_refused_landing_changes_nothing(
        self,
        spell: Seq<char>,
        spec: Landed,
        stats: Learned,
        pets: Pets,
    )
        ensures
            ({
                let key = spec.line(spell);
                let (next, learned, names) = self.apply(spell, spec, stats, pets);
                let known = stats.db.at.contains_key(key);
                let vague = spec.duration_ms is None && !spec.illusion && !(known
                    && stats.db.at[key].duration_text == Some("Permanent"@));
                let ill = spec.target == "self"@ && known && stats.db.at[key].nature
                    == Nature::Detrimental;
                &&& Instances::refuses(spell, spec, stats) <==> vague || ill
                &&& vague || ill ==> next == self && learned == stats && names == pets
                &&& !(vague || ill) ==> {
                    &&& learned.ever_faded.contains(key)
                    &&& learned.last_seen.at.contains_key(key) && learned.last_seen.at[key] >= spec.ts
                    &&& learned.samples == stats.samples
                    &&& learned.db == stats.db
                    &&& learned.wear_off == stats.wear_off
                    &&& next.expired == self.expired
                    &&& self.pending matches Some(p) ==> (next.pending is None <==> p.key == key)
                    &&& self.pending is None || self.pending->0.key != key ==> next.pending
                        == self.pending
                    &&& spec.target != "self"@ ==> names.display(spec.entity()) == spec.target
                    &&& spec.target == "self"@ ==> names == pets
                }
            }),
    {
        let key = spec.line(spell);
        let s1 = stats.note_ever_faded(key);
        if !stats.ever_faded.contains(key) {
            assert(s1.ever_faded[stats.ever_faded.len() as int] == key);
        }
    }

    /// A permanent landing keeps no record and counts nothing down: it is on the player, and the catalog
    /// says so, or it is an illusion cast once the ability that makes illusions permanent was owned.
    pub proof fn a_permanent_landing_counts_nothing(
        self,
        spell: Seq<char>,
        spec: Landed,
        stats: Learned,
        pets: Pets,
    )
        requires
            !Instances::refuses(spell, spec, stats),
        ensures
            ({
                let key = spec.line(spell);
                let ik = key + seq!['|'] + spec.entity();
                let next = self.apply(spell, spec, stats, pets).0;
                let permanent = spec.target == "self"@ && ((stats.db.at.contains_key(key)
                    && stats.db.at[key].duration_text == Some("Permanent"@)) || (spec.illusion
                    && spec.permanent_illusion_owned_ts is Some && spec.ts
                    >= spec.permanent_illusion_owned_ts->0));
                let a = next.active.at[ik];
                &&& next.active.at.contains_key(ik)
                &&& permanent <==> !next.open.at.contains_key(ik)
                &&& permanent <==> a.permanent == Some(true)
                &&& permanent ==> a.overlay_duration_ms is None && a.overlay_source is None
                    && a.started_ts == spec.ts && a.count == Some(1int)
            }),
    {
    }

    /// The row of a landing says that a message drove it, whom it is on and of what kind they are, and it
    /// counts down from what is known of its line once the rank that the landing was cast at is noted.
    pub proof fn a_landing_puts_up_its_row(
        self,
        spell: Seq<char>,
        spec: Landed,
        stats: Learned,
        pets: Pets,
    )
        requires
            !Instances::refuses(spell, spec, stats),
            stats.tier(
                spec.line(spell),
                if spec.caster is Some {
                    spec.caster->0
                } else {
                    "self"@
                },
            ) >= 0,
        ensures
            ({
                let key = spec.line(spell);
                let ik = key + seq!['|'] + spec.entity();
                let (next, learned, names) = self.apply(spell, spec, stats, pets);
                let caster = if spec.caster is Some {
                    spec.caster->0
                } else {
                    "self"@
                };
                let a = next.active.at[ik];
                let kind = if spec.target == "self"@ {
                    Disposition::Zelf
                } else {
                    names.disp_of_name(spec.target)
                };
                &&& a.message_driven == Some(true)
                &&& a.disposition == Some(kind)
                &&& a.is_self <==> spec.entity() == "self"@
                &&& a.target == names.display(spec.entity())
                &&& a.caster == Some(caster)
                &&& a.permanent is None ==> a.overlay_duration_ms == learned.estimate(key, caster).ms
                    && a.overlay_source == learned.estimate(key, caster).source
                &&& learned.stat(key, caster) matches Some(st) ==> a.p75 == st.p75 && a.n == st.n
                &&& spec.cast_name matches Some(name) ==> learned.tier(key, caster)
                    >= crate::buffs_shapes::rank_of(name)
                &&& spec.cast_name is None ==> learned.tier(key, caster) == stats.tier(key, caster)
                &&& learned.tier(key, caster) >= stats.tier(key, caster)
            }),
    {
        reveal_strlit("");
        let key = spec.line(spell);
        let caster = if spec.caster is Some {
            spec.caster->0
        } else {
            "self"@
        };
        let name = match spec.cast_name {
            Some(name) => name,
            None => ""@,
        };
        let s1 = stats.note_ever_faded(key).touch_last_seen(key, spec.ts);
        s1.a_tier_only_rises(key, caster, name, key, caster);
        assert(""@ =~= Seq::<char>::empty());
        assert(trimmed(""@) =~= Seq::<char>::empty());
        assert(crate::buffs_shapes::rank_of(""@) == 0);
    }

    /// A landing is about its own instance: but for the illusions that a new one replaces, every other
    /// row and record stands as it stood.
    pub proof fn a_landing_touches_its_own_instance(
        self,
        spell: Seq<char>,
        spec: Landed,
        stats: Learned,
        pets: Pets,
        k: Seq<char>,
    )
        requires
            k != spec.line(spell) + seq!['|'] + spec.entity(),
            !spec.illusion,
        ensures
            ({
                let next = self.apply(spell, spec, stats, pets).0;
                next.active.get(k) == self.active.get(k) && next.open.get(k) == self.open.get(k)
            }),
    {
    }

    /// A row counts down from the estimate of its line as its caster casts it, under the estimate's own
    /// source, and is of the class the catalog gives its line.
    pub proof fn a_row_counts_down_from_the_estimate(row: RowSpec, stats: Learned, pets: Pets)
        ensures
            ({
                let a = row.project(stats, pets);
                let caster = if row.caster is Some {
                    row.caster->0
                } else {
                    "self"@
                };
                let e = stats.estimate(row.key, caster);
                &&& !row.permanent ==> a.overlay_duration_ms == e.ms && a.overlay_source == e.source
                &&& row.permanent ==> a.overlay_duration_ms is None && a.overlay_source is None
                &&& a.permanent == Some(true) <==> row.permanent
                &&& a.cls == BuffClass::Debuff <==> stats.db.at.contains_key(row.key)
                    && stats.db.at[row.key].nature == Nature::Detrimental
                &&& a.is_self <==> row.entity_key == "self"@
                &&& a.inferred_target == Some(true) <==> row.entity_key == "unknown-hostile"@
                &&& a.started_ts == row.started_ts
                &&& a.count == row.count
                &&& a.caster == row.caster
                &&& a.spell == row.spell
                &&& a.cast_name == row.cast_name
                &&& a.candidates == row.candidates
                &&& a.message_driven == (if row.message_driven {
                    Some(true)
                } else {
                    None
                })
                &&& a.target == pets.display(row.entity_key)
                &&& stats.stat(row.key, caster) matches Some(st) ==> a.p75 == st.p75 && a.n == st.n
                &&& stats.stat(row.key, caster) is None ==> a.p75 is None && a.n == 0
                &&& row.disp_override is Some ==> a.disposition == row.disp_override
                &&& row.disp_override is None ==> a.disposition == Some(
                    if row.entity_key == "self"@ {
                        Disposition::Zelf
                    } else if pets.charmed_key == Some(row.entity_key) {
                        Disposition::Charmed
                    } else if pets.summoned_key == Some(row.entity_key) {
                        Disposition::Summoned
                    } else {
                        Disposition::Hostile
                    },
                )
            }),
    {
    }
}

impl Landed {
    /// A landing is of the line it names, or of its spell's own line, lowercased and without the rank; it
    /// is on the player, or on the entity whose name it prints, trimmed and lowercased.
    pub proof fn a_landing_names_its_instance(self, spell: Seq<char>)
        ensures
            self.line(spell) == (if self.line_key is Some {
                self.line_key->0
            } else {
                lower(crate::buffs_shapes::base_of(spell))
            }),
            self.entity() == (if self.target == "self"@ {
                "self"@
            } else {
                lower(trimmed(self.target))
            }),
    {
    }
}

// ---- the sweep -------------------------------------------------------------------------------

/// An instance of an age is past its long stop: past ninety minutes, past twice what the catalog states
/// for its line, and past twice the third quartile of its measured cycles, which is in quarters.
pub open spec fn past_every_stop(age: int, db_ms: Option<i64>, p75: Option<int>, n: int) -> bool {
    &&& age > 5_400_000
    &&& db_ms matches Some(d) ==> age > 2 * d
    &&& p75 matches Some(q) ==> n > 0 ==> 4 * age > 2 * q
}

/// A landing of an age is still short of one of the stops.
pub open spec fn short_of_a_stop(age: int, db_ms: Option<i64>, p75: Option<int>, n: int) -> bool {
    ||| age < 5_400_000
    ||| db_ms matches Some(d) && age < 2 * d
    ||| p75 matches Some(q) && n > 0 && 4 * age < 2 * q
}

/// The sweep leaves a row alone: it is permanent, or a buff that an unexplained hole may yet prove
/// paused.
pub open spec fn spared(a: Active, held: i64) -> bool {
    ||| a.permanent == Some(true)
    ||| held > 0 && a.cls != BuffClass::Debuff && a.started_ts <= held
}

/// A row stands so long past its countdown that its end was missed: a minute past the catalog's number,
/// half that past one that the log taught. A buff of the player's own never does, nor a row that counts
/// up.
pub open spec fn overdue(a: Active, age: int) -> bool {
    &&& a.cls == BuffClass::Debuff || !a.is_self
    &&& a.overlay_duration_ms matches Some(dur) && dur > 0 && age > dur + (if a.overlay_source is None
        || a.overlay_source == Some(EstimatorSource::Db) {
        60_000int
    } else {
        30_000
    })
}

impl Instances {
    /// A row that is spared, or that is within one of its stops and not overdue, stands as it stood, and
    /// so does its record. An overdue one within its stops goes. One past every stop sheds the landings
    /// that are past them too, and goes with its record when none is left; while one is, it counts from
    /// the oldest that is.
    pub proof fn a_row_goes_past_every_stop(
        self,
        now: i64,
        held: i64,
        stats: Learned,
        pets: Pets,
        key: Seq<char>,
        entity: Seq<char>,
    )
        requires
            !key.contains('|'),
            self.wf(),
            self.active.at.contains_key(key + seq!['|'] + entity),
        ensures
            ({
                let k = key + seq!['|'] + entity;
                let a = self.active.at[k];
                let age = now - a.started_ts;
                let db = if stats.db.at.contains_key(key) {
                    stats.db.at[key].duration_ms
                } else {
                    None
                };
                let past = past_every_stop(age, db, a.p75, a.n);
                let next = self.sweep(now, held, stats, pets);
                let young = |l: Landing| short_of_a_stop(now - l.ts, db, a.p75, a.n);
                &&& spared(a, held) || (!past && !overdue(a, age)) ==> next.active.get(k) == Some(a)
                    && next.open.get(k) == self.open.get(k)
                &&& !spared(a, held) && (past || overdue(a, age)) ==> self.sweep_changes(
                    now,
                    held,
                    stats,
                )
                &&& !spared(a, held) && !past && overdue(a, age) ==> !next.active.at.contains_key(k)
                &&& !spared(a, held) && past && !self.open.at.contains_key(k)
                    ==> !next.active.at.contains_key(k) && !next.open.at.contains_key(k)
                &&& !spared(a, held) && past && self.open.at.contains_key(k) ==> {
                    let left = self.open.at[k].group.landings.filter(young);
                    &&& left.len() == 0 ==> !next.active.at.contains_key(k)
                        && !next.open.at.contains_key(k)
                    &&& left.len() > 0 ==> {
                        &&& next.active.at.contains_key(k) && next.open.at.contains_key(k)
                        &&& next.open.at[k].group.landings == left
                        &&& next.open.at[k] == (Open { group: next.open.at[k].group, ..self.open.at[k] })
                        &&& next.active.at[k].started_ts == left[0].ts
                        &&& next.active.at[k].count == Some(left.len() as int)
                    }
                }
            }),
    {
        let k = key + seq!['|'] + entity;
        instance_key_reads_back(key, entity);
        assert(crate::buffs_shapes::inst_key(key, entity) == k);
        let a = self.active.at[k];
        let age = now - a.started_ts;
        let db = stats.db_duration(key);
        let stop = crate::buffs_instance_rules::long_stop(a, db);
        assert(past_every_stop(age, db, a.p75, a.n) <==> 4 * age > stop);
        assert(Instances::exempt(a, held) == spared(a, held));
        assert(self.active.has(k));
        if Instances::lost(k, a, now, held, stats) && self.open.at.contains_key(k) {
            let o = self.open.at[k];
            let cutoff = Instances::lost_cutoff(k, a, now, stats);
            let young = |l: Landing| short_of_a_stop(now - l.ts, db, a.p75, a.n);
            let p = |l: Landing| l.ts > cutoff;
            assert forall|l: Landing| #[trigger] p(l) == young(l) by {
                assert(young(l) <==> 4 * (now - l.ts) < stop);
                assert(cutoff == (4 * now - stop) / 4);
            }
            assert(p =~= young);
            assert(o.group.drop_expired(cutoff).landings == o.group.landings.filter(young));
        }
    }

    /// A sweep says that it changed something only where some row is neither spared nor within its stops
    /// and its countdown.
    pub proof fn a_sweep_says_when_it_changed(
        self,
        now: i64,
        held: i64,
        stats: Learned,
    )
        ensures
            self.sweep_changes(now, held, stats) <==> exists|k: Seq<char>|
                #[trigger] self.active.at.contains_key(k) && !spared(self.active.at[k], held) && (
                past_every_stop(
                    now - self.active.at[k].started_ts,
                    if stats.db.at.contains_key(spell_part(k)) {
                        stats.db.at[spell_part(k)].duration_ms
                    } else {
                        None
                    },
                    self.active.at[k].p75,
                    self.active.at[k].n,
                ) || overdue(self.active.at[k], now - self.active.at[k].started_ts)),
    {
        assert forall|k: Seq<char>| #[trigger] self.active.at.contains_key(k) implies (
        !spared(self.active.at[k], held) && (past_every_stop(
            now - self.active.at[k].started_ts,
            if stats.db.at.contains_key(spell_part(k)) {
                stats.db.at[spell_part(k)].duration_ms
            } else {
                None
            },
            self.active.at[k].p75,
            self.active.at[k].n,
        ) || overdue(self.active.at[k], now - self.active.at[k].started_ts))) == (self.active.has(k) && (
        Instances::lost(k, self.active.at[k], now, held, stats) || Instances::culled(
            k,
            self.active.at[k],
            now,
            held,
            stats,
        ))) by {
            let a = self.active.at[k];
            let db = stats.db_duration(spell_part(k));
            assert(past_every_stop(now - a.started_ts, db, a.p75, a.n) <==> 4 * (now - a.started_ts)
                > crate::buffs_instance_rules::long_stop(a, db));
        }
        if self.sweep_changes(now, held, stats) {
            let k = choose|k: Seq<char>|
                #[trigger] self.active.has(k) && (Instances::lost(
                    k,
                    self.active.at[k],
                    now,
                    held,
                    stats,
                ) || Instances::culled(k, self.active.at[k], now, held, stats));
            assert(self.active.at.contains_key(k));
        }
    }

    /// A record that no row stands before keeps the landings of the last ninety minutes, and those within
    /// twice the floor of its line as its caster casts it; with none left it goes. It is nothing that is
    /// said.
    pub proof fn an_orphan_is_kept_for_its_retention(
        self,
        now: i64,
        held: i64,
        stats: Learned,
        pets: Pets,
        k: Seq<char>,
    )
        requires
            self.open.at.contains_key(k),
            !self.active.at.contains_key(k),
            self.wf(),
        ensures
            ({
                let o = self.open.at[k];
                let floor = stats.floor(o.spell_key, o.caster);
                let next = self.sweep(now, held, stats, pets);
                let kept = o.group.landings.filter(
                    |l: Landing| now - l.ts < 5_400_000 || (floor is Some && now - l.ts < 2 * floor->0),
                );
                &&& !next.active.at.contains_key(k)
                &&& next.open.at.contains_key(k) <==> kept.len() > 0
                &&& kept.len() > 0 ==> next.open.at[k].group.landings == kept && next.open.at[k]
                    == (Open { group: next.open.at[k].group, ..o })
                &&& next.expired == self.expired
                &&& next.pending == self.pending
            }),
    {
        let o = self.open.at[k];
        let floor = stats.floor(o.spell_key, o.caster);
        let cap = crate::buffs_shapes::learning_record_cap(
            floor,
            crate::buffs_shapes::HYGIENE_ABSOLUTE_MS as int,
        );
        let p = |l: Landing| l.ts > now - cap;
        let q = |l: Landing| now - l.ts < 5_400_000 || (floor is Some && now - l.ts < 2 * floor->0);
        assert(p =~= q);
        assert(o.group.drop_expired(now - cap).landings == o.group.landings.filter(q));
    }
}

// ---- endings ---------------------------------------------------------------------------------

impl Instances {
    /// A fade closes the oldest landing of its instance. With others left, the row counts from the next and
    /// stands for one fewer; with none, row and record go. It measures a span only where no absence
    /// passed, the landing can be measured, and the span is above nought and within four hours; that is
    /// filed under the line and the record's own caster, and nothing else is.
    pub proof fn a_fade_ends_the_oldest_landing(
        self,
        key: Seq<char>,
        entity_key: Seq<char>,
        spell: Seq<char>,
        ts: i64,
        stats: Learned,
        pets: Pets,
        other_key: Seq<char>,
        other: Seq<char>,
    )
        requires
            self.open.at.contains_key(key + seq!['|'] + entity_key),
            self.open.at[key + seq!['|'] + entity_key].group.landings.len() > 0,
        ensures
            ({
                let ik = key + seq!['|'] + entity_key;
                let o = self.open.at[ik];
                let n = o.group.landings.len() as int;
                let span = ts - o.group.landings[0].ts;
                let (next, learned) = self.record_fade(key, entity_key, spell, ts, stats, pets);
                let minted = !o.spanned_gap && !o.group.landings[0].contaminated && 0 < span
                    <= 14_400_000;
                &&& n == 1 ==> !next.open.at.contains_key(ik) && !next.active.at.contains_key(ik)
                &&& n > 1 ==> {
                    &&& next.open.at.contains_key(ik)
                    &&& next.open.at[ik].group.landings == o.group.landings.skip(1)
                    &&& next.open.at[ik] == (Open { group: next.open.at[ik].group, ..o })
                    &&& next.active.at.contains_key(ik) == self.active.at.contains_key(ik)
                    &&& next.active.at.contains_key(ik) ==> next.active.at[ik].started_ts
                        == o.group.landings[1].ts && next.active.at[ik].count == Some(n - 1)
                }
                &&& minted ==> learned.samples_of(key, o.caster) == stats.samples_of(
                    key,
                    o.caster,
                ).push(
                    DurationSample { ms: span as i64, ts, censored: false, death_bound: false },
                )
                &&& !minted ==> learned.samples == stats.samples
                &&& (other_key, other) != (key, o.caster) ==> learned.samples_of(other_key, other)
                    == stats.samples_of(other_key, other)
                &&& learned.last_seen.at.contains_key(key) && learned.last_seen.at[key] >= ts
                &&& learned.db == stats.db && learned.wear_off == stats.wear_off && learned.cast_tiers
                    == stats.cast_tiers && learned.ever_faded == stats.ever_faded
                &&& next.expired == self.expired
                &&& next.pending == self.pending
            }),
    {
        let ik = key + seq!['|'] + entity_key;
        let o = self.open.at[ik];
        crate::buffs_shapes::a_learners_key_is_its_own(key, o.caster, other_key, other);
        assert(o.group.landings.drop_first() =~= o.group.landings.skip(1));
    }

    /// A fade of what was never tracked takes the row, if there is one, and teaches nothing.
    pub proof fn a_fade_of_nothing_tracked_takes_the_row(
        self,
        key: Seq<char>,
        entity_key: Seq<char>,
        spell: Seq<char>,
        ts: i64,
        stats: Learned,
        pets: Pets,
        k: Seq<char>,
    )
        requires
            !self.open.at.contains_key(key + seq!['|'] + entity_key),
        ensures
            ({
                let ik = key + seq!['|'] + entity_key;
                let (next, learned) = self.record_fade(key, entity_key, spell, ts, stats, pets);
                &&& !next.active.at.contains_key(ik)
                &&& k != ik ==> next.active.get(k) == self.active.get(k)
                &&& next.open == self.open
                &&& next.expired == self.expired
                &&& learned == (Learned { last_seen: learned.last_seen, ..stats })
            }),
    {
    }
}

// ---- a wear-off that several lines share -----------------------------------------------------

/// The instance is one of the lines, on the entity.
pub open spec fn is_one_of(k: Seq<char>, lines: Seq<Seq<char>>, entity: Seq<char>) -> bool {
    exists|c: int| 0 <= c < lines.len() && k == #[trigger] lines[c] + seq!['|'] + entity
}

proof fn lemma_is_one_of(k: Seq<char>, lines: Seq<Seq<char>>, entity: Seq<char>)
    requires
        entity.len() > 0,
        forall|c: int| 0 <= c < lines.len() ==> !(#[trigger] lines[c]).contains('|'),
    ensures
        is_one_of(k, lines, entity) <==> entity_part(k) == entity && lines.contains(spell_part(k)),
        is_one_of(k, lines, entity) ==> k == spell_part(k) + seq!['|'] + entity,
{
    if is_one_of(k, lines, entity) {
        let c = choose|c: int| 0 <= c < lines.len() && k == #[trigger] lines[c] + seq!['|'] + entity;
        instance_key_reads_back(lines[c], entity);
    }
    if entity_part(k) == entity && lines.contains(spell_part(k)) {
        if !k.contains('|') {
            crate::buffs_shapes::lemma_no_entity_without_a_bar(k);
        }
        crate::buffs_shapes::an_instance_key_parts_at_its_first_bar(k);
        let c = choose|c: int| 0 <= c < lines.len() && lines[c] == spell_part(k);
        assert(k == lines[c] + seq!['|'] + entity);
    }
}

/// The lines that are live on the entity are those of its rows, in the order the rows stand.
proof fn lemma_matching_is_the_rows(
    order: Seq<Seq<char>>,
    lines: Seq<Seq<char>>,
    entity: Seq<char>,
)
    requires
        entity.len() > 0,
        forall|c: int| 0 <= c < lines.len() ==> !(#[trigger] lines[c]).contains('|'),
        order.no_duplicates(),
    ensures
        Instances::matching(order, lines, entity) == order.filter(
            |k: Seq<char>| is_one_of(k, lines, entity),
        ).map_values(|k: Seq<char>| spell_part(k)),
    decreases order.len(),
{
    reveal(Seq::filter);
    let p = |k: Seq<char>| is_one_of(k, lines, entity);
    let line = |k: Seq<char>| spell_part(k);
    if order.len() == 0 {
        assert(order.filter(p).map_values(line) =~= Seq::empty());
    } else {
        let f = order.drop_last();
        let k = order.last();
        assert(f.no_duplicates()) by {
            assert forall|i: int, j: int| 0 <= i < f.len() && 0 <= j < f.len() && i != j implies f[i]
                != f[j] by {
                assert(order[i] != order[j]);
            }
        }
        lemma_matching_is_the_rows(f, lines, entity);
        lemma_is_one_of(k, lines, entity);
        let front = Instances::matching(f, lines, entity);
        let rows = f.filter(p);
        if p(k) {
            if front.contains(spell_part(k)) {
                let i = choose|i: int| 0 <= i < front.len() && front[i] == spell_part(k);
                let x = rows[i];
                lemma_filtered(f, p);
                assert(rows.contains(x));
                lemma_is_one_of(x, lines, entity);
                assert(x == k);
                let j = choose|j: int| 0 <= j < f.len() && f[j] == x;
                assert(order[j] == order[order.len() - 1]);
                assert(false);
            }
            assert(rows.push(k).map_values(line) =~= rows.map_values(line).push(spell_part(k)));
        }
    }
}

proof fn lemma_filtered(s: Seq<Seq<char>>, p: spec_fn(Seq<char>) -> bool)
    ensures
        forall|k: Seq<char>| #[trigger] s.filter(p).contains(k) <==> s.contains(k) && p(k),
        s.no_duplicates() ==> s.filter(p).no_duplicates(),
    decreases s.len(),
{
    reveal(Seq::filter);
    if s.len() > 0 {
        let f = s.drop_last();
        let r = s.filter(p);
        lemma_filtered(f, p);
        assert(s =~= f.push(s.last()));
        assert forall|k: Seq<char>| #[trigger] r.contains(k) <==> s.contains(k) && p(k) by {
            if r.contains(k) {
                let i = choose|i: int| 0 <= i < r.len() && r[i] == k;
                if i < f.filter(p).len() {
                    assert(f.filter(p)[i] == k);
                    assert(f.filter(p).contains(k));
                    let j = choose|j: int| 0 <= j < f.len() && f[j] == k;
                    assert(s[j] == k);
                } else {
                    assert(s[s.len() - 1] == k);
                }
            }
            if s.contains(k) && p(k) {
                let j = choose|j: int| 0 <= j < s.len() && s[j] == k;
                if j < f.len() {
                    assert(f[j] == k);
                    assert(f.contains(k));
                    assert(f.filter(p).contains(k));
                    let i = choose|i: int| 0 <= i < f.filter(p).len() && f.filter(p)[i] == k;
                    assert(r[i] == k);
                } else {
                    assert(r[r.len() - 1] == k);
                }
            }
        }
        if s.no_duplicates() {
            assert forall|i: int, j: int| 0 <= i < f.len() && 0 <= j < f.len() && i != j implies f[i]
                != f[j] by {
                assert(s[i] != s[j]);
            }
            assert forall|i: int, j: int| 0 <= i < r.len() && 0 <= j < r.len() && i != j implies r[i]
                != r[j] by {
                let n = f.filter(p).len() as int;
                if i < n && j < n {
                    assert(f.filter(p)[i] != f.filter(p)[j]);
                } else {
                    let m = if i < n {
                        i
                    } else {
                        j
                    };
                    assert(f.filter(p).contains(f.filter(p)[m]));
                    assert(f.contains(f.filter(p)[m]));
                    let x = choose|x: int| 0 <= x < f.len() && f[x] == f.filter(p)[m];
                    assert(s[x] != s[s.len() - 1]);
                }
            }
        }
    }
}

impl Instances {
    /// One ending, as far as the other instances go.
    proof fn lemma_one_removed(
        self,
        key: Seq<char>,
        entity: Seq<char>,
        ts: i64,
        stats: Learned,
        pets: Pets,
    )
        ensures
            ({
                let ik = key + seq!['|'] + entity;
                let next = self.remove_authoritative(key, entity, ts, stats, pets).0;
                &&& forall|k: Seq<char>|
                    k != ik ==> #[trigger] next.active.at.contains_key(k)
                        == self.active.at.contains_key(k)
                &&& forall|k: Seq<char>|
                    k != ik && self.active.at.contains_key(k) ==> (#[trigger] next.active.at[k]).spell
                        == self.active.at[k].spell
                &&& forall|k: Seq<char>|
                    k != ik ==> #[trigger] next.open.at.contains_key(k) == self.open.at.contains_key(k)
                &&& forall|k: Seq<char>|
                    k != ik && self.open.at.contains_key(k) ==> #[trigger] next.open.at[k]
                        == self.open.at[k]
                &&& self.active.at.contains_key(ik) ==> (next.active.at.contains_key(ik)
                    <==> self.open.at.contains_key(ik) && self.open.at[ik].group.landings.len() > 1)
                &&& self.active.at.contains_key(ik) ==> next.expired == self.expired.push(
                    Expired { spell: self.active.at[ik].spell, target: pets.display(entity) },
                )
            }),
    {
    }

    proof fn lemma_each_removed(
        self,
        rows: Seq<Seq<char>>,
        entity: Seq<char>,
        ts: i64,
        stats: Learned,
        pets: Pets,
    )
        requires
            rows.no_duplicates(),
            forall|i: int|
                0 <= i < rows.len() ==> self.active.at.contains_key(#[trigger] rows[i]) && rows[i]
                    == spell_part(rows[i]) + seq!['|'] + entity,
        ensures
            ({
                let next = self.remove_each(
                    rows.map_values(|k: Seq<char>| spell_part(k)),
                    entity,
                    ts,
                    stats,
                    pets,
                ).0;
                &&& forall|k: Seq<char>|
                    !rows.contains(k) ==> #[trigger] next.active.at.contains_key(k)
                        == self.active.at.contains_key(k)
                &&& forall|k: Seq<char>|
                    !rows.contains(k) && self.active.at.contains_key(k) ==> (
                    #[trigger] next.active.at[k]).spell == self.active.at[k].spell
                &&& forall|k: Seq<char>|
                    !rows.contains(k) ==> #[trigger] next.open.at.contains_key(k)
                        == self.open.at.contains_key(k)
                &&& forall|k: Seq<char>|
                    !rows.contains(k) && self.open.at.contains_key(k) ==> #[trigger] next.open.at[k]
                        == self.open.at[k]
                &&& forall|k: Seq<char>| #[trigger]
                    rows.contains(k) ==> (next.active.at.contains_key(k) <==> self.open.at.contains_key(k)
                        && self.open.at[k].group.landings.len() > 1)
                &&& next.expired == self.expired + rows.map_values(
                    |k: Seq<char>|
                        Expired { spell: self.active.at[k].spell, target: pets.display(entity) },
                )
            }),
        decreases rows.len(),
    {
        let line = |k: Seq<char>| spell_part(k);
        let say = |k: Seq<char>|
            Expired { spell: self.active.at[k].spell, target: pets.display(entity) };
        let keys = rows.map_values(line);
        if rows.len() == 0 {
            assert(self.expired + rows.map_values(say) =~= self.expired);
        } else {
            let f = rows.drop_last();
            let ik = rows.last();
            assert(ik == rows[rows.len() - 1]);
            assert(keys.drop_last() =~= f.map_values(line));
            assert(keys.last() == spell_part(ik));
            assert forall|i: int| 0 <= i < f.len() implies self.active.at.contains_key(#[trigger] f[i])
                && f[i] == spell_part(f[i]) + seq!['|'] + entity by {
                assert(f[i] == rows[i]);
            }
            assert(f.no_duplicates()) by {
                assert forall|i: int, j: int| 0 <= i < f.len() && 0 <= j < f.len() && i != j implies f[i]
                    != f[j] by {
                    assert(rows[i] != rows[j]);
                }
            }
            self.lemma_each_removed(f, entity, ts, stats, pets);
            let (mid, learned) = self.remove_each(f.map_values(line), entity, ts, stats, pets);
            assert(!f.contains(ik)) by {
                if f.contains(ik) {
                    let j = choose|j: int| 0 <= j < f.len() && f[j] == ik;
                    assert(rows[j] != rows[rows.len() - 1]);
                }
            }
            mid.lemma_one_removed(spell_part(ik), entity, ts, learned, pets);
            assert forall|k: Seq<char>| #[trigger] rows.contains(k) <==> f.contains(k) || k == ik by {
                if rows.contains(k) {
                    let j = choose|j: int| 0 <= j < rows.len() && rows[j] == k;
                    if j < f.len() {
                        assert(f[j] == k);
                    }
                }
                if f.contains(k) {
                    let j = choose|j: int| 0 <= j < f.len() && f[j] == k;
                    assert(rows[j] == k);
                }
            }
            let next = self.remove_each(keys, entity, ts, stats, pets).0;
            assert(mid.active.at.contains_key(ik));
            assert(mid.active.at[ik].spell == self.active.at[ik].spell);
            assert(mid.open.at.contains_key(ik) == self.open.at.contains_key(ik));
            assert(self.open.at.contains_key(ik) ==> mid.open.at[ik] == self.open.at[ik]);
            assert forall|k: Seq<char>| #[trigger] rows.contains(k) implies (next.active.at.contains_key(k)
                <==> self.open.at.contains_key(k) && self.open.at[k].group.landings.len() > 1) by {
                if k != ik {
                    assert(f.contains(k));
                    assert(next.active.at.contains_key(k) == mid.active.at.contains_key(k));
                }
            }
            assert forall|k: Seq<char>| !rows.contains(k) && self.active.at.contains_key(k) implies (
            #[trigger] next.active.at[k]).spell == self.active.at[k].spell by {
                assert(mid.active.at.contains_key(k));
                assert(mid.active.at[k].spell == self.active.at[k].spell);
            }
            assert forall|k: Seq<char>| !rows.contains(k) && self.open.at.contains_key(k) implies
                #[trigger] next.open.at[k] == self.open.at[k] by {
                assert(mid.open.at.contains_key(k));
                assert(mid.open.at[k] == self.open.at[k]);
            }
            assert(next.expired =~= self.expired + rows.map_values(say)) by {
                assert(rows.map_values(say) =~= f.map_values(say).push(say(ik)));
            }
        }
    }

    /// A wear-off that several lines share ends every one of them that is live on the entity. Each is
    /// announced once, under what its row is called and what the entity is called, in the order the rows
    /// stood; its row goes, unless others of that name still hold the spell. No row of another line or on
    /// another entity goes, nor its record, and none is announced.
    pub proof fn a_shared_wear_off_ends_every_live_line(
        self,
        lines: Seq<Seq<char>>,
        entity: Seq<char>,
        ts: i64,
        stats: Learned,
        pets: Pets,
    )
        requires
            self.active.wf(),
            entity.len() > 0,
            forall|c: int| 0 <= c < lines.len() ==> !(#[trigger] lines[c]).contains('|'),
        ensures
            ({
                let rows = self.active.order.filter(|k: Seq<char>| is_one_of(k, lines, entity));
                let next = self.remove_each(
                    Instances::matching(self.active.order, lines, entity),
                    entity,
                    ts,
                    stats,
                    pets,
                ).0;
                &&& next.expired == self.expired + rows.map_values(
                    |k: Seq<char>|
                        Expired { spell: self.active.at[k].spell, target: pets.display(entity) },
                )
                &&& rows.no_duplicates()
                &&& forall|k: Seq<char>| #[trigger]
                    self.active.at.contains_key(k) && is_one_of(k, lines, entity) ==> rows.contains(k) && (
                    next.active.at.contains_key(k) <==> self.open.at.contains_key(k)
                        && self.open.at[k].group.landings.len() > 1)
                &&& forall|k: Seq<char>|
                    !is_one_of(k, lines, entity) ==> #[trigger] next.active.at.contains_key(k)
                        == self.active.at.contains_key(k)
                &&& forall|k: Seq<char>|
                    !is_one_of(k, lines, entity) ==> #[trigger] next.open.get(k) == self.open.get(k)
            }),
    {
        let p = |k: Seq<char>| is_one_of(k, lines, entity);
        let rows = self.active.order.filter(p);
        lemma_matching_is_the_rows(self.active.order, lines, entity);
        lemma_filtered(self.active.order, p);
        assert forall|i: int| 0 <= i < rows.len() implies self.active.at.contains_key(#[trigger] rows[i])
            && rows[i] == spell_part(rows[i]) + seq!['|'] + entity by {
            assert(rows.contains(rows[i]));
            lemma_is_one_of(rows[i], lines, entity);
        }
        self.lemma_each_removed(rows, entity, ts, stats, pets);
        let next = self.remove_each(
            Instances::matching(self.active.order, lines, entity),
            entity,
            ts,
            stats,
            pets,
        ).0;
        assert forall|k: Seq<char>| #[trigger]
            self.active.at.contains_key(k) && is_one_of(k, lines, entity) implies rows.contains(k) && (
        next.active.at.contains_key(k) <==> self.open.at.contains_key(k)
            && self.open.at[k].group.landings.len() > 1) by {
            assert(self.active.order.contains(k));
            assert(rows.contains(k));
        }
        assert forall|k: Seq<char>| !is_one_of(k, lines, entity) implies #[trigger] next.open.get(k)
            == self.open.get(k) by {
            assert(!rows.contains(k));
            assert(next.open.at.contains_key(k) == self.open.at.contains_key(k));
            if self.open.at.contains_key(k) {
                assert(next.open.at[k] == self.open.at[k]);
            }
        }
    }
}

// ---- deaths ----------------------------------------------------------------------------------

/// Every record stands under its own line and entity.
pub open spec fn filed(inst: Instances) -> bool {
    forall|k: Seq<char>| #[trigger]
        inst.open.at.contains_key(k) ==> k == inst.open.at[k].spell_key + seq!['|']
            + inst.open.at[k].entity_key
}

impl Instances {
    #[verifier::rlimit(40)]
    proof fn lemma_deaths(
        self,
        keys: Seq<Seq<char>>,
        entity_key: Seq<char>,
        ts: i64,
        stats: Learned,
        pets: Pets,
        ik: Seq<char>,
    )
        requires
            keys.no_duplicates(),
            filed(self),
            self.open.at.contains_key(ik),
            self.open.at[ik].entity_key == entity_key || self.open.at[ik].entity_key
                == "unknown-hostile"@,
            stats.class(self.open.at[ik].spell_key) == BuffClass::Debuff || self.open.at[ik].disp
                == Disposition::Hostile,
            self.open.at[ik].group.landings.len() > 0,
        ensures
            ({
                let o = self.open.at[ik];
                let (m, l) = self.censor_each(keys, entity_key, ts, stats, pets);
                let before = stats.samples_of(o.spell_key, o.caster);
                let after = l.samples_of(o.spell_key, o.caster);
                &&& forall|k: Seq<char>|
                    !keys.contains(k) ==> #[trigger] m.open.get(k) == self.open.get(k)
                &&& forall|k: Seq<char>|
                    !keys.contains(k) ==> #[trigger] m.active.at.contains_key(k)
                        == self.active.at.contains_key(k)
                &&& l == (Learned { samples: l.samples, ..stats })
                &&& !keys.contains(ik) && o.entity_key == entity_key ==> after == before
                &&& keys.contains(ik) && o.entity_key == entity_key && stats.class(o.spell_key)
                    == BuffClass::Debuff ==> after == (match bound_span(
                    o,
                    entity_key,
                    ts,
                    self.active.at.contains_key(ik),
                    stats,
                ) {
                    Some(ms) => before.push(
                        DurationSample { ms, ts, censored: false, death_bound: true },
                    ),
                    None => before,
                })
                &&& keys.contains(ik) ==> if o.group.landings.len() == 1 {
                    !m.open.at.contains_key(ik) && !m.active.at.contains_key(ik)
                } else {
                    &&& m.open.at.contains_key(ik)
                    &&& m.open.at[ik].group.landings == o.group.landings.skip(1).map_values(
                        |x: Landing| Landing { contaminated: true, ..x },
                    )
                    &&& m.open.at[ik] == (Open { group: m.open.at[ik].group, ..o })
                    &&& m.active.at.contains_key(ik) == self.active.at.contains_key(ik)
                    &&& m.active.at.contains_key(ik) ==> m.active.at[ik].count == Some(
                        o.group.landings.len() - 1,
                    )
                }
            }),
        decreases keys.len(),
    {
        let o = self.open.at[ik];
        if keys.len() > 0 {
            let f = keys.drop_last();
            let k = keys.last();
            assert(k == keys[keys.len() - 1]);
            assert forall|i: int, j: int| 0 <= i < f.len() && 0 <= j < f.len() && i != j implies f[i]
                != f[j] by {
                assert(keys[i] != keys[j]);
            }
            assert(!f.contains(k)) by {
                if f.contains(k) {
                    let j = choose|j: int| 0 <= j < f.len() && f[j] == k;
                    assert(keys[j] != keys[keys.len() - 1]);
                }
            }
            assert forall|x: Seq<char>| #[trigger] keys.contains(x) <==> f.contains(x) || x == k by {
                if keys.contains(x) {
                    let j = choose|j: int| 0 <= j < keys.len() && keys[j] == x;
                    if j < f.len() {
                        assert(f[j] == x);
                    }
                }
                if f.contains(x) {
                    let j = choose|j: int| 0 <= j < f.len() && f[j] == x;
                    assert(keys[j] == x);
                }
            }
            self.lemma_deaths(f, entity_key, ts, stats, pets, ik);
            let (m0, l0) = self.censor_each(f, entity_key, ts, stats, pets);
            let (m, l) = m0.censor_on_death(k, entity_key, ts, l0, pets);
            assert((m, l) == self.censor_each(keys, entity_key, ts, stats, pets));
            assert(m0.open.get(k) == self.open.get(k));
            assert(m0.active.at.contains_key(k) == self.active.at.contains_key(k));
            if k == ik {
                assert(m0.open.at[ik] == o);
                if o.entity_key == entity_key {
                    assert(l0.estimate(o.spell_key, o.caster) == stats.estimate(
                        o.spell_key,
                        o.caster,
                    ));
                }
                assert(l0.class(o.spell_key) == stats.class(o.spell_key));
                let left = o.group.contaminate_all().close_oldest();
                assert(left.landings =~= o.group.landings.skip(1).map_values(
                    |x: Landing| Landing { contaminated: true, ..x },
                ));
            } else if self.open.at.contains_key(k) {
                let ok = self.open.at[k];
                if ok.entity_key == entity_key && o.entity_key == entity_key {
                    assert(ok.spell_key != o.spell_key);
                }
                crate::buffs_shapes::a_learners_key_is_its_own(
                    ok.spell_key,
                    ok.caster,
                    o.spell_key,
                    o.caster,
                );
            }
            assert forall|x: Seq<char>| !keys.contains(x) implies #[trigger] m.open.get(x)
                == self.open.get(x) by {
                assert(m0.open.get(x) == self.open.get(x));
            }
            assert forall|x: Seq<char>| !keys.contains(x) implies #[trigger] m.active.at.contains_key(x)
                == self.active.at.contains_key(x) by {
                assert(m0.active.at.contains_key(x) == self.active.at.contains_key(x));
            }
        }
    }

    /// A death of an entity that a debuff is on teaches what the corpse's span allows, as the newest sample
    /// of the line and of the caster whose cast it was, and of no cycle. It closes the oldest landing: the
    /// only one takes its row and its record with it, and of several the others stay, their clocks as they
    /// were, and can no longer be measured. Nothing else that was learned moves.
    pub proof fn a_death_closes_and_teaches(
        self,
        entity_key: Seq<char>,
        ts: i64,
        stats: Learned,
        pets: Pets,
        key: Seq<char>,
    )
        requires
            filed(self),
            self.open.wf(),
            self.open.at.contains_key(key + seq!['|'] + entity_key),
            ({
                let o = self.open.at[key + seq!['|'] + entity_key];
                o.spell_key == key && o.entity_key == entity_key && o.group.landings.len() > 0
            }),
            stats.db.at.contains_key(key) && stats.db.at[key].nature == Nature::Detrimental,
        ensures
            ({
                let ik = key + seq!['|'] + entity_key;
                let o = self.open.at[ik];
                let n = o.group.landings.len() as int;
                let (next, learned) = self.entity_death(entity_key, ts, stats, pets);
                let taught = bound_span(o, entity_key, ts, self.active.at.contains_key(ik), stats);
                let before = stats.samples_of(key, o.caster);
                let after = learned.samples_of(key, o.caster);
                &&& taught matches Some(ms) ==> after == before.push(
                    DurationSample { ms, ts, censored: false, death_bound: true },
                )
                &&& taught is None ==> after == before
                &&& learned == (Learned { samples: learned.samples, ..stats })
                &&& n == 1 ==> !next.open.at.contains_key(ik) && !next.active.at.contains_key(ik)
                &&& n > 1 ==> {
                    &&& next.open.at.contains_key(ik)
                    &&& next.open.at[ik].group.landings.len() == n - 1
                    &&& forall|i: int|
                        0 <= i < n - 1 ==> (#[trigger] next.open.at[ik].group.landings[i]).contaminated
                            && next.open.at[ik].group.landings[i].ts == o.group.landings[i + 1].ts
                    &&& next.active.at.contains_key(ik) == self.active.at.contains_key(ik)
                    &&& next.active.at.contains_key(ik) ==> next.active.at[ik].count == Some(n - 1)
                }
            }),
    {
        let ik = key + seq!['|'] + entity_key;
        self.lemma_deaths(self.open.order, entity_key, ts, stats, pets, ik);
        assert(self.open.order.contains(ik));
    }

    /// What a corpse teaches above the estimate of a line that no clean cycle was measured of becomes the
    /// estimate, as a death bound.
    pub proof fn a_corpse_raises_the_estimate(
        self,
        entity_key: Seq<char>,
        ts: i64,
        stats: Learned,
        pets: Pets,
        key: Seq<char>,
    )
        requires
            filed(self),
            self.open.wf(),
            self.open.at.contains_key(key + seq!['|'] + entity_key),
            ({
                let o = self.open.at[key + seq!['|'] + entity_key];
                &&& o.spell_key == key && o.entity_key == entity_key && o.group.landings.len() == 1
                &&& bound_span(
                    o,
                    entity_key,
                    ts,
                    self.active.at.contains_key(key + seq!['|'] + entity_key),
                    stats,
                ) is Some
                &&& forall|i: int|
                    0 <= i < stats.samples_of(key, o.caster).len() ==> (#[trigger] stats.samples_of(
                        key,
                        o.caster,
                    )[i]).censored || stats.samples_of(key, o.caster)[i].death_bound
            }),
            stats.db.at.contains_key(key) && stats.db.at[key].nature == Nature::Detrimental,
        ensures
            ({
                let o = self.open.at[key + seq!['|'] + entity_key];
                let learned = self.entity_death(entity_key, ts, stats, pets).1;
                let e = learned.estimate(key, o.caster);
                &&& e.ms matches Some(ms) && ms == ts - o.group.landings[0].ts
                &&& e.source == Some(EstimatorSource::DeathBound)
            }),
    {
        let ik = key + seq!['|'] + entity_key;
        let o = self.open.at[ik];
        self.a_death_closes_and_teaches(entity_key, ts, stats, pets, key);
        let learned = self.entity_death(entity_key, ts, stats, pets).1;
        let taught = bound_span(o, entity_key, ts, self.active.at.contains_key(ik), stats);
        let x = DurationSample { ms: taught->0, ts, censored: false, death_bound: true };
        a_corpse_teaches_its_span(o, entity_key, ts, self.active.at.contains_key(ik), stats);
        stats.the_estimate_is_the_better_of_the_two(key, o.caster);
        learned.the_estimate_is_the_better_of_the_two(key, o.caster);
        lemma_a_higher_bound_is_observed(stats.samples_of(key, o.caster), x);
        crate::learner_laws::what_is_observed_is_the_longest_in_view(stats.samples_of(key, o.caster));
    }
}

/// A death bound above all that was observed of a line without clean cycles is what is observed of it.
proof fn lemma_a_higher_bound_is_observed(s: Seq<DurationSample>, x: DurationSample)
    requires
        x.death_bound,
        forall|i: int| 0 <= i < s.len() ==> (#[trigger] s[i]).censored || s[i].death_bound,
        observed(s) matches Some(o) ==> o.ms < x.ms,
    ensures
        observed(s.push(x)) matches Some(o) && o.ms == x.ms && o.bound,
        of_class(s, false).len() == 0,
        of_class(s.push(x), false).len() == 0,
{
    let t = s.push(x);
    crate::learner_laws::what_is_observed_is_the_longest_in_view(s);
    crate::learner_laws::what_is_observed_is_the_longest_in_view(t);
    lemma_no_clean(s);
    assert forall|i: int| 0 <= i < t.len() implies (#[trigger] t[i]).censored || t[i].death_bound by {
        if i < s.len() {
            assert(s[i] == t[i]);
        }
    }
    lemma_no_clean(t);
    let b = of_class(s, true);
    let c = of_class(t, true);
    assert(c == b.push(x)) by {
        reveal(Seq::filter);
        assert(t.drop_last() =~= s);
    }
    let o = observed(t)->0;
    let (w, v) = (last_five(c), last_five(b));
    assert(w[w.len() - 1] == x);
    let shift: int = if b.len() < 5 {
        0
    } else {
        1
    };
    assert forall|i: int| 0 <= i < w.len() - 1 implies #[trigger] w[i] == v[i + shift] by {}
    assert forall|i: int| 0 <= i < w.len() - 1 implies (#[trigger] w[i]).ms < x.ms by {
        assert(v[i + shift].ms <= observed(s)->0.ms);
    }
}

proof fn lemma_no_clean(s: Seq<DurationSample>)
    requires
        forall|i: int| 0 <= i < s.len() ==> (#[trigger] s[i]).censored || s[i].death_bound,
    ensures
        of_class(s, false).len() == 0,
    decreases s.len(),
{
    reveal(Seq::filter);
    if s.len() > 0 {
        assert forall|i: int| 0 <= i < s.drop_last().len() implies (
        #[trigger] s.drop_last()[i]).censored || s.drop_last()[i].death_bound by {
            assert(s[i] == s.drop_last()[i]);
        }
        lemma_no_clean(s.drop_last());
        assert(s.last() == s[s.len() - 1]);
    }
}

impl Instances {
    /// A death reaches every record on an enemy of the name that died, and on the hostile that nothing
    /// named: a debuff whatever it stands on, and anything on a hostile. Each loses its oldest landing.
    pub proof fn a_death_reaches_what_is_on_the_enemy(
        self,
        entity_key: Seq<char>,
        ts: i64,
        stats: Learned,
        pets: Pets,
        ik: Seq<char>,
    )
        requires
            filed(self),
            self.open.wf(),
            self.open.at.contains_key(ik),
            self.open.at[ik].group.landings.len() > 0,
        ensures
            ({
                let o = self.open.at[ik];
                let n = o.group.landings.len() as int;
                let debuff = stats.db.at.contains_key(o.spell_key) && stats.db.at[o.spell_key].nature
                    == Nature::Detrimental;
                let reached = (debuff || o.disp == Disposition::Hostile) && (o.entity_key == entity_key
                    || o.entity_key == "unknown-hostile"@);
                let next = self.entity_death(entity_key, ts, stats, pets).0;
                &&& reached && n == 1 ==> !next.open.at.contains_key(ik)
                    && !next.active.at.contains_key(ik)
                &&& reached && n > 1 ==> next.open.at.contains_key(ik)
                    && next.open.at[ik].group.landings.len() == n - 1 && forall|i: int|
                    0 <= i < n - 1 ==> (#[trigger] next.open.at[ik].group.landings[i]).contaminated
                        && next.open.at[ik].group.landings[i].ts == o.group.landings[i + 1].ts
                &&& !reached ==> next.open.get(ik) == Some(o)
            }),
    {
        let o = self.open.at[ik];
        let debuff = stats.class(o.spell_key) == BuffClass::Debuff;
        if (debuff || o.disp == Disposition::Hostile) && (o.entity_key == entity_key || o.entity_key
            == "unknown-hostile"@) {
            self.lemma_deaths(self.open.order, entity_key, ts, stats, pets, ik);
            assert(self.open.order.contains(ik));
        } else {
            self.lemma_out_of_reach(self.open.order, entity_key, ts, stats, pets, ik);
        }
    }

    proof fn lemma_out_of_reach(
        self,
        keys: Seq<Seq<char>>,
        entity_key: Seq<char>,
        ts: i64,
        stats: Learned,
        pets: Pets,
        ik: Seq<char>,
    )
        requires
            self.open.at.contains_key(ik),
            !((stats.class(self.open.at[ik].spell_key) == BuffClass::Debuff || self.open.at[ik].disp
                == Disposition::Hostile) && (self.open.at[ik].entity_key == entity_key
                || self.open.at[ik].entity_key == "unknown-hostile"@)),
        ensures
            ({
                let (m, l) = self.censor_each(keys, entity_key, ts, stats, pets);
                m.open.get(ik) == self.open.get(ik) && l.db == stats.db
            }),
        decreases keys.len(),
    {
        if keys.len() > 0 {
            self.lemma_out_of_reach(keys.drop_last(), entity_key, ts, stats, pets, ik);
        }
    }

    proof fn lemma_row_without_a_record(
        self,
        keys: Seq<Seq<char>>,
        entity_key: Seq<char>,
        ts: i64,
        stats: Learned,
        pets: Pets,
        k: Seq<char>,
    )
        requires
            !self.open.at.contains_key(k),
            self.active.at.contains_key(k),
        ensures
            ({
                let (m, l) = self.censor_each(keys, entity_key, ts, stats, pets);
                &&& !m.open.at.contains_key(k)
                &&& m.active.at.contains_key(k)
                &&& m.active.at[k].cls == self.active.at[k].cls || m.active.at[k].cls == stats.class(
                    spell_part(k),
                )
                &&& m.active.at[k].inferred_target == self.active.at[k].inferred_target || (
                m.active.at[k].inferred_target == Some(true) <==> entity_part(k) == "unknown-hostile"@)
                &&& l.db == stats.db
            }),
        decreases keys.len(),
    {
        if keys.len() > 0 {
            self.lemma_row_without_a_record(keys.drop_last(), entity_key, ts, stats, pets, k);
        }
    }

    /// A death takes a debuff's row on the name that died, and on the hostile that nothing named, though no
    /// record stands behind it; a row on another name, whose target was not guessed, stays.
    pub proof fn a_death_clears_the_rows_on_its_name(
        self,
        entity_key: Seq<char>,
        ts: i64,
        stats: Learned,
        pets: Pets,
        key: Seq<char>,
        entity: Seq<char>,
    )
        requires
            !key.contains('|'),
            self.active.at.contains_key(key + seq!['|'] + entity),
            !self.open.at.contains_key(key + seq!['|'] + entity),
        ensures
            ({
                let k = key + seq!['|'] + entity;
                let a = self.active.at[k];
                let debuff = a.cls == BuffClass::Debuff && stats.db.at.contains_key(key)
                    && stats.db.at[key].nature == Nature::Detrimental;
                let next = self.entity_death(entity_key, ts, stats, pets).0;
                &&& debuff && (entity == entity_key || entity == "unknown-hostile"@)
                    ==> !next.active.at.contains_key(k)
                &&& entity != entity_key && entity != "unknown-hostile"@ && a.inferred_target != Some(
                    true,
                ) ==> next.active.at.contains_key(k)
            }),
    {
        let k = key + seq!['|'] + entity;
        instance_key_reads_back(key, entity);
        assert(crate::buffs_shapes::inst_key(key, entity) == k);
        self.lemma_row_without_a_record(self.open.order, entity_key, ts, stats, pets, k);
    }

    /// The player's death strips what is on the player and nothing else: a cast in flight is dropped when
    /// it was at the player. Nothing is said.
    pub proof fn a_players_death_strips_the_player(self, stats: Learned, pets: Pets, k: Seq<char>)
        ensures
            ({
                let next = self.player_death(stats, pets);
                &&& next.open.get(k) == (if self.open.at.contains_key(k) && self.open.at[k].entity_key
                    != "self"@ {
                    Some(self.open.at[k])
                } else {
                    None
                })
                &&& next.active.get(k) == (if self.active.at.contains_key(k)
                    && !self.active.at[k].is_self {
                    Some(self.active.at[k])
                } else {
                    None
                })
                &&& next.expired == self.expired
                &&& next.pending is None || next.pending == self.pending
                &&& self.pending matches Some(p) ==> (next.pending is None <==> p.emote_subject_key == Some(
                    "self"@,
                ) || (p.emote_subject_key is None && !(stats.db.at.contains_key(p.key)
                    && stats.db.at[p.key].nature == Nature::Detrimental) && pets.charmed_key is None
                    && pets.summoned_key is None))
            }),
    {
    }

    /// A zone keeps what is on the player and on a summoned pet, and of rows the buffs alone; whatever
    /// stands on a charmed pet or a hostile is left behind. A cast in flight is dropped when it was at one
    /// of those; a charmed pet is none any more. Nothing is said.
    pub proof fn a_zone_leaves_enemies_behind(self, stats: Learned, pets: Pets, k: Seq<char>)
        ensures
            ({
                let next = self.zone(stats, pets);
                &&& next.open.get(k) == (if self.open.at.contains_key(k) && (self.open.at[k].disp
                    == Disposition::Zelf || self.open.at[k].disp == Disposition::Summoned) {
                    Some(self.open.at[k])
                } else {
                    None
                })
                &&& next.active.get(k) == (if self.active.at.contains_key(k) && self.active.at[k].cls
                    == BuffClass::Buff && self.active.at[k].disposition != Some(Disposition::Charmed)
                    && self.active.at[k].disposition != Some(Disposition::Hostile) {
                    Some(self.active.at[k])
                } else {
                    None
                })
                &&& next.expired == self.expired
                &&& next.pending is None || next.pending == self.pending
                &&& self.pending matches Some(p) ==> (next.pending is None <==> if p.emote_subject_key
                    is Some {
                    p.emote_subject_key != Some("self"@) && pets.summoned_key is None
                } else {
                    stats.db.at.contains_key(p.key) && stats.db.at[p.key].nature == Nature::Detrimental
                })
            }),
    {
    }

    /// An entity that is gone takes its records and its rows along, and nothing else goes.
    pub proof fn a_retired_entity_takes_its_own(self, entity: Seq<char>, key: Seq<char>, e: Seq<char>)
        requires
            !key.contains('|'),
        ensures
            ({
                let k = key + seq!['|'] + e;
                let next = self.retire_entity(entity);
                &&& next.active.get(k) == (if e == entity {
                    None
                } else {
                    self.active.get(k)
                })
                &&& self.open.at.contains_key(k) ==> next.open.get(k) == (if self.open.at[k].entity_key
                    == entity {
                    None
                } else {
                    Some(self.open.at[k])
                })
                &&& !self.open.at.contains_key(k) ==> !next.open.at.contains_key(k)
                &&& next.expired == self.expired
                &&& next.pending == self.pending
            }),
    {
        instance_key_reads_back(key, e);
        assert(crate::buffs_shapes::inst_key(key, e) == key + seq!['|'] + e);
    }

    /// A hole that nothing explains drops what began before it, and what began after it stays.
    pub proof fn a_hole_drops_what_began_before(self, ts: i64, k: Seq<char>)
        ensures
            ({
                let next = self.drop_predating(ts);
                &&& next.active.get(k) == (if self.active.at.contains_key(k)
                    && self.active.at[k].started_ts > ts {
                    Some(self.active.at[k])
                } else {
                    None
                })
                &&& next.open.get(k) == (if self.open.at.contains_key(k)
                    && self.open.at[k].group.landings[0].ts > ts {
                    Some(self.open.at[k])
                } else {
                    None
                })
                &&& self.pending matches Some(p) ==> next.pending == (if p.began_ts > ts {
                    Some(p)
                } else {
                    None
                })
                &&& self.pending is None ==> next.pending is None
                &&& next.expired == self.expired
            }),
    {
    }

    /// An absence bars every record that it passed over from being measured, and moves the clocks of those
    /// that are no debuffs; a row follows its record, and a buff's row without one moves by the absence
    /// itself. A cast in flight never completed. Nothing comes or goes, and no time away is no absence.
    pub proof fn an_absence_pauses_buffs_and_not_debuffs(
        self,
        from_ts: i64,
        offline_ms: i64,
        stats: Learned,
        pets: Pets,
        k: Seq<char>,
    )
        ensures
            ({
                let next = self.offline_pause(from_ts, offline_ms, stats, pets);
                let o = self.open.at[k];
                let a = self.active.at[k];
                let reached = self.open.at.contains_key(k) && o.group.landings[0].ts <= from_ts;
                let debuff = stats.db.at.contains_key(o.spell_key) && stats.db.at[o.spell_key].nature
                    == Nature::Detrimental;
                &&& offline_ms <= 0 ==> next == self
                &&& offline_ms > 0 ==> {
                    &&& next.pending is None
                    &&& next.expired == self.expired
                    &&& next.open.at.contains_key(k) == self.open.at.contains_key(k)
                    &&& next.active.at.contains_key(k) == self.active.at.contains_key(k)
                    &&& self.open.at.contains_key(k) && !reached ==> next.open.at[k] == o
                    &&& reached ==> next.open.at[k].spanned_gap && next.open.at[k].group == (if debuff {
                        o.group
                    } else {
                        o.group.shift_by(offline_ms, from_ts)
                    }) && next.open.at[k] == (Open {
                        spanned_gap: true,
                        group: next.open.at[k].group,
                        ..o
                    })
                    &&& self.active.at.contains_key(k) && reached && !debuff
                        ==> next.active.at[k].started_ts == next.open.at[k].group.landings[0].ts
                        && next.active.at[k].caster == Some(o.caster)
                    &&& self.active.at.contains_key(k) && self.open.at.contains_key(k) && (!reached
                        || debuff) ==> next.active.at[k] == a
                    &&& self.active.at.contains_key(k) && !self.open.at.contains_key(k) ==> {
                        &&& a.cls == BuffClass::Debuff || a.started_ts > from_ts ==> next.active.at[k]
                            == a
                        &&& a.cls != BuffClass::Debuff && a.started_ts <= from_ts && a.started_ts
                            + offline_ms <= i64::MAX ==> next.active.at[k].started_ts == a.started_ts
                            + offline_ms && next.active.at[k] == (Active {
                            started_ts: next.active.at[k].started_ts,
                            ..a
                        })
                    }
                }
            }),
    {
    }

    /// The player's own illusions go, rows and records, each announced under what its row is called, in the
    /// order they stood; nothing else goes, and nothing else is said.
    pub proof fn the_players_illusions_go(
        self,
        stats: Learned,
        key: Seq<char>,
        entity: Seq<char>,
    )
        requires
            !key.contains('|'),
            self.active.wf(),
        ensures
            ({
                let k = key + seq!['|'] + entity;
                let goes = self.active.at.contains_key(k) && self.active.at[k].is_self
                    && stats.db.at.contains_key(key) && stats.db.at[key].illusion;
                let next = self.clear_self_illusion(stats);
                let said = next.expired.skip(self.expired.len() as int);
                &&& goes ==> !next.active.at.contains_key(k) && !next.open.at.contains_key(k)
                    && said.contains(Expired { spell: self.active.at[k].spell, target: "self"@ })
                &&& !goes ==> next.active.get(k) == self.active.get(k) && next.open.get(k)
                    == self.open.get(k)
                &&& self.expired.len() <= next.expired.len()
                &&& next.expired.take(self.expired.len() as int) == self.expired
                &&& next.pending == self.pending
            }),
    {
        let k = key + seq!['|'] + entity;
        instance_key_reads_back(key, entity);
        assert(crate::buffs_shapes::inst_key(key, entity) == k);
        let p = |x: Seq<char>| self.own_illusion(x, stats);
        let say = |x: Seq<char>| Expired { spell: self.active.at[x].spell, target: "self"@ };
        let rows = self.active.order.filter(p);
        let next = self.clear_self_illusion(stats);
        assert(next.expired == self.expired + rows.map_values(say));
        assert(next.expired.take(self.expired.len() as int) =~= self.expired);
        assert(next.expired.skip(self.expired.len() as int) =~= rows.map_values(say));
        lemma_filtered(self.active.order, p);
        if p(k) {
            assert(self.active.order.contains(k));
            assert(rows.contains(k));
            let i = choose|i: int| 0 <= i < rows.len() && rows[i] == k;
            assert(rows.map_values(say)[i] == say(k));
        }
    }

    /// As many are announced as go, in the order they stood.
    pub proof fn illusions_are_announced_in_order(self, stats: Learned)
        ensures
            ({
                let next = self.clear_self_illusion(stats);
                next.expired == self.expired + self.active.order.filter(
                    |k: Seq<char>|
                        self.active.at.contains_key(k) && self.active.at[k].is_self
                            && stats.db.at.contains_key(spell_part(k))
                            && stats.db.at[spell_part(k)].illusion,
                ).map_values(
                    |k: Seq<char>| Expired { spell: self.active.at[k].spell, target: "self"@ },
                )
            }),
    {
        let p = |k: Seq<char>| self.own_illusion(k, stats);
        let q = |k: Seq<char>|
            self.active.at.contains_key(k) && self.active.at[k].is_self && stats.db.at.contains_key(
                spell_part(k),
            ) && stats.db.at[spell_part(k)].illusion;
        assert(p =~= q);
    }

    /// A sample that is learned shows at once: every live row of its line counts down from the estimate
    /// that now stands for its own caster, and no row of another line moves.
    pub proof fn a_sample_shows_on_every_row_of_its_line(
        self,
        key: Seq<char>,
        caster: Seq<char>,
        spell: Seq<char>,
        sample: DurationSample,
        stats: Learned,
        pets: Pets,
        line: Seq<char>,
        entity: Seq<char>,
    )
        requires
            !line.contains('|'),
            self.active.at.contains_key(line + seq!['|'] + entity),
        ensures
            ({
                let k = line + seq!['|'] + entity;
                let a = self.active.at[k];
                let (next, learned) = self.add_sample(key, caster, spell, sample, stats, pets);
                let b = next.active.at[k];
                let whose = if a.caster is Some {
                    a.caster->0
                } else {
                    "self"@
                };
                &&& learned.samples_of(key, caster) == stats.samples_of(key, caster).push(sample)
                &&& next.open == self.open && next.expired == self.expired && next.pending
                    == self.pending
                &&& next.active.at.contains_key(k)
                &&& line != key ==> b == a
                &&& line == key ==> {
                    &&& a.permanent != Some(true) ==> b.overlay_duration_ms == learned.estimate(
                        key,
                        whose,
                    ).ms && b.overlay_source == learned.estimate(key, whose).source
                    &&& b.started_ts == a.started_ts && b.spell == a.spell && b.cast_name == a.cast_name
                        && b.candidates == a.candidates
                    &&& b.count == Some(
                        if self.open.at.contains_key(k) {
                            self.open.at[k].group.landings.len() as int
                        } else if a.count is Some {
                            a.count->0
                        } else {
                            1
                        },
                    )
                }
            }),
    {
        instance_key_reads_back(line, entity);
        assert(crate::buffs_shapes::inst_key(line, entity) == line + seq!['|'] + entity);
    }

    /// An authoritative ending is announced under what the row is called, or, without a row, what the line
    /// was last called for the caster whose record it is, and under what the entity is called; its line is
    /// noted as one that ends.
    pub proof fn an_ending_is_announced(
        self,
        key: Seq<char>,
        entity: Seq<char>,
        ts: i64,
        stats: Learned,
        pets: Pets,
    )
        ensures
            ({
                let ik = key + seq!['|'] + entity;
                let (next, learned) = self.remove_authoritative(key, entity, ts, stats, pets);
                let n = self.expired.len() as int;
                &&& next.expired.len() == n + 1
                &&& next.expired.take(n) == self.expired
                &&& next.expired[n].target == pets.display(entity)
                &&& self.active.at.contains_key(ik) ==> next.expired[n].spell == self.active.at[ik].spell
                &&& learned.ever_faded.contains(key)
            }),
    {
        let next = self.remove_authoritative(key, entity, ts, stats, pets).0;
        assert(next.expired.take(self.expired.len() as int) =~= self.expired);
        let s1 = stats.note_ever_faded(key);
        if !stats.ever_faded.contains(key) {
            assert(s1.ever_faded[stats.ever_faded.len() as int] == key);
        }
    }
}

impl Pets {
    /// A name is shown as it was last printed, and as its key where it never was; a charmed pet and a
    /// summoned one are told from the rest; an entity that is gone is nobody's pet, and a zone parts the
    /// player from a charmed one alone.
    pub proof fn a_pet_is_who_holds_the_slot(self, key: Seq<char>, name: Seq<char>, other: Seq<char>)
        ensures
            self.named(key, name).display(key) == name,
            other != key ==> self.named(key, name).display(other) == self.display(other),
            !self.named_entity_display.at.contains_key(other) ==> self.display(other) == other,
            self.named(key, name).charmed_key == self.charmed_key,
            self.named(key, name).summoned_key == self.summoned_key,
            self.disp_of_key(key) == Disposition::Charmed <==> self.charmed_key == Some(key),
            self.disp_of_key(key) == Disposition::Summoned <==> self.charmed_key != Some(key)
                && self.summoned_key == Some(key),
            self.disp_of_key(key) == Disposition::Hostile <==> self.charmed_key != Some(key)
                && self.summoned_key != Some(key),
            self.disp_of_name(name) == self.disp_of_key(lower(trimmed(name))),
            self.retire_slots(key).charmed_key == (if self.charmed_key == Some(key) {
                None
            } else {
                self.charmed_key
            }),
            self.retire_slots(key).summoned_key == (if self.summoned_key == Some(key) {
                None
            } else {
                self.summoned_key
            }),
            self.clear_on_zone().charmed_key is None,
            self.clear_on_zone().summoned_key == self.summoned_key,
            self.clear_on_zone().named_entity_display == self.named_entity_display,
    {
    }
}

} // verus!
