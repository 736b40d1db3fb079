//! The buff-INSTANCE store: the single pending cast, the landed-and-open casts awaiting their fade,
//! and the currently-active instances, with every mutation of them. Landing, fade pairing (the
//! duration sample), the censoring paths (death, zone, log hole, hygiene, entity retirement), and the
//! offline PAUSE, which is not a censor at all but the one place a live clock is rewound.
//!
//! It knows nothing about log events. The maps keep the order their keys came in, and that order is
//! published: it decides the order of the samples pushed and of the expiries handed back.
use crate::buff_rounds::{Group, HoldGroup};
use crate::buffs_entities::{PetEntities, Pets};
use crate::buffs_instance_rules::{
    bound_span, censors_active, censors_open, death_bound_span, death_censors_active,
    death_censors_open, hygiene_cap, landing_is_permanent, left_behind, long_stop, never_expires,
    open_left_behind_on_zone, overdue_after, reap_orphaned_open, reaped, unwitnessed_cull_cap,
    InFlight, Open, OpenCast, Pending,
};
use crate::buffs_shapes::{
    entity_part, id_key, inst_key, instance_entity_key, instance_key, instance_spell_key, line_of,
    name_key, spell_key, spell_part, BuffClass, Disposition, DurationSample, LAND_TIMEOUT_MS,
    MAX_SAMPLE_MS, SELF_CASTER, SELF_KEY,
};
use crate::buffs_stats::{a_death_bound_is_no_cycle, clean_window, cycles, Learned, SpellStats};
use crate::buffs_view::{
    build_active, copy_opt_list, opt_texts, Active, ActiveBuff, ActiveSpec, RowSpec,
};
use crate::jsmap::{Dict, JsMap};
use crate::text::{copy_opt, lists, opt_text, same, texts};
use vstd::prelude::*;

verus! {

/// Everything a LANDING states about itself.
pub struct LandingSpec {
    pub target: String,
    pub ts: i64,
    pub illusion: bool,
    pub duration_ms: Option<i64>,
    /// 'self' or an allowlisted external: the learner's second key.
    pub caster: Option<String>,
    /// The spell LINE key this instance is identified by, when it differs from what the row is
    /// named.
    pub line_key: Option<String>,
    /// The ranked text the cast line spelled, when it is not simply the spell's own name. Display
    /// only.
    pub cast_name: Option<String>,
    /// The spells this landing sentence could be, when it is a FAMILY the anchor could not narrow.
    /// Present means that the row mints nothing.
    pub candidates: Option<Vec<String>>,
    pub permanent_illusion_owned_ts: Option<i64>,
}

/// What a [`LandingSpec`] states.
#[verifier::ext_equal]
pub struct Landed {
    pub target: Seq<char>,
    pub ts: i64,
    pub illusion: bool,
    pub duration_ms: Option<i64>,
    pub caster: Option<Seq<char>>,
    pub line_key: Option<Seq<char>>,
    pub cast_name: Option<Seq<char>>,
    pub candidates: Option<Seq<Seq<char>>>,
    pub permanent_illusion_owned_ts: Option<i64>,
}

impl View for LandingSpec {
    type V = Landed;

    open spec fn view(&self) -> Landed {
        Landed {
            target: self.target@,
            ts: self.ts,
            illusion: self.illusion,
            duration_ms: self.duration_ms,
            caster: opt_text(self.caster),
            line_key: opt_text(self.line_key),
            cast_name: opt_text(self.cast_name),
            candidates: opt_texts(self.candidates),
            permanent_illusion_owned_ts: self.permanent_illusion_owned_ts,
        }
    }
}

/// A resolved expiry the module above is to announce.
pub struct Expiry {
    pub spell: String,
    pub target: String,
}

/// What an [`Expiry`] states.
#[verifier::ext_equal]
pub struct Expired {
    pub spell: Seq<char>,
    pub target: Seq<char>,
}

impl View for Expiry {
    type V = Expired;

    open spec fn view(&self) -> Expired {
        Expired { spell: self.spell@, target: self.target@ }
    }
}

/// The pending cast, the open casts, the live rows, and the expiries not yet announced.
pub struct BuffInstances {
    /// The single cast currently in flight, or none.
    pub pending: Option<Pending>,
    /// Landed casts awaiting their fade, keyed by INSTANCE key.
    pub open: JsMap<OpenCast>,
    /// Currently-active buff instances, keyed by INSTANCE key.
    pub active: JsMap<ActiveBuff>,
    /// Resolved expiries produced while folding the current event, in emission order.
    pub expired: Vec<Expiry>,
}

/// What a [`BuffInstances`] holds.
#[verifier::ext_equal]
pub struct Instances {
    pub pending: Option<InFlight>,
    pub open: Dict<Open>,
    pub active: Dict<Active>,
    pub expired: Seq<Expired>,
}

pub open spec fn opt_pending(p: Option<Pending>) -> Option<InFlight> {
    match p {
        Some(x) => Some(x@),
        None => None,
    }
}

pub open spec fn expiries(v: Seq<Expiry>) -> Seq<Expired> {
    v.map_values(|e: Expiry| e@)
}

impl View for BuffInstances {
    type V = Instances;

    open spec fn view(&self) -> Instances {
        Instances {
            pending: opt_pending(self.pending),
            open: self.open@,
            active: self.active@,
            expired: expiries(self.expired@),
        }
    }
}

/// The spec for re-projecting a row that is already live: everything the instance IS, carried forward
/// from the row being replaced, with only the coordinates a re-projection restates supplied anew.
pub open spec fn carried(
    a: Active,
    key: Seq<char>,
    entity_key: Seq<char>,
    started_ts: i64,
    caster: Seq<char>,
    count: int,
) -> RowSpec {
    RowSpec {
        spell: a.spell,
        cast_name: a.cast_name,
        key,
        entity_key,
        started_ts,
        disp_override: a.disposition,
        caster: Some(caster),
        count: Some(count),
        candidates: a.candidates,
        message_driven: a.message_driven == Some(true),
        permanent: a.permanent == Some(true),
    }
}

pub open spec fn or_self(caster: Option<Seq<char>>) -> Seq<char> {
    match caster {
        Some(c) => c,
        None => SELF_CASTER@,
    }
}

/// The row of a record, re-projected from what the record holds now.
pub open spec fn restated(a: Active, o: Open, stats: Learned, pets: Pets) -> Active {
    carried(
        a,
        o.spell_key,
        o.entity_key,
        o.group.oldest_ts(),
        o.caster,
        o.group.landings.len() as int,
    ).project(stats, pets)
}

impl Instances {
    /// Every open record holds a landing.
    pub open spec fn wf(self) -> bool {
        forall|k: Seq<char>|
            #[trigger] self.open.at.contains_key(k) ==> self.open.at[k].group.landings.len() > 0
    }

    pub open spec fn empty() -> Instances {
        Instances { pending: None, open: Dict::empty(), active: Dict::empty(), expired: Seq::empty() }
    }

    /// Is this an illusion on the entity that another one replaces?
    pub open spec fn supplanted(
        k: Seq<char>,
        entity_key: Seq<char>,
        keep_key: Seq<char>,
        stats: Learned,
    ) -> bool {
        &&& k != keep_key
        &&& entity_part(k) == entity_key
        &&& stats.illusion(spell_part(k))
    }

    /// Every illusion on the entity but the one that is kept goes, its row and its record alike.
    pub open spec fn clear_illusions_on(
        self,
        entity_key: Seq<char>,
        keep_key: Seq<char>,
        stats: Learned,
    ) -> Instances {
        Instances {
            active: self.active.keep(
                |k: Seq<char>, a: Active| !Instances::supplanted(k, entity_key, keep_key, stats),
            ),
            open: self.open.keep(
                |k: Seq<char>, o: Open| !Instances::supplanted(k, entity_key, keep_key, stats),
            ),
            ..self
        }
    }

    /// Is this the player's own illusion?
    pub open spec fn own_illusion(self, k: Seq<char>, stats: Learned) -> bool {
        self.active.has(k) && self.active.at[k].is_self && stats.illusion(spell_part(k))
    }

    /// The player's own illusions go, each announced in the order it stood.
    pub open spec fn clear_self_illusion(self, stats: Learned) -> Instances {
        Instances {
            active: self.active.keep(|k: Seq<char>, a: Active| !self.own_illusion(k, stats)),
            open: self.open.keep(|k: Seq<char>, o: Open| !self.own_illusion(k, stats)),
            expired: self.expired + self.active.order.filter(
                |k: Seq<char>| self.own_illusion(k, stats),
            ).map_values(
                |k: Seq<char>| Expired { spell: self.active.at[k].spell, target: SELF_KEY@ },
            ),
            ..self
        }
    }

    /// The disposition of a cast, from its landing emote, the pets there are, and its class.
    pub open spec fn cast_disposition(
        key: Seq<char>,
        emote: Option<Seq<char>>,
        stats: Learned,
        pets: Pets,
    ) -> Disposition {
        match emote {
            Some(sub) => if sub == SELF_KEY@ {
                Disposition::Zelf
            } else if pets.charmed_key == Some(sub) {
                Disposition::Charmed
            } else if pets.summoned_key is Some {
                Disposition::Summoned
            } else {
                Disposition::Charmed
            },
            None => if stats.class(key) == BuffClass::Debuff {
                Disposition::Hostile
            } else if pets.charmed_key is Some {
                Disposition::Charmed
            } else if pets.summoned_key is Some {
                Disposition::Summoned
            } else {
                Disposition::Zelf
            },
        }
    }

    pub open spec fn pending_disposition(self, stats: Learned, pets: Pets) -> Option<Disposition> {
        match self.pending {
            Some(p) => Some(
                Instances::cast_disposition(p.key, p.emote_subject_key, stats, pets),
            ),
            None => None,
        }
    }

    /// The record a landing belongs to: the one that stands, brought up to date, or a new one where
    /// there is none or where another caster's stood.
    pub open spec fn open_record(
        self,
        i_key: Seq<char>,
        spell: Seq<char>,
        cast_name: Option<Seq<char>>,
        key: Seq<char>,
        e_key: Seq<char>,
        caster: Seq<char>,
        disp: Disposition,
    ) -> Open {
        match self.open.get(i_key) {
            Some(o) if o.caster == caster => Open { spell, cast_name, disp, ..o },
            _ => Open {
                spell,
                cast_name,
                spell_key: key,
                entity_key: e_key,
                group: Group { singleton: disp != Disposition::Hostile, landings: Seq::empty() },
                caster,
                disp,
                spanned_gap: false,
            },
        }
    }

    /// A landing opens no row unless it states a duration, an illusion, or a permanent spell, nor
    /// when it is a debuff on the player.
    pub open spec fn refuses(spell: Seq<char>, spec: Landed, stats: Learned) -> bool {
        let key = spec.line(spell);
        ||| spec.duration_ms is None && !spec.illusion && !stats.permanent(key)
        ||| spec.on_self() && stats.class(key) == BuffClass::Debuff
    }

    /// What a landing makes of the instances, the learner and the names.
    pub open spec fn apply(
        self,
        spell: Seq<char>,
        spec: Landed,
        stats: Learned,
        pets: Pets,
    ) -> (Instances, Learned, Pets) {
        let key = spec.line(spell);
        if Instances::refuses(spell, spec, stats) {
            (self, stats, pets)
        } else {
            let e_key = spec.entity();
            let caster = or_self(spec.caster);
            let pets1 = if spec.on_self() {
                pets
            } else {
                pets.named(e_key, spec.target)
            };
            let disp = if spec.on_self() {
                Disposition::Zelf
            } else {
                pets1.disp_of_name(spec.target)
            };
            let stats1 = stats.note_ever_faded(key).touch_last_seen(key, spec.ts).note_cast_tier(
                key,
                caster,
                match spec.cast_name {
                    Some(name) => name,
                    None => ""@,
                },
            );
            let permanent = never_expires(
                spec.on_self(),
                stats.permanent(key),
                spec.illusion,
                spec.ts,
                spec.permanent_illusion_owned_ts,
            );
            let ik = inst_key(key, e_key);
            let opened = self.open_record(ik, spell, spec.cast_name, key, e_key, caster, disp);
            let record = Open {
                group: opened.group.land(spec.ts, spec.candidates is Some),
                ..opened
            };
            let row = RowSpec {
                spell,
                cast_name: spec.cast_name,
                key,
                entity_key: e_key,
                started_ts: if permanent {
                    spec.ts
                } else {
                    record.group.oldest_ts()
                },
                disp_override: Some(disp),
                caster: Some(caster),
                count: Some(
                    if permanent {
                        1
                    } else {
                        record.group.landings.len() as int
                    },
                ),
                candidates: spec.candidates,
                message_driven: true,
                permanent,
            };
            let landed = Instances {
                pending: if self.pending matches Some(p) && p.key == key {
                    None
                } else {
                    self.pending
                },
                open: if permanent {
                    self.open.del(ik)
                } else {
                    self.open.put(ik, record)
                },
                active: self.active.put(ik, row.project(stats1, pets1)),
                expired: self.expired,
            };
            let done = if spec.illusion {
                landed.clear_illusions_on(e_key, ik, stats1)
            } else {
                landed
            };
            (done, stats1, pets1)
        }
    }

    /// Re-projects one live row from its record.
    pub open spec fn restat(self, ik: Seq<char>, stats: Learned, pets: Pets) -> Instances {
        if self.active.has(ik) && self.open.has(ik) {
            Instances {
                active: self.active.put(
                    ik,
                    restated(self.active.at[ik], self.open.at[ik], stats, pets),
                ),
                ..self
            }
        } else {
            self
        }
    }

    /// How many landings a live row stands for.
    pub open spec fn row_count(self, ik: Seq<char>) -> int {
        match self.open.get(ik) {
            Some(o) => o.group.landings.len() as int,
            None => match self.active.at[ik].count {
                Some(n) => n,
                None => 1,
            },
        }
    }

    /// A row as a fresh sample of its line leaves it.
    pub open spec fn resampled(self, ik: Seq<char>, key: Seq<char>, stats: Learned, pets: Pets) -> Active {
        let a = self.active.at[ik];
        if spell_part(ik) == key {
            carried(a, key, entity_part(ik), a.started_ts, or_self(a.caster), self.row_count(ik)).project(
                stats,
                pets,
            )
        } else {
            a
        }
    }

    /// A mined sample goes to the learner, and every live row of the line is re-projected.
    pub open spec fn add_sample(
        self,
        key: Seq<char>,
        caster: Seq<char>,
        spell: Seq<char>,
        sample: DurationSample,
        stats: Learned,
        pets: Pets,
    ) -> (Instances, Learned) {
        let stats1 = stats.push_sample(key, caster, spell, sample);
        (
            Instances {
                active: self.active.change(
                    |k: Seq<char>, a: Active| self.resampled(k, key, stats1, pets),
                ),
                ..self
            },
            stats1,
        )
    }

    /// A fade closes the oldest landing of its instance, mints a sample where the span is a clean
    /// one, and clears the row when no landing is left.
    pub open spec fn record_fade(
        self,
        key: Seq<char>,
        entity_key: Seq<char>,
        spell: Seq<char>,
        fade_ts: i64,
        stats: Learned,
        pets: Pets,
    ) -> (Instances, Learned) {
        let ik = inst_key(key, entity_key);
        let stats1 = stats.touch_last_seen(key, fade_ts);
        match self.open.get(ik) {
            None => (Instances { active: self.active.del(ik), ..self }, stats1),
            Some(o) => {
                let left = o.group.close_oldest();
                let closed = Instances {
                    open: self.open.put(ik, Open { group: left, ..o }),
                    ..self
                };
                let span = o.group.closing(fade_ts);
                let (inst2, stats2) = if !o.spanned_gap && span is Some && 0 < span->0
                    <= MAX_SAMPLE_MS {
                    closed.add_sample(
                        key,
                        o.caster,
                        spell,
                        DurationSample {
                            ms: span->0,
                            ts: fade_ts,
                            censored: false,
                            death_bound: false,
                        },
                        stats1,
                        pets,
                    )
                } else {
                    (closed, stats1)
                };
                if left.landings.len() == 0 {
                    (
                        Instances {
                            open: inst2.open.del(ik),
                            active: inst2.active.del(ik),
                            ..inst2
                        },
                        stats2,
                    )
                } else {
                    (inst2.restat(ik, stats2, pets), stats2)
                }
            },
        }
    }

    /// What the instance a wear-off ended is called.
    pub open spec fn ended_name(self, key: Seq<char>, entity_key: Seq<char>, stats: Learned) -> Seq<char> {
        let ik = inst_key(key, entity_key);
        match self.active.get(ik) {
            Some(a) => a.spell,
            None => {
                let caster = match self.open.get(ik) {
                    Some(o) => o.caster,
                    None => SELF_CASTER@,
                };
                match stats.samples.get(crate::buffs_shapes::learning_key(key, caster)) {
                    Some(s) => s.spell,
                    None => key,
                }
            },
        }
    }

    pub open spec fn remove_authoritative(
        self,
        key: Seq<char>,
        entity_key: Seq<char>,
        ts: i64,
        stats: Learned,
        pets: Pets,
    ) -> (Instances, Learned) {
        let spell = self.ended_name(key, entity_key, stats);
        let (inst, stats1) = self.record_fade(
            key,
            entity_key,
            spell,
            ts,
            stats.note_ever_faded(key),
            pets,
        );
        (
            Instances {
                expired: inst.expired.push(Expired { spell, target: pets.display(entity_key) }),
                ..inst
            },
            stats1,
        )
    }

    /// Each of the lines in turn, ended on the entity.
    pub open spec fn remove_each(
        self,
        keys: Seq<Seq<char>>,
        entity_key: Seq<char>,
        ts: i64,
        stats: Learned,
        pets: Pets,
    ) -> (Instances, Learned)
        decreases keys.len(),
    {
        if keys.len() == 0 {
            (self, stats)
        } else {
            let (inst, stats1) = self.remove_each(keys.drop_last(), entity_key, ts, stats, pets);
            inst.remove_authoritative(keys.last(), entity_key, ts, stats1, pets)
        }
    }

    /// The candidate lines that are live on the entity, in the order they stand, each once.
    pub open spec fn matching(
        order: Seq<Seq<char>>,
        cands: Seq<Seq<char>>,
        entity_key: Seq<char>,
    ) -> Seq<Seq<char>>
        decreases order.len(),
    {
        if order.len() == 0 {
            Seq::empty()
        } else {
            let front = Instances::matching(order.drop_last(), cands, entity_key);
            let k = spell_part(order.last());
            if entity_part(order.last()) == entity_key && cands.contains(k) && !front.contains(k) {
                front.push(k)
            } else {
                front
            }
        }
    }

    /// Is the record one that an absence since `from_ts` passed over?
    pub open spec fn spans_absence(o: Open, from_ts: i64) -> bool {
        o.group.oldest_ts() <= from_ts
    }

    /// Does the absence move the record's clock? The player's buffs pause; debuffs do not.
    pub open spec fn pauses(o: Open, from_ts: i64, stats: Learned) -> bool {
        Instances::spans_absence(o, from_ts) && stats.class(o.spell_key) != BuffClass::Debuff
    }

    pub open spec fn paused_record(o: Open, from_ts: i64, offline_ms: i64, stats: Learned) -> Open {
        if Instances::spans_absence(o, from_ts) {
            Open {
                spanned_gap: true,
                group: if Instances::pauses(o, from_ts, stats) {
                    o.group.shift_by(offline_ms, from_ts)
                } else {
                    o.group
                },
                ..o
            }
        } else {
            o
        }
    }

    /// Does the absence move the clock of a row that no record stands behind?
    pub open spec fn bumps(a: Active, from_ts: i64) -> bool {
        a.cls != BuffClass::Debuff && a.started_ts <= from_ts
    }

    pub open spec fn paused_row(
        self,
        k: Seq<char>,
        a: Active,
        from_ts: i64,
        offline_ms: i64,
        stats: Learned,
        pets: Pets,
    ) -> Active {
        match self.open.get(k) {
            Some(o) => if Instances::pauses(o, from_ts, stats) {
                restated(a, Instances::paused_record(o, from_ts, offline_ms, stats), stats, pets)
            } else {
                a
            },
            None => if Instances::bumps(a, from_ts) {
                Active { started_ts: (a.started_ts + offline_ms) as i64, ..a }
            } else {
                a
            },
        }
    }

    /// The offline pause: a buff's clock is moved by the absence and a debuff's is not, every record
    /// the absence passed over is barred from minting, and the cast in flight never completed.
    pub open spec fn offline_pause(
        self,
        from_ts: i64,
        offline_ms: i64,
        stats: Learned,
        pets: Pets,
    ) -> Instances {
        if offline_ms <= 0 {
            self
        } else {
            Instances {
                pending: None,
                open: self.open.change(
                    |k: Seq<char>, o: Open|
                        Instances::paused_record(o, from_ts, offline_ms, stats),
                ),
                active: self.active.change(
                    |k: Seq<char>, a: Active|
                        self.paused_row(k, a, from_ts, offline_ms, stats, pets),
                ),
                ..self
            }
        }
    }

    /// The clocks that the pause moves stay representable.
    pub open spec fn pause_fits(self, from_ts: i64, offline_ms: i64, stats: Learned) -> bool {
        &&& forall|k: Seq<char>|
            #[trigger] self.open.has(k) && Instances::pauses(self.open.at[k], from_ts, stats)
                ==> self.open.at[k].group.shift_fits(offline_ms, from_ts)
        &&& forall|k: Seq<char>|
            #[trigger] self.active.has(k) && !self.open.has(k) && Instances::bumps(
                self.active.at[k],
                from_ts,
            ) ==> self.active.at[k].started_ts + offline_ms <= i64::MAX
    }

    pub open spec fn drop_predating(self, ts: i64) -> Instances {
        Instances {
            active: self.active.keep(|k: Seq<char>, a: Active| a.started_ts > ts),
            open: self.open.keep(|k: Seq<char>, o: Open| o.group.oldest_ts() > ts),
            pending: if self.pending matches Some(p) && p.began_ts <= ts {
                None
            } else {
                self.pending
            },
            ..self
        }
    }

    /// A row the sweep leaves alone: a permanent one, or a buff that an unexplained hole may yet
    /// prove paused.
    pub open spec fn exempt(a: Active, held_before_ts: i64) -> bool {
        ||| a.permanent == Some(true)
        ||| held_before_ts > 0 && a.cls != BuffClass::Debuff && a.started_ts <= held_before_ts
    }

    /// The row is past its long stop: the thread was lost.
    pub open spec fn lost(k: Seq<char>, a: Active, now: i64, held: i64, stats: Learned) -> bool {
        &&& !Instances::exempt(a, held)
        &&& 4 * (now - a.started_ts) > long_stop(a, stats.db_duration(spell_part(k)))
    }

    /// The last instant the long stop retires, in whole milliseconds.
    pub open spec fn lost_cutoff(k: Seq<char>, a: Active, now: i64, stats: Learned) -> int {
        (4 * now - long_stop(a, stats.db_duration(spell_part(k)))) / 4
    }

    /// The row's countdown ran out and its end was never witnessed.
    pub open spec fn culled(k: Seq<char>, a: Active, now: i64, held: i64, stats: Learned) -> bool {
        &&& !Instances::exempt(a, held)
        &&& !Instances::lost(k, a, now, held, stats)
        &&& overdue_after(a) matches Some(cap) && now - a.started_ts > cap
    }

    /// A record as the long stop of its row leaves it.
    pub open spec fn swept_record(self, k: Seq<char>, o: Open, now: i64, held: i64, stats: Learned) -> Open {
        if self.active.has(k) && Instances::lost(k, self.active.at[k], now, held, stats) {
            Open {
                group: o.group.drop_expired(
                    Instances::lost_cutoff(k, self.active.at[k], now, stats),
                ),
                ..o
            }
        } else {
            o
        }
    }

    /// Does a row outlive the sweep? A lost one does while its record still holds a landing.
    pub open spec fn outlives(self, k: Seq<char>, now: i64, held: i64, stats: Learned) -> bool {
        let a = self.active.at[k];
        if Instances::lost(k, a, now, held, stats) {
            self.open.has(k) && self.swept_record(
                k,
                self.open.at[k],
                now,
                held,
                stats,
            ).group.landings.len() > 0
        } else {
            !Instances::culled(k, a, now, held, stats)
        }
    }

    pub open spec fn swept_row(
        self,
        k: Seq<char>,
        a: Active,
        now: i64,
        held: i64,
        stats: Learned,
        pets: Pets,
    ) -> Active {
        if Instances::lost(k, a, now, held, stats) && self.open.has(k) {
            restated(a, self.swept_record(k, self.open.at[k], now, held, stats), stats, pets)
        } else {
            a
        }
    }

    /// The sweep: lost rows shed their expired landings and go when none is left, overdue rows go and
    /// leave their record, and records without a row are reaped.
    pub open spec fn sweep(self, now: i64, held: i64, stats: Learned, pets: Pets) -> Instances {
        let active = self.active.change(
            |k: Seq<char>, a: Active| self.swept_row(k, a, now, held, stats, pets),
        ).keep(|k: Seq<char>, a: Active| self.outlives(k, now, held, stats));
        let open = self.open.change(
            |k: Seq<char>, o: Open| self.swept_record(k, o, now, held, stats),
        ).keep(|k: Seq<char>, o: Open| o.group.landings.len() > 0);
        Instances { active, open: reaped(open, active, stats, now), ..self }
    }

    /// Did the sweep change what is published?
    pub open spec fn sweep_changes(self, now: i64, held: i64, stats: Learned) -> bool {
        exists|k: Seq<char>|
            #[trigger] self.active.has(k) && (Instances::lost(
                k,
                self.active.at[k],
                now,
                held,
                stats,
            ) || Instances::culled(k, self.active.at[k], now, held, stats))
    }

    pub open spec fn player_death(self, stats: Learned, pets: Pets) -> Instances {
        Instances {
            open: self.open.keep(|k: Seq<char>, o: Open| o.entity_key != SELF_KEY@),
            active: self.active.keep(|k: Seq<char>, a: Active| !a.is_self),
            pending: if self.pending_disposition(stats, pets) == Some(Disposition::Zelf) {
                None
            } else {
                self.pending
            },
            ..self
        }
    }

    /// One open record against one corpse: the bound is minted, then its oldest landing closed and
    /// the others contaminated.
    pub open spec fn censor_on_death(
        self,
        ik: Seq<char>,
        entity_key: Seq<char>,
        ts: i64,
        stats: Learned,
        pets: Pets,
    ) -> (Instances, Learned) {
        match self.open.get(ik) {
            None => (self, stats),
            Some(o) => {
                let is_debuff = stats.class(o.spell_key) == BuffClass::Debuff;
                if !censors_open(o, entity_key, is_debuff) {
                    (self, stats)
                } else {
                    let ms = if is_debuff && o.entity_key == entity_key {
                        bound_span(o, entity_key, ts, self.active.has(ik), stats)
                    } else {
                        None
                    };
                    let (inst1, stats1) = match ms {
                        Some(ms) => self.add_sample(
                            o.spell_key,
                            o.caster,
                            o.spell,
                            DurationSample { ms, ts, censored: false, death_bound: true },
                            stats,
                            pets,
                        ),
                        None => (self, stats),
                    };
                    let left = o.group.contaminate_all().close_oldest();
                    if left.landings.len() > 0 {
                        (
                            Instances {
                                open: inst1.open.put(ik, Open { group: left, ..o }),
                                ..inst1
                            }.restat(ik, stats1, pets),
                            stats1,
                        )
                    } else {
                        (
                            Instances {
                                open: inst1.open.del(ik),
                                active: inst1.active.del(ik),
                                ..inst1
                            },
                            stats1,
                        )
                    }
                }
            },
        }
    }

    /// Each of the records in turn, against one corpse.
    pub open spec fn censor_each(
        self,
        keys: Seq<Seq<char>>,
        entity_key: Seq<char>,
        ts: i64,
        stats: Learned,
        pets: Pets,
    ) -> (Instances, Learned)
        decreases keys.len(),
    {
        if keys.len() == 0 {
            (self, stats)
        } else {
            let (inst, stats1) = self.censor_each(keys.drop_last(), entity_key, ts, stats, pets);
            inst.censor_on_death(keys.last(), entity_key, ts, stats1, pets)
        }
    }

    pub open spec fn entity_death(
        self,
        entity_key: Seq<char>,
        ts: i64,
        stats: Learned,
        pets: Pets,
    ) -> (Instances, Learned) {
        let (inst, stats1) = self.censor_each(self.open.order, entity_key, ts, stats, pets);
        (
            Instances {
                active: inst.active.keep(
                    |k: Seq<char>, a: Active|
                        inst.open.has(k) || !censors_active(a, entity_part(k), entity_key),
                ),
                ..inst
            },
            stats1,
        )
    }

    pub open spec fn retire_entity(self, entity_key: Seq<char>) -> Instances {
        Instances {
            open: self.open.keep(|k: Seq<char>, o: Open| o.entity_key != entity_key),
            active: self.active.keep(|k: Seq<char>, a: Active| entity_part(k) != entity_key),
            ..self
        }
    }

    /// What a zone leaves behind: debuffs, and whatever stands on a charmed pet or a hostile.
    pub open spec fn zone(self, stats: Learned, pets: Pets) -> Instances {
        Instances {
            open: self.open.keep(|k: Seq<char>, o: Open| !left_behind(o.disp)),
            active: self.active.keep(
                |k: Seq<char>, a: Active|
                    a.cls != BuffClass::Debuff && !(a.disposition matches Some(d) && left_behind(d)),
            ),
            pending: if self.pending_disposition(stats, pets.clear_on_zone()) matches Some(d)
                && left_behind(d) {
                None
            } else {
                self.pending
            },
            ..self
        }
    }
}

impl Landed {
    /// The spell line the landing is of.
    pub open spec fn line(self, spell: Seq<char>) -> Seq<char> {
        match self.line_key {
            Some(k) => k,
            None => line_of(spell),
        }
    }

    pub open spec fn on_self(self) -> bool {
        self.target == SELF_KEY@
    }

    /// The key of the entity the landing is on.
    pub open spec fn entity(self) -> Seq<char> {
        if self.on_self() {
            SELF_KEY@
        } else {
            name_key(self.target)
        }
    }
}

proof fn lemma_expiries_push(v: Seq<Expiry>, e: Expiry)
    ensures
        expiries(v.push(e)) == expiries(v).push(e@),
{
    assert(expiries(v.push(e)) =~= expiries(v).push(e@));
}

/// The spec for re-projecting a row that is already live.
fn reproject_spec(
    a: &ActiveBuff,
    key: &str,
    entity_key: &str,
    started_ts: i64,
    caster: &str,
    count: usize,
) -> (r: ActiveSpec)
    ensures
        r@ == carried(a@, key@, entity_key@, started_ts, caster@, count as int),
{
    ActiveSpec {
        spell: a.spell.clone(),
        cast_name: copy_opt(&a.cast_name),
        key: key.to_owned(),
        entity_key: entity_key.to_owned(),
        started_ts,
        disp_override: a.disposition,
        caster: Some(caster.to_owned()),
        count: Some(count),
        candidates: copy_opt_list(&a.candidates),
        message_driven: is_set(a.message_driven),
        permanent: is_set(a.permanent),
    }
}

fn is_set(b: Option<bool>) -> (r: bool)
    ensures
        r == (b == Some(true)),
{
    match b {
        Some(x) => x,
        None => false,
    }
}

impl Default for BuffInstances {
    fn default() -> (r: Self)
        ensures
            r@ == Instances::empty(),
    {
        BuffInstances::new()
    }
}

impl BuffInstances {
    pub fn new() -> (r: Self)
        ensures
            r@ == Instances::empty(),
    {
        let r = BuffInstances {
            pending: None,
            open: JsMap::new(),
            active: JsMap::new(),
            expired: Vec::new(),
        };
        assert(r@.expired =~= Seq::empty());
        r
    }

    pub fn reset(&mut self)
        ensures
            final(self)@ == Instances::empty(),
    {
        self.pending = None;
        self.open.clear();
        self.active.clear();
        self.expired.clear();
        assert(self@.expired =~= Seq::empty());
    }

    fn expire(&mut self, spell: String, target: String)
        ensures
            final(self)@ == (Instances {
                expired: old(self)@.expired.push(Expired { spell: spell@, target: target@ }),
                ..old(self)@
            }),
    {
        let e = Expiry { spell, target };
        proof {
            lemma_expiries_push(self.expired@, e);
        }
        self.expired.push(e);
    }

    /// True when any active instance is of this spell key.
    pub fn has_active_spell(&self, key: &str) -> (r: bool)
        ensures
            r == exists|k: Seq<char>| #[trigger] self@.active.has(k) && spell_part(k) == key@,
    {
        let n: usize = self.active.len();
        let mut i: usize = 0;
        while i < n
            invariant
                i <= n,
                n == self@.active.order.len(),
                self@.active.wf(),
                forall|j: int| 0 <= j < i ==> spell_part(#[trigger] self@.active.order[j]) != key@,
            decreases n - i,
        {
            let ik = self.active.key_at(i);
            if same(instance_spell_key(ik), key) {
                assert(self@.active.has(ik@));
                return true;
            }
            i = i + 1;
        }
        assert forall|k: Seq<char>| #[trigger] self@.active.has(k) implies spell_part(k) != key@ by {
            assert(self@.active.order.contains(k));
        }
        false
    }

    /// Illusion exclusivity: only ONE illusion can be active on an entity at a time. Removes every
    /// illusion-flagged active and open instance bound to `entity_key` except the one being applied
    /// now. A record that outlived its row goes too, so that no late line pairs with an illusion that
    /// was replaced.
    fn clear_illusions_on(&mut self, entity_key: &str, keep_key: &str, stats: &SpellStats)
        ensures
            final(self)@ == old(self)@.clear_illusions_on(entity_key@, keep_key@, stats@),
            old(self)@.wf() ==> final(self)@.wf(),
    {
        let open_stays = |k: &str, o: &OpenCast| -> (b: bool)
            ensures
                b == !(k@ != keep_key@ && entity_part(k@) == entity_key@ && stats@.illusion(
                    spell_part(k@),
                ))
            {
                !(!same(k, keep_key) && same(instance_entity_key(k), entity_key)
                    && stats.is_illusion(instance_spell_key(k)))
            };
        self.open.retain(
            open_stays,
            Ghost(
                |k: Seq<char>, o: Open|
                    !Instances::supplanted(k, entity_key@, keep_key@, stats@),
            ),
        );
        let stays = |k: &str, a: &ActiveBuff| -> (b: bool)
            ensures
                b == !(k@ != keep_key@ && entity_part(k@) == entity_key@ && stats@.illusion(
                    spell_part(k@),
                ))
            {
                !(!same(k, keep_key) && same(instance_entity_key(k), entity_key)
                    && stats.is_illusion(instance_spell_key(k)))
            };
        self.active.retain(
            stays,
            Ghost(
                |k: Seq<char>, a: Active|
                    !Instances::supplanted(k, entity_key@, keep_key@, stats@),
            ),
        );
    }

    /// Remove the player's own illusions, each announced under the spell it resolved to.
    pub fn clear_self_illusion(&mut self, stats: &SpellStats)
        ensures
            final(self)@ == old(self)@.clear_self_illusion(stats@),
            old(self)@.wf() ==> final(self)@.wf(),
    {
        let ghost before = self@;
        let ghost p = |k: Seq<char>| before.own_illusion(k, stats@);
        let ghost say = |k: Seq<char>|
            Expired { spell: before.active.at[k].spell, target: SELF_KEY@ };
        let n: usize = self.active.len();
        let mut i: usize = 0;
        proof {
            reveal(Seq::filter);
            assert(before.expired + before.active.order.take(0).filter(p).map_values(say)
                =~= before.expired);
        }
        while i < n
            invariant
                i <= n,
                n == before.active.order.len(),
                before.active.wf(),
                self@.active == before.active,
                self@.open == before.open,
                self@.pending == before.pending,
                p == (|k: Seq<char>| before.own_illusion(k, stats@)),
                say == (|k: Seq<char>|
                    Expired { spell: before.active.at[k].spell, target: SELF_KEY@ }),
                self@.expired == before.expired + before.active.order.take(i as int).filter(
                    p,
                ).map_values(say),
            decreases n - i,
        {
            let ik = self.active.key_at(i);
            let a = self.active.value_at(i);
            let ghost k = ik@;
            proof {
                reveal(Seq::filter);
                assert(before.active.order.take(i + 1).drop_last() =~= before.active.order.take(
                    i as int,
                ));
                assert(before.active.order.take(i + 1).last() == k);
            }
            let ghost front = before.active.order.take(i as int).filter(p);
            if a.is_self && stats.is_illusion(instance_spell_key(ik)) {
                let spell = a.spell.clone();
                self.expire(spell, SELF_KEY.to_owned());
                assert(front.push(k).map_values(say) =~= front.map_values(say).push(say(k)));
                assert(self@.expired =~= before.expired + front.push(k).map_values(say));
            }
            i = i + 1;
        }
        assert(before.active.order.take(n as int) =~= before.active.order);
        let active = &self.active;
        let open_stays = |k: &str, o: &OpenCast| -> (b: bool)
            ensures
                b == !(active@.has(k@) && active@.at[k@].is_self && stats@.illusion(
                    spell_part(k@),
                ))
            {
                match active.get(k) {
                    Some(a) => !(a.is_self && stats.is_illusion(instance_spell_key(k))),
                    None => true,
                }
            };
        self.open.retain(
            open_stays,
            Ghost(|k: Seq<char>, o: Open| !before.own_illusion(k, stats@)),
        );
        let stays = |k: &str, a: &ActiveBuff| -> (b: bool)
            ensures b == !(a@.is_self && stats@.illusion(spell_part(k@)))
            { !(a.is_self && stats.is_illusion(instance_spell_key(k))) };
        self.active.retain(
            stays,
            Ghost(|k: Seq<char>, a: Active| !before.own_illusion(k, stats@)),
        );
    }

    /// A cast nothing confirmed within the landing window never landed. It opens nothing on the way
    /// out.
    pub fn drop_unconfirmed_pending(&mut self, now: i64)
        ensures
            final(self)@ == (Instances {
                pending: if old(self)@.pending matches Some(p) && now - p.began_ts
                    >= LAND_TIMEOUT_MS {
                    None
                } else {
                    old(self)@.pending
                },
                ..old(self)@
            }),
    {
        let stale: bool = match &self.pending {
            Some(p) => now as i128 - p.began_ts as i128 >= LAND_TIMEOUT_MS as i128,
            None => false,
        };
        if stale {
            self.pending = None;
        }
    }

    /// Stage a new cast in flight. A cast opens nothing: no instance, no open cast, no row.
    pub fn begin_cast(&mut self, key: String, ts: i64)
        ensures
            final(self)@ == (Instances {
                pending: Some(InFlight { key: key@, began_ts: ts, emote_subject_key: None }),
                ..old(self)@
            }),
    {
        self.pending = Some(Pending { key, began_ts: ts, emote_subject_key: None });
    }

    /// Is the cast in flight one of this line?
    fn pending_is(&self, key: &str) -> (r: bool)
        ensures
            r == (self@.pending matches Some(p) && p.key == key@),
    {
        match &self.pending {
            Some(p) => same(p.key.as_str(), key),
            None => false,
        }
    }

    /// A fizzle or interrupt of `key` clears the pending cast. It never opened anything to retract.
    pub fn clear_pending_cast(&mut self, key: &str)
        ensures
            final(self)@ == (Instances {
                pending: if old(self)@.pending matches Some(p) && p.key == key@ {
                    None
                } else {
                    old(self)@.pending
                },
                ..old(self)@
            }),
    {
        if self.pending_is(key) {
            self.pending = None;
        }
    }

    /// Infer the target disposition of a cast at LAND time. A learned self-emote proves a SELF cast
    /// even while a pet is live.
    fn infer_cast_disposition(
        key: &str,
        emote_subject_key: &Option<String>,
        stats: &SpellStats,
        pets: &PetEntities,
    ) -> (r: Disposition)
        ensures
            r == Instances::cast_disposition(key@, opt_text(*emote_subject_key), stats@, pets@),
    {
        if let Some(sub) = emote_subject_key {
            if same(sub.as_str(), SELF_KEY) {
                return Disposition::Zelf;
            }
            if crate::buffs_entities::is_key(&pets.charmed_key, sub.as_str()) {
                return Disposition::Charmed;
            }
            return if pets.summoned_key.is_some() {
                Disposition::Summoned
            } else {
                Disposition::Charmed
            };
        }
        if stats.class_of(key) == BuffClass::Debuff {
            return Disposition::Hostile;
        }
        if pets.charmed_key.is_some() {
            return Disposition::Charmed;
        }
        if pets.summoned_key.is_some() {
            return Disposition::Summoned;
        }
        Disposition::Zelf
    }

    /// Apply a buff from an exact chat-message match. `target` is 'self' for a cast-on-you or
    /// self-heal line, else the named target, bound to THAT entity's key.
    ///
    /// A repeat landing is a ROUND, not an overwrite: it goes to the instance's `HoldGroup`, which
    /// decides whether it refreshes the newest landing or opens another.
    pub fn apply_message_buff(
        &mut self,
        spell: &str,
        spec: &LandingSpec,
        stats: &mut SpellStats,
        pets: &mut PetEntities,
    )
        ensures
            (final(self)@, final(stats)@, final(pets)@) == old(self)@.apply(
                spell@,
                spec@,
                old(stats)@,
                old(pets)@,
            ),
            old(self)@.wf() ==> final(self)@.wf(),
    {
        let key: String = match &spec.line_key {
            Some(k) => k.clone(),
            None => spell_key(spell),
        };
        let db_permanent: bool = stats.is_permanent(key.as_str());
        if spec.duration_ms.is_none() && !spec.illusion && !db_permanent {
            return;
        }
        let is_self: bool = same(spec.target.as_str(), SELF_KEY);
        if is_self && stats.class_of(key.as_str()) == BuffClass::Debuff {
            return;
        }
        stats.note_ever_faded(key.as_str());
        stats.touch_last_seen(key.as_str(), spec.ts);
        if self.pending_is(key.as_str()) {
            self.pending = None;
        }
        let e_key: String = if is_self {
            SELF_KEY.to_owned()
        } else {
            id_key(spec.target.as_str())
        };
        if !is_self {
            pets.named_entity_display.insert(e_key.clone(), spec.target.clone());
        }
        let disp: Disposition = if is_self {
            Disposition::Zelf
        } else {
            pets.disp_for_named_target(spec.target.as_str())
        };
        let caster: String = match &spec.caster {
            Some(c) => c.clone(),
            None => SELF_CASTER.to_owned(),
        };
        let permanent: bool = landing_is_permanent(
            is_self,
            db_permanent,
            spec.illusion,
            spec.ts,
            spec.permanent_illusion_owned_ts,
        );
        let i_key = instance_key(key.as_str(), e_key.as_str());
        let ghost before = self@;
        self.open_record(
            i_key.as_str(),
            spell,
            &spec.cast_name,
            key.as_str(),
            e_key.as_str(),
            caster.as_str(),
            disp,
        );
        match &spec.cast_name {
            Some(name) => {
                stats.note_cast_tier(key.as_str(), caster.as_str(), name.as_str());
            },
            None => {
                stats.note_cast_tier(key.as_str(), caster.as_str(), "");
            },
        }
        let ghost opened = self@.open.at[i_key@];
        let record = self.open.get_mut(i_key.as_str()).unwrap();
        record.group.land(spec.ts, spec.candidates.is_some());
        let oldest: i64 = record.group.oldest_ts();
        let landings: usize = record.group.count();
        proof {
            before.open.lemma_put_twice(i_key@, opened, self@.open.at[i_key@]);
            before.open.lemma_put_del(i_key@, self@.open.at[i_key@]);
        }
        if permanent {
            self.open.remove(i_key.as_str());
        }
        let row = ActiveSpec {
            spell: spell.to_owned(),
            cast_name: copy_opt(&spec.cast_name),
            key: key.clone(),
            entity_key: e_key.clone(),
            started_ts: if permanent {
                spec.ts
            } else {
                oldest
            },
            disp_override: Some(disp),
            caster: Some(caster.clone()),
            count: Some(
                if permanent {
                    1
                } else {
                    landings
                },
            ),
            candidates: copy_opt_list(&spec.candidates),
            message_driven: true,
            permanent,
        };
        let projected = build_active(&row, stats, pets);
        self.active.insert(i_key.clone(), projected);
        if spec.illusion {
            self.clear_illusions_on(e_key.as_str(), i_key.as_str(), stats);
        }
    }

    /// The open record this landing belongs to, created on first sight, or recreated when the CASTER
    /// changed, because a different caster's durations are a different learner key.
    ///
    /// It is a singleton unless the entity is a plain HOSTILE: a mob is only ever a NAME, and the
    /// world hands out that name more than once.
    fn open_record(
        &mut self,
        i_key: &str,
        spell: &str,
        cast_name: &Option<String>,
        key: &str,
        e_key: &str,
        caster: &str,
        disp: Disposition,
    )
        ensures
            final(self)@ == (Instances {
                open: old(self)@.open.put(
                    i_key@,
                    old(self)@.open_record(
                        i_key@,
                        spell@,
                        opt_text(*cast_name),
                        key@,
                        e_key@,
                        caster@,
                        disp,
                    ),
                ),
                ..old(self)@
            }),
    {
        let stands: bool = match self.open.get(i_key) {
            Some(o) => same(o.caster.as_str(), caster),
            None => false,
        };
        if stands {
            let existing = self.open.get_mut(i_key).unwrap();
            existing.spell = spell.to_owned();
            existing.cast_name = copy_opt(cast_name);
            existing.disp = disp;
        } else {
            self.open.insert(
                i_key.to_owned(),
                OpenCast {
                    spell: spell.to_owned(),
                    cast_name: copy_opt(cast_name),
                    spell_key: key.to_owned(),
                    entity_key: e_key.to_owned(),
                    group: HoldGroup::new(disp != Disposition::Hostile),
                    caster: caster.to_owned(),
                    disp,
                    spanned_gap: false,
                },
            );
        }
    }

    /// Re-project one live instance after its group changed.
    fn restat(&mut self, i_key: &str, stats: &SpellStats, pets: &PetEntities)
        requires
            old(self)@.open.has(i_key@) ==> old(self)@.open.at[i_key@].group.landings.len() > 0,
        ensures
            final(self)@ == old(self)@.restat(i_key@, stats@, pets@),
    {
        let built: ActiveBuff = match (self.active.get(i_key), self.open.get(i_key)) {
            (Some(prev), Some(open)) => {
                let spec = reproject_spec(
                    prev,
                    open.spell_key.as_str(),
                    open.entity_key.as_str(),
                    open.group.oldest_ts(),
                    open.caster.as_str(),
                    open.group.count(),
                );
                build_active(&spec, stats, pets)
            },
            _ => {
                return;
            },
        };
        self.active.insert(i_key.to_owned(), built);
    }

    /// One live row, as a fresh sample of its line leaves it.
    fn resample(&self, ik: &str, key: &str, stats: &SpellStats, pets: &PetEntities) -> (r: ActiveBuff)
        requires
            self@.active.has(ik@),
            spell_part(ik@) == key@,
        ensures
            r@ == self@.resampled(ik@, key@, stats@, pets@),
    {
        let a = self.active.get(ik).unwrap();
        let count: usize = match self.open.get(ik) {
            Some(o) => o.group.count(),
            None => match a.count {
                Some(n) => n,
                None => 1,
            },
        };
        let caster: &str = match &a.caster {
            Some(c) => c.as_str(),
            None => SELF_CASTER,
        };
        let spec = reproject_spec(a, key, instance_entity_key(ik), a.started_ts, caster, count);
        build_active(&spec, stats, pets)
    }

    /// A mined sample goes to the learner, and every live instance of this spell is re-projected:
    /// they share the per-(line, caster) stats.
    fn add_sample(
        &mut self,
        key: &str,
        caster: &str,
        spell: &str,
        sample: DurationSample,
        stats: &mut SpellStats,
        pets: &PetEntities,
    )
        ensures
            (final(self)@, final(stats)@) == old(self)@.add_sample(
                key@,
                caster@,
                spell@,
                sample,
                old(stats)@,
                pets@,
            ),
    {
        stats.push_sample(key, caster, spell, sample);
        let keys = self.active.keys();
        let ghost before = self@;
        let ghost learned = stats@;
        let mut i: usize = 0;
        while i < keys.len()
            invariant
                i <= keys.len(),
                before == old(self)@,
                before.active.wf(),
                learned == stats@,
                texts(keys@) == before.active.order,
                self@.open == before.open,
                self@.pending == before.pending,
                self@.expired == before.expired,
                self@.active.order == before.active.order,
                self@.active.at.dom() == before.active.at.dom(),
                forall|j: int|
                    0 <= j < i ==> self@.active.at[#[trigger] before.active.order[j]]
                        == before.resampled(before.active.order[j], key@, learned, pets@),
                forall|j: int|
                    i <= j < keys.len() ==> self@.active.at[#[trigger] before.active.order[j]]
                        == before.active.at[before.active.order[j]],
            decreases keys.len() - i,
        {
            let ik = keys[i].as_str();
            assert(ik@ == before.active.order[i as int]);
            assert(before.active.order.contains(ik@));
            if same(instance_spell_key(ik), key) {
                let built = self.resample(ik, key, stats, pets);
                self.active.insert(ik.to_owned(), built);
            }
            assert(self@.active.at.dom() =~= before.active.at.dom());
            i = i + 1;
        }
        let ghost f = |k: Seq<char>, a: Active| before.resampled(k, key@, learned, pets@);
        assert(self@.active =~= before.active.change(f)) by {
            assert forall|k: Seq<char>| #[trigger] before.active.at.contains_key(k) implies
                self@.active.at[k] == f(k, before.active.at[k]) by {
                assert(before.active.order.contains(k));
                let j = choose|j: int|
                    0 <= j < before.active.order.len() && before.active.order[j] == k;
                assert(self@.active.at[before.active.order[j]] == before.resampled(
                    before.active.order[j],
                    key@,
                    learned,
                    pets@,
                ));
            }
            assert(self@.active.at =~= before.active.change(f).at);
        }
    }

    /// Pair a fade with its own open landed instance (a duration sample) and clear the active.
    ///
    /// It closes the OLDEST landing, because the wear-off names the mob but not which mob of that
    /// name. The row survives with one fewer on its count; only an empty group clears it. A span that
    /// crossed an absence mints nothing.
    pub fn record_fade(
        &mut self,
        key: &str,
        entity_key: &str,
        spell: &str,
        fade_ts: i64,
        stats: &mut SpellStats,
        pets: &PetEntities,
    )
        ensures
            (final(self)@, final(stats)@) == old(self)@.record_fade(
                key@,
                entity_key@,
                spell@,
                fade_ts,
                old(stats)@,
                pets@,
            ),
            old(self)@.wf() ==> final(self)@.wf(),
    {
        stats.touch_last_seen(key, fade_ts);
        let i_key = instance_key(key, entity_key);
        if self.open.contains_key(i_key.as_str()) {
            let open = self.open.get_mut(i_key.as_str()).unwrap();
            let closed = open.group.close_oldest(fade_ts);
            let caster = open.caster.clone();
            let spanned: bool = open.spanned_gap;
            let empty: bool = open.group.is_empty();
            let sample: Option<i64> = match closed {
                Some(c) => c.sample_ms,
                None => None,
            };
            if !spanned {
                if let Some(ms) = sample {
                    if ms > 0 && ms <= MAX_SAMPLE_MS {
                        self.add_sample(
                            key,
                            caster.as_str(),
                            spell,
                            DurationSample {
                                ms,
                                ts: fade_ts,
                                censored: false,
                                death_bound: false,
                            },
                            stats,
                            pets,
                        );
                    }
                }
            }
            if empty {
                self.open.remove(i_key.as_str());
            } else {
                self.restat(i_key.as_str(), stats, pets);
                return;
            }
        }
        self.active.remove(i_key.as_str());
    }

    /// Authoritative removal: a wears-off message proves that the instance expired now. Pairs a
    /// duration sample if the open cast exists, clears that instance, and announces what it resolved
    /// to.
    fn remove_authoritative(
        &mut self,
        key: &str,
        entity_key: &str,
        ts: i64,
        stats: &mut SpellStats,
        pets: &PetEntities,
    )
        ensures
            (final(self)@, final(stats)@) == old(self)@.remove_authoritative(
                key@,
                entity_key@,
                ts,
                old(stats)@,
                pets@,
            ),
            old(self)@.wf() ==> final(self)@.wf(),
    {
        let i_key = instance_key(key, entity_key);
        let spell: String = match self.active.get(i_key.as_str()) {
            Some(a) => a.spell.clone(),
            None => {
                let caster: String = match self.open.get(i_key.as_str()) {
                    Some(o) => o.caster.clone(),
                    None => SELF_CASTER.to_owned(),
                };
                match stats.sample_spell_name(key, caster.as_str()) {
                    Some(name) => name.to_owned(),
                    None => key.to_owned(),
                }
            },
        };
        stats.note_ever_faded(key);
        self.record_fade(key, entity_key, spell.as_str(), ts, stats, pets);
        self.expire(spell, pets.target_display_for(entity_key));
    }

    /// Shared wears-off resolution. A wears-off line whose message maps to MULTIPLE candidate spells
    /// resolves against the ACTIVE set: every candidate that is live on the entity goes, and none
    /// being live is a no-op.
    pub fn remove_shared_wear_off(
        &mut self,
        candidate_names: &Vec<String>,
        entity_key: &str,
        ts: i64,
        stats: &mut SpellStats,
        pets: &PetEntities,
    )
        ensures
            (final(self)@, final(stats)@) == old(self)@.remove_each(
                Instances::matching(
                    old(self)@.active.order,
                    texts(candidate_names@).map_values(|n: Seq<char>| line_of(n)),
                    entity_key@,
                ),
                entity_key@,
                ts,
                old(stats)@,
                pets@,
            ),
            old(self)@.wf() ==> final(self)@.wf(),
    {
        let mut cands: Vec<String> = Vec::new();
        let mut c: usize = 0;
        let ghost lines = texts(candidate_names@).map_values(|n: Seq<char>| line_of(n));
        while c < candidate_names.len()
            invariant
                c <= candidate_names.len(),
                lines == texts(candidate_names@).map_values(|n: Seq<char>| line_of(n)),
                texts(cands@) == lines.take(c as int),
            decreases candidate_names.len() - c,
        {
            let line = spell_key(candidate_names[c].as_str());
            assert(line@ == lines[c as int]);
            assert(texts(cands@.push(line)) =~= texts(cands@).push(line@));
            assert(lines.take(c + 1) =~= lines.take(c as int).push(lines[c as int]));
            cands.push(line);
            c = c + 1;
        }
        assert(lines.take(c as int) =~= lines);
        let mut matched: Vec<String> = Vec::new();
        let n: usize = self.active.len();
        let mut i: usize = 0;
        let ghost order = self@.active.order;
        assert(texts(matched@) =~= Seq::empty());
        while i < n
            invariant
                i <= n,
                n == order.len(),
                order == self@.active.order,
                texts(cands@) == lines,
                texts(matched@) == Instances::matching(order.take(i as int), lines, entity_key@),
            decreases n - i,
        {
            let ik = self.active.key_at(i);
            assert(order.take(i + 1).drop_last() =~= order.take(i as int));
            assert(order.take(i + 1).last() == ik@);
            if same(instance_entity_key(ik), entity_key) {
                let k = instance_spell_key(ik);
                if lists(&cands, k) && !lists(&matched, k) {
                    let line = k.to_owned();
                    assert(texts(matched@.push(line)) =~= texts(matched@).push(line@));
                    matched.push(line);
                }
            }
            i = i + 1;
        }
        assert(order.take(n as int) =~= order);
        let ghost all = texts(matched@);
        let ghost before = self@;
        let ghost learned = stats@;
        let mut m: usize = 0;
        assert(all.take(0) =~= Seq::empty());
        while m < matched.len()
            invariant
                m <= matched.len(),
                all == texts(matched@),
                (self@, stats@) == before.remove_each(
                    all.take(m as int),
                    entity_key@,
                    ts,
                    learned,
                    pets@,
                ),
                before.wf() ==> self@.wf(),
            decreases matched.len() - m,
        {
            assert(all.take(m + 1).drop_last() =~= all.take(m as int));
            assert(all.take(m + 1).last() == matched@[m as int]@);
            self.remove_authoritative(matched[m].as_str(), entity_key, ts, stats, pets);
            m = m + 1;
        }
        assert(all.take(m as int) =~= all);
    }

    /// The offline-gap PAUSE, and the asymmetry it turns on. A beneficial instance that survives an
    /// absence has its clock shifted forward by it; a debuff keeps burning down. `from_ts` is the last
    /// instant the character is KNOWN to have been in the world, so only what predates it is shifted.
    pub fn on_offline_pause(
        &mut self,
        from_ts: i64,
        offline_ms: i64,
        stats: &SpellStats,
        pets: &PetEntities,
    )
        requires
            old(self)@.wf(),
            offline_ms > 0 ==> old(self)@.pause_fits(from_ts, offline_ms, stats@),
        ensures
            final(self)@ == old(self)@.offline_pause(from_ts, offline_ms, stats@, pets@),
            final(self)@.wf(),
    {
        if offline_ms <= 0 {
            return;
        }
        self.pause_records(from_ts, offline_ms, stats, pets);
        let ghost mid = self@;
        let ghost before = old(self)@;
        let keys = self.active.keys();
        let mut i: usize = 0;
        while i < keys.len()
            invariant
                i <= keys.len(),
                offline_ms > 0,
                before == old(self)@,
                before.active.wf(),
                mid.active.wf(),
                before.pause_fits(from_ts, offline_ms, stats@),
                texts(keys@) == mid.active.order,
                mid.active.order == before.active.order,
                mid.active.at.dom() == before.active.at.dom(),
                mid.open.at.dom() == before.open.at.dom(),
                forall|k: Seq<char>|
                    #[trigger] before.active.at.contains_key(k) ==> mid.active.at[k] == (
                    if before.open.has(k) {
                        before.paused_row(
                            k,
                            before.active.at[k],
                            from_ts,
                            offline_ms,
                            stats@,
                            pets@,
                        )
                    } else {
                        before.active.at[k]
                    }),
                self@.open == mid.open,
                self@.pending == mid.pending,
                self@.expired == mid.expired,
                self@.active.order == mid.active.order,
                self@.active.at.dom() == mid.active.at.dom(),
                forall|j: int|
                    0 <= j < i ==> self@.active.at[#[trigger] mid.active.order[j]]
                        == before.paused_row(
                        mid.active.order[j],
                        before.active.at[mid.active.order[j]],
                        from_ts,
                        offline_ms,
                        stats@,
                        pets@,
                    ),
                forall|j: int|
                    i <= j < keys.len() ==> self@.active.at[#[trigger] mid.active.order[j]]
                        == mid.active.at[mid.active.order[j]],
            decreases keys.len() - i,
        {
            let ik = keys[i].as_str();
            assert(ik@ == mid.active.order[i as int]);
            assert(mid.active.order.contains(ik@));
            assert(mid.active.at.contains_key(ik@));
            assert(before.active.at.dom().contains(ik@));
            assert(before.active.has(ik@));
            assert(before.open.at.dom().contains(ik@) == mid.open.at.dom().contains(ik@));
            if !self.open.contains_key(ik) {
                let a = self.active.get_mut(ik).unwrap();
                if a.cls != BuffClass::Debuff && a.started_ts <= from_ts {
                    a.started_ts = a.started_ts + offline_ms;
                }
            }
            assert(self@.active.at.dom() =~= mid.active.at.dom());
            i = i + 1;
        }
        proof {
            let f = |k: Seq<char>, a: Active|
                before.paused_row(k, a, from_ts, offline_ms, stats@, pets@);
            assert forall|k: Seq<char>| #[trigger] before.active.at.contains_key(k) implies
                self@.active.at[k] == f(k, before.active.at[k]) by {
                assert(mid.active.order.contains(k));
                let j = choose|j: int| 0 <= j < mid.active.order.len() && mid.active.order[j] == k;
                assert(self@.active.at[mid.active.order[j]] == before.paused_row(
                    mid.active.order[j],
                    before.active.at[mid.active.order[j]],
                    from_ts,
                    offline_ms,
                    stats@,
                    pets@,
                ));
            }
            before.active.lemma_changed(f, self@.active);
        }
        self.pending = None;
    }

    /// The records' half of the pause: each one the absence passed over is marked, a buff's clock is
    /// moved, and its row is re-projected.
    fn pause_records(
        &mut self,
        from_ts: i64,
        offline_ms: i64,
        stats: &SpellStats,
        pets: &PetEntities,
    )
        requires
            old(self)@.wf(),
            offline_ms > 0,
            old(self)@.pause_fits(from_ts, offline_ms, stats@),
        ensures
            final(self)@.open == old(self)@.open.change(
                |k: Seq<char>, o: Open|
                    Instances::paused_record(o, from_ts, offline_ms, stats@),
            ),
            final(self)@.open.at.dom() == old(self)@.open.at.dom(),
            final(self)@.wf(),
            final(self)@.pending == old(self)@.pending,
            final(self)@.expired == old(self)@.expired,
            old(self)@.active.wf(),
            final(self)@.active.order == old(self)@.active.order,
            final(self)@.active.at.dom() == old(self)@.active.at.dom(),
            forall|k: Seq<char>|
                #[trigger] old(self)@.active.at.contains_key(k) ==> final(self)@.active.at[k] == (
                if old(self)@.open.has(k) {
                    old(self)@.paused_row(
                        k,
                        old(self)@.active.at[k],
                        from_ts,
                        offline_ms,
                        stats@,
                        pets@,
                    )
                } else {
                    old(self)@.active.at[k]
                }),
    {
        let keys = self.open.keys();
        let rows: usize = self.active.len();
        let ghost before = self@;
        let ghost order = before.open.order;
        let mut i: usize = 0;
        while i < keys.len()
            invariant
                i <= keys.len(),
                offline_ms > 0,
                before == old(self)@,
                before.wf(),
                before.open.wf(),
                before.active.wf(),
                before.pause_fits(from_ts, offline_ms, stats@),
                order == before.open.order,
                texts(keys@) == order,
                self@.pending == before.pending,
                self@.expired == before.expired,
                self@.open.order == order,
                self@.open.at.dom() == before.open.at.dom(),
                self@.wf(),
                forall|j: int|
                    0 <= j < i ==> self@.open.at[#[trigger] order[j]] == Instances::paused_record(
                        before.open.at[order[j]],
                        from_ts,
                        offline_ms,
                        stats@,
                    ),
                forall|j: int|
                    i <= j < keys.len() ==> self@.open.at[#[trigger] order[j]]
                        == before.open.at[order[j]],
                self@.active.order == before.active.order,
                self@.active.at.dom() == before.active.at.dom(),
                forall|j: int|
                    0 <= j < i && before.active.has(#[trigger] order[j]) ==> self@.active.at[order[j]]
                        == before.paused_row(
                        order[j],
                        before.active.at[order[j]],
                        from_ts,
                        offline_ms,
                        stats@,
                        pets@,
                    ),
                forall|j: int|
                    i <= j < keys.len() && before.active.has(#[trigger] order[j])
                        ==> self@.active.at[order[j]] == before.active.at[order[j]],
                forall|k: Seq<char>|
                    #[trigger] before.active.at.contains_key(k) && !before.open.has(k)
                        ==> self@.active.at[k] == before.active.at[k],
            decreases keys.len() - i,
        {
            let ik = keys[i].as_str();
            assert(ik@ == order[i as int]);
            assert(order.contains(ik@));
            assert(before.open.has(ik@));
            assert(self@.open.at.dom().contains(ik@));
            assert(self@.active.at.dom().contains(ik@) == before.active.at.dom().contains(ik@));
            let ghost was = self@;
            assert(was.open.at[ik@] == before.open.at[ik@]);
            let o = self.open.get_mut(ik).unwrap();
            let oldest: i64 = o.group.oldest_ts();
            if oldest <= from_ts {
                o.spanned_gap = true;
                let is_debuff: bool = stats.class_of(o.spell_key.as_str()) == BuffClass::Debuff;
                if !is_debuff {
                    o.group.shift_by(offline_ms, from_ts);
                    assert(self@.open.at[ik@] == Instances::paused_record(
                        before.open.at[ik@],
                        from_ts,
                        offline_ms,
                        stats@,
                    ));
                    self.restat(ik, stats, pets);
                }
            }
            assert(self@.open.at[ik@] == Instances::paused_record(
                before.open.at[ik@],
                from_ts,
                offline_ms,
                stats@,
            ));
            assert(self@.open.at.dom() =~= before.open.at.dom());
            assert(self@.active.at.dom() =~= before.active.at.dom());
            i = i + 1;
        }
        proof {
            let f = |k: Seq<char>, o: Open|
                Instances::paused_record(o, from_ts, offline_ms, stats@);
            assert forall|k: Seq<char>| #[trigger] before.open.at.contains_key(k) implies
                self@.open.at[k] == f(k, before.open.at[k]) by {
                assert(order.contains(k));
                let j = choose|j: int| 0 <= j < order.len() && order[j] == k;
                assert(self@.open.at[order[j]] == Instances::paused_record(
                    before.open.at[order[j]],
                    from_ts,
                    offline_ms,
                    stats@,
                ));
            }
            before.open.lemma_changed(f, self@.open);
            assert forall|k: Seq<char>| #[trigger] before.active.at.contains_key(k) && before.open.has(
                k,
            ) implies self@.active.at[k] == before.paused_row(
                k,
                before.active.at[k],
                from_ts,
                offline_ms,
                stats@,
                pets@,
            ) by {
                assert(order.contains(k));
                let j = choose|j: int| 0 <= j < order.len() && order[j] == k;
                assert(before.active.has(order[j]));
            }
        }
    }

    /// Session-gap clear: wipe live actives, opens and the pending cast.
    pub fn clear_for_gap(&mut self)
        ensures
            final(self)@ == (Instances { expired: old(self)@.expired, ..Instances::empty() }),
    {
        self.active.clear();
        self.open.clear();
        self.pending = None;
    }

    /// Drop every instance whose clock predates `ts`: the unexplained-hole resolution.
    pub fn drop_predating(&mut self, ts: i64)
        requires
            old(self)@.wf(),
        ensures
            final(self)@ == old(self)@.drop_predating(ts),
            final(self)@.wf(),
    {
        let row_stays = |k: &str, a: &ActiveBuff| -> (b: bool)
            ensures b == (a@.started_ts > ts)
            { a.started_ts > ts };
        self.active.retain(row_stays, Ghost(|k: Seq<char>, a: Active| a.started_ts > ts));
        let stays = |k: &str, o: &OpenCast| -> (b: bool)
            requires o@.group.landings.len() > 0
            ensures b == (o@.group.oldest_ts() > ts)
            { o.group.oldest_ts() > ts };
        self.open.retain(stays, Ghost(|k: Seq<char>, o: Open| o.group.oldest_ts() > ts));
        let predates: bool = match &self.pending {
            Some(p) => p.began_ts <= ts,
            None => false,
        };
        if predates {
            self.pending = None;
        }
    }

    /// A player death strips SELF buffs: censor open self casts and clear their actives. A pending
    /// self cast is abandoned; a debuff or pet cast survives.
    pub fn on_player_death(&mut self, stats: &SpellStats, pets: &PetEntities)
        ensures
            final(self)@ == old(self)@.player_death(stats@, pets@),
            old(self)@.wf() ==> final(self)@.wf(),
    {
        let stays = |k: &str, o: &OpenCast| -> (b: bool)
            ensures b == (o@.entity_key != SELF_KEY@)
            { !same(o.entity_key.as_str(), SELF_KEY) };
        self.open.retain(stays, Ghost(|k: Seq<char>, o: Open| o.entity_key != SELF_KEY@));
        let row_stays = |k: &str, a: &ActiveBuff| -> (b: bool)
            ensures b == !a@.is_self
            { !a.is_self };
        self.active.retain(row_stays, Ghost(|k: Seq<char>, a: Active| !a.is_self));
        let abandoned: bool = match &self.pending {
            Some(p) => BuffInstances::infer_cast_disposition(
                p.key.as_str(),
                &p.emote_subject_key,
                stats,
                pets,
            ) == Disposition::Zelf,
            None => false,
        };
        if abandoned {
            self.pending = None;
        }
    }

    /// Retire an ENTITY: censor every open cast and active instance bound to it, buff and debuff
    /// alike.
    pub fn retire_entity(&mut self, entity_key: &str, pets: &mut PetEntities)
        ensures
            final(self)@ == old(self)@.retire_entity(entity_key@),
            final(pets)@ == old(pets)@.retire_slots(entity_key@),
            old(self)@.wf() ==> final(self)@.wf(),
    {
        let stays = |k: &str, o: &OpenCast| -> (b: bool)
            ensures b == (o@.entity_key != entity_key@)
            { !same(o.entity_key.as_str(), entity_key) };
        self.open.retain(stays, Ghost(|k: Seq<char>, o: Open| o.entity_key != entity_key@));
        let row_stays = |k: &str, a: &ActiveBuff| -> (b: bool)
            ensures b == (entity_part(k@) != entity_key@)
            { !same(instance_entity_key(k), entity_key) };
        self.active.retain(
            row_stays,
            Ghost(|k: Seq<char>, a: Active| entity_part(k) != entity_key@),
        );
        pets.retire_slots(entity_key);
    }

    /// Zone: the player keeps self buffs, a SUMMONED pet follows and keeps its buffs, a CHARMED pet
    /// is left behind, and so are hostile mobs.
    pub fn on_zone(&mut self, stats: &SpellStats, pets: &mut PetEntities)
        ensures
            final(self)@ == old(self)@.zone(stats@, old(pets)@),
            final(pets)@ == old(pets)@.clear_on_zone(),
            old(self)@.wf() ==> final(self)@.wf(),
    {
        let stays = |k: &str, o: &OpenCast| -> (b: bool)
            ensures b == !left_behind(o@.disp)
            { !open_left_behind_on_zone(o) };
        self.open.retain(stays, Ghost(|k: Seq<char>, o: Open| !left_behind(o.disp)));
        let row_stays = |k: &str, a: &ActiveBuff| -> (b: bool)
            ensures
                b == (a@.cls != BuffClass::Debuff && !(a@.disposition matches Some(d)
                    && left_behind(d)))
            {
                let behind: bool = match a.disposition {
                    Some(d) => d == Disposition::Charmed || d == Disposition::Hostile,
                    None => false,
                };
                a.cls != BuffClass::Debuff && !behind
            };
        self.active.retain(
            row_stays,
            Ghost(
                |k: Seq<char>, a: Active|
                    a.cls != BuffClass::Debuff && !(a.disposition matches Some(d) && left_behind(d)),
            ),
        );
        pets.clear_on_zone();
        let abandoned: bool = match &self.pending {
            Some(p) => {
                let disp: Disposition = BuffInstances::infer_cast_disposition(
                    p.key.as_str(),
                    &p.emote_subject_key,
                    stats,
                    pets,
                );
                disp == Disposition::Charmed || disp == Disposition::Hostile
            },
            None => false,
        };
        if abandoned {
            self.pending = None;
        }
    }

    /// A mob of this name died: the death censor, and the one path every death shape reaches.
    ///
    /// It closes ONE landing of each record on that name, not the row, and mints no CYCLE: a
    /// land-to-death span is not a duration. What it does mint is a LOWER BOUND, behind the rails of
    /// [`death_bound_span`].
    pub fn on_entity_death(
        &mut self,
        entity_key: &str,
        ts: i64,
        stats: &mut SpellStats,
        pets: &PetEntities,
    )
        ensures
            (final(self)@, final(stats)@) == old(self)@.entity_death(
                entity_key@,
                ts,
                old(stats)@,
                pets@,
            ),
            old(self)@.wf() ==> final(self)@.wf(),
    {
        let keys = self.open.keys();
        let ghost all = self@.open.order;
        let ghost before = self@;
        let ghost learned = stats@;
        let mut i: usize = 0;
        assert(all.take(0) =~= Seq::empty());
        while i < keys.len()
            invariant
                i <= keys.len(),
                all == texts(keys@),
                (self@, stats@) == before.censor_each(
                    all.take(i as int),
                    entity_key@,
                    ts,
                    learned,
                    pets@,
                ),
                before.wf() ==> self@.wf(),
            decreases keys.len() - i,
        {
            assert(all.take(i + 1).drop_last() =~= all.take(i as int));
            assert(all.take(i + 1).last() == keys@[i as int]@);
            self.censor_open_on_death(keys[i].as_str(), entity_key, ts, stats, pets);
            i = i + 1;
        }
        assert(all.take(i as int) =~= all);
        let open = &self.open;
        let stays = |k: &str, a: &ActiveBuff| -> (b: bool)
            ensures b == (open@.has(k@) || !censors_active(a@, entity_part(k@), entity_key@))
            { open.contains_key(k) || !death_censors_active(a, instance_entity_key(k), entity_key) };
        let ghost inst = self@;
        self.active.retain(
            stays,
            Ghost(
                |k: Seq<char>, a: Active|
                    inst.open.has(k) || !censors_active(a, entity_part(k), entity_key@),
            ),
        );
    }

    /// One open record against one corpse: measure the lower bound, then close its oldest landing and
    /// contaminate what is left. The bound is read and minted BEFORE the close, because the close
    /// consumes the landing it measures.
    fn censor_open_on_death(
        &mut self,
        ik: &str,
        entity_key: &str,
        ts: i64,
        stats: &mut SpellStats,
        pets: &PetEntities,
    )
        ensures
            (final(self)@, final(stats)@) == old(self)@.censor_on_death(
                ik@,
                entity_key@,
                ts,
                old(stats)@,
                pets@,
            ),
            old(self)@.wf() ==> final(self)@.wf(),
    {
        let ghost before = self@;
        let (key, caster, spell, ms): (String, String, String, Option<i64>) = match self.open.get(ik) {
            None => {
                return;
            },
            Some(o) => {
                let is_debuff: bool = stats.class_of(o.spell_key.as_str()) == BuffClass::Debuff;
                if !death_censors_open(o, entity_key, is_debuff) {
                    return;
                }
                let ms: Option<i64> = if is_debuff && same(o.entity_key.as_str(), entity_key) {
                    death_bound_span(o, entity_key, ts, self.active.contains_key(ik), stats)
                } else {
                    None
                };
                (o.spell_key.clone(), o.caster.clone(), o.spell.clone(), ms)
            },
        };
        if let Some(ms) = ms {
            self.add_sample(
                key.as_str(),
                caster.as_str(),
                spell.as_str(),
                DurationSample { ms, ts, censored: false, death_bound: true },
                stats,
                pets,
            );
        }
        let ghost mid = self@;
        assert(mid.open == before.open);
        let o = self.open.get_mut(ik).unwrap();
        o.group.contaminate_all();
        o.group.close_oldest(ts);
        let empty: bool = o.group.is_empty();
        if !empty {
            self.restat(ik, stats, pets);
        } else {
            proof {
                mid.open.lemma_put_del(ik@, self@.open.at[ik@]);
            }
            self.open.remove(ik);
            self.active.remove(ik);
        }
    }

    /// Hygiene sweep: retire any active past its per-spell cap.
    ///
    /// `held_before_ts` is the last-known-online instant of a log hole whose explanation has not
    /// arrived yet (0 when there is none). A BUFF older than it is EXEMPT for the length of that wait;
    /// DEBUFFS get no exemption.
    ///
    /// The unwitnessed cull takes the ROW and leaves the PAIRING RECORD, which is what lets a late
    /// wear-off still mint a sample. The long stop means "we lost the thread" and is the only one that
    /// sheds the record's landings too.
    ///
    /// Returns whether it changed the PUBLISHED set. The reaping of orphaned records is not counted:
    /// they are not in the snapshot.
    pub fn sweep_hygiene(
        &mut self,
        now: i64,
        held_before_ts: i64,
        stats: &SpellStats,
        pets: &PetEntities,
    ) -> (changed: bool)
        requires
            old(self)@.wf(),
        ensures
            final(self)@ == old(self)@.sweep(now, held_before_ts, stats@, pets@),
            changed == old(self)@.sweep_changes(now, held_before_ts, stats@),
            final(self)@.wf(),
    {
        let mut changed = false;
        let keys = self.active.keys();
        let records: usize = self.open.len();
        let ghost before = self@;
        let ghost order = before.active.order;
        let mut doomed: Vec<String> = Vec::new();
        let mut i: usize = 0;
        while i < keys.len()
            invariant
                i <= keys.len(),
                before == old(self)@,
                before.wf(),
                before.open.wf(),
                before.active.wf(),
                order == before.active.order,
                texts(keys@) == order,
                self@.pending == before.pending,
                self@.expired == before.expired,
                self@.active.order == order,
                self@.active.at.dom() == before.active.at.dom(),
                self@.open.order == before.open.order,
                self@.open.at.dom() == before.open.at.dom(),
                forall|j: int|
                    0 <= j < i && before.outlives(#[trigger] order[j], now, held_before_ts, stats@)
                        ==> self@.active.at[order[j]] == before.swept_row(
                        order[j],
                        before.active.at[order[j]],
                        now,
                        held_before_ts,
                        stats@,
                        pets@,
                    ),
                forall|j: int|
                    i <= j < keys.len() ==> self@.active.at[#[trigger] order[j]]
                        == before.active.at[order[j]],
                forall|j: int|
                    0 <= j < i && before.open.has(#[trigger] order[j]) ==> self@.open.at[order[j]]
                        == before.swept_record(
                        order[j],
                        before.open.at[order[j]],
                        now,
                        held_before_ts,
                        stats@,
                    ),
                forall|j: int|
                    i <= j < keys.len() && before.open.has(#[trigger] order[j])
                        ==> self@.open.at[order[j]] == before.open.at[order[j]],
                forall|k: Seq<char>|
                    #[trigger] before.open.at.contains_key(k) && !before.active.has(k)
                        ==> self@.open.at[k] == before.open.at[k],
                forall|j: int|
                    0 <= j < i ==> (texts(doomed@).contains(#[trigger] order[j])
                        <==> !before.outlives(order[j], now, held_before_ts, stats@)),
                forall|m: int|
                    0 <= m < doomed.len() ==> order.take(i as int).contains(
                        #[trigger] texts(doomed@)[m],
                    ),
                changed == exists|j: int|
                    0 <= j < i && (Instances::lost(
                        #[trigger] order[j],
                        before.active.at[order[j]],
                        now,
                        held_before_ts,
                        stats@,
                    ) || Instances::culled(
                        order[j],
                        before.active.at[order[j]],
                        now,
                        held_before_ts,
                        stats@,
                    )),
            decreases keys.len() - i,
        {
            let ik = keys[i].as_str();
            assert(ik@ == order[i as int]);
            assert(order.contains(ik@));
            assert(before.active.has(ik@));
            assert(self@.active.at.dom().contains(ik@));
            assert(self@.open.at.dom().contains(ik@) == before.open.at.dom().contains(ik@));
            let ghost was = self@;
            let ghost doomed0 = texts(doomed@);
            let a = self.active.get(ik).unwrap();
            assert(a@ == before.active.at[ik@]);
            let held: bool = held_before_ts > 0 && a.cls != BuffClass::Debuff && a.started_ts
                <= held_before_ts;
            let mut goes: bool = false;
            if !is_set(a.permanent) && !held {
                let long_cap: i128 = hygiene_cap(a, stats.db_duration_for(instance_spell_key(ik)));
                let elapsed: i128 = now as i128 - a.started_ts as i128;
                if 4 * elapsed > long_cap {
                    let cutoff: i128 = floor_quarter(4 * now as i128 - long_cap);
                    goes = self.retire_expired(ik, cutoff, stats, pets);
                    changed = true;
                } else {
                    let overdue: bool = match unwitnessed_cull_cap(a) {
                        Some(cap) => elapsed > cap,
                        None => false,
                    };
                    if overdue {
                        goes = true;
                        changed = true;
                    }
                }
            }
            assert(goes == !before.outlives(ik@, now, held_before_ts, stats@));
            if goes {
                let gone = ik.to_owned();
                assert(texts(doomed@.push(gone)) =~= texts(doomed@).push(gone@));
                doomed.push(gone);
            }
            proof {
                assert(self@.active.at.dom() =~= before.active.at.dom());
                assert(self@.open.at.dom() =~= before.open.at.dom());
                assert(order.take(i + 1) =~= order.take(i as int).push(ik@));
                let d = texts(doomed@);
                assert forall|j: int| 0 <= j < i + 1 implies (d.contains(#[trigger] order[j])
                    <==> !before.outlives(order[j], now, held_before_ts, stats@)) by {
                    if j < i {
                        assert(order[j] != order[i as int]);
                        if doomed0.contains(order[j]) {
                            let m = choose|m: int| 0 <= m < doomed0.len() && doomed0[m] == order[j];
                            assert(d[m] == order[j]);
                        }
                        if d.contains(order[j]) {
                            let m = choose|m: int| 0 <= m < d.len() && d[m] == order[j];
                            assert(m < doomed0.len());
                            assert(doomed0[m] == order[j]);
                        }
                    } else {
                        if goes {
                            assert(d[d.len() - 1] == order[j]);
                        } else if d.contains(order[j]) {
                            let m = choose|m: int| 0 <= m < d.len() && d[m] == order[j];
                            assert(order.take(i as int).contains(doomed0[m]));
                            let x = choose|x: int|
                                0 <= x < order.take(i as int).len() && order.take(i as int)[x]
                                    == doomed0[m];
                            assert(order[x] == order[i as int]);
                        }
                    }
                }
                assert forall|m: int| 0 <= m < doomed.len() implies order.take(i + 1).contains(
                    #[trigger] d[m],
                ) by {
                    if m < doomed0.len() {
                        assert(d[m] == doomed0[m]);
                        let x = choose|x: int|
                            0 <= x < order.take(i as int).len() && order.take(i as int)[x]
                                == doomed0[m];
                        assert(order.take(i + 1)[x] == d[m]);
                    } else {
                        assert(order.take(i + 1)[i as int] == d[m]);
                    }
                }
                assert forall|j: int| 0 <= j < order.len() && j != i implies #[trigger] order[j]
                    != ik@ by {}
            }
            i = i + 1;
        }
        let ghost mid = self@;
        let row_stays = |k: &str, a: &ActiveBuff| -> (b: bool)
            ensures b == !texts(doomed@).contains(k@)
            { !lists(&doomed, k) };
        self.active.retain(
            row_stays,
            Ghost(|k: Seq<char>, a: Active| !texts(doomed@).contains(k)),
        );
        let stays = |k: &str, o: &OpenCast| -> (b: bool)
            ensures b == (o@.group.landings.len() > 0)
            { !o.group.is_empty() };
        self.open.retain(stays, Ghost(|k: Seq<char>, o: Open| o.group.landings.len() > 0));
        proof {
            let f = |k: Seq<char>, a: Active|
                before.swept_row(k, a, now, held_before_ts, stats@, pets@);
            let g = |k: Seq<char>, o: Open|
                before.swept_record(k, o, now, held_before_ts, stats@);
            let gone = |k: Seq<char>, a: Active| !texts(doomed@).contains(k);
            let lives = |k: Seq<char>, a: Active|
                before.outlives(k, now, held_before_ts, stats@);
            let rows = before.active.change(f);
            assert(mid.active.at.dom() =~= rows.at.dom());
            assert forall|k: Seq<char>| #[trigger] mid.active.at.contains_key(k) implies (gone(
                k,
                mid.active.at[k],
            ) == lives(k, rows.at[k])) && (gone(k, mid.active.at[k]) ==> mid.active.at[k]
                == rows.at[k]) by {
                assert(before.active.at.dom().contains(k));
                assert(before.active.at.contains_key(k));
                assert(order.contains(k));
                let j = choose|j: int| 0 <= j < order.len() && order[j] == k;
                assert(texts(doomed@).contains(order[j]) <==> !before.outlives(
                    order[j],
                    now,
                    held_before_ts,
                    stats@,
                ));
            }
            assert(mid.active.wf()) by {
                assert forall|k: Seq<char>| mid.active.order.contains(k)
                    <==> #[trigger] mid.active.at.contains_key(k) by {
                    assert(mid.active.at.dom().contains(k) == before.active.at.dom().contains(k));
                    assert(before.active.at.contains_key(k) == before.active.order.contains(k));
                }
            }
            mid.active.lemma_keep_same(gone, rows, lives);
            assert forall|k: Seq<char>| #[trigger] before.open.at.contains_key(k) implies
                mid.open.at[k] == g(k, before.open.at[k]) by {
                if before.active.has(k) {
                    assert(before.active.at.contains_key(k));
                    assert(order.contains(k));
                    let j = choose|j: int| 0 <= j < order.len() && order[j] == k;
                    assert(before.open.has(order[j]));
                }
            }
            before.open.lemma_changed(g, mid.open);
        }
        reap_orphaned_open(&mut self.open, &self.active, stats, now);
        proof {
            let ch = before.sweep_changes(now, held_before_ts, stats@);
            if changed {
                let j = choose|j: int|
                    0 <= j < order.len() && (Instances::lost(
                        #[trigger] order[j],
                        before.active.at[order[j]],
                        now,
                        held_before_ts,
                        stats@,
                    ) || Instances::culled(
                        order[j],
                        before.active.at[order[j]],
                        now,
                        held_before_ts,
                        stats@,
                    ));
                assert(order.contains(order[j]));
                assert(before.active.at.contains_key(order[j]));
                assert(before.active.has(order[j]));
            }
            if ch {
                let k = choose|k: Seq<char>|
                    #[trigger] before.active.has(k) && (Instances::lost(
                        k,
                        before.active.at[k],
                        now,
                        held_before_ts,
                        stats@,
                    ) || Instances::culled(k, before.active.at[k], now, held_before_ts, stats@));
                assert(before.active.at.contains_key(k));
                assert(order.contains(k));
                let j = choose|j: int| 0 <= j < order.len() && order[j] == k;
                assert(order[j] == k);
            }
        }
        changed
    }

    /// The long-stop path: shed the landings at or before `cutoff`. Says whether the row goes, which
    /// it does when no landing is left to stand for.
    fn retire_expired(&mut self, ik: &str, cutoff: i128, stats: &SpellStats, pets: &PetEntities) -> (goes: bool)
        requires
            old(self)@.active.has(ik@),
        ensures
            goes == !(old(self)@.open.has(ik@) && old(self)@.open.at[ik@].group.drop_expired(
                cutoff as int,
            ).landings.len() > 0),
            final(self)@.pending == old(self)@.pending,
            final(self)@.expired == old(self)@.expired,
            old(self)@.open.has(ik@) ==> final(self)@.open == old(self)@.open.put(
                ik@,
                Open {
                    group: old(self)@.open.at[ik@].group.drop_expired(cutoff as int),
                    ..old(self)@.open.at[ik@]
                },
            ),
            !old(self)@.open.has(ik@) ==> final(self)@.open == old(self)@.open,
            goes ==> final(self)@.active == old(self)@.active,
            !goes ==> final(self)@.active == old(self)@.active.put(
                ik@,
                restated(
                    old(self)@.active.at[ik@],
                    Open {
                        group: old(self)@.open.at[ik@].group.drop_expired(cutoff as int),
                        ..old(self)@.open.at[ik@]
                    },
                    stats@,
                    pets@,
                ),
            ),
    {
        if self.open.contains_key(ik) {
            let open = self.open.get_mut(ik).unwrap();
            open.group.drop_expired(cutoff);
            let empty: bool = open.group.is_empty();
            if !empty {
                self.restat(ik, stats, pets);
                return false;
            }
        }
        true
    }
}

/// A number of quarters in whole units, rounded down.
fn floor_quarter(q: i128) -> (r: i128)
    requires
        -1_000_000_000_000_000_000_000 <= q <= 1_000_000_000_000_000_000_000,
    ensures
        r == q as int / 4,
{
    if q >= 0 {
        q / 4
    } else {
        -((-q + 3) / 4)
    }
}

// ---- what the store keeps -------------------------------------------------------------------

impl Instances {
    /// A landing that is not refused opens a row. A permanent one keeps no record to pair with a fade;
    /// any other keeps one.
    pub proof fn a_landing_opens_a_row(
        self,
        spell: Seq<char>,
        spec: Landed,
        stats: Learned,
        pets: Pets,
    )
        requires
            !Instances::refuses(spell, spec, stats),
        ensures
            ({
                let (inst, learned, names) = self.apply(spell, spec, stats, pets);
                let ik = inst_key(spec.line(spell), spec.entity());
                let permanent = never_expires(
                    spec.on_self(),
                    stats.permanent(spec.line(spell)),
                    spec.illusion,
                    spec.ts,
                    spec.permanent_illusion_owned_ts,
                );
                &&& inst.active.has(ik)
                &&& inst.open.has(ik) <==> !permanent
                &&& inst.active.at[ik].permanent == Some(true) <==> permanent
                &&& permanent ==> inst.active.at[ik].overlay_duration_ms is None
            }),
    {
    }

    /// Only one illusion stands on an entity: a new one replaces every other, row and record, and
    /// touches the presence of nothing else.
    pub proof fn one_illusion_on_an_entity(
        self,
        spell: Seq<char>,
        spec: Landed,
        stats: Learned,
        pets: Pets,
        k: Seq<char>,
    )
        requires
            !Instances::refuses(spell, spec, stats),
            spec.illusion,
        ensures
            ({
                let (inst, learned, names) = self.apply(spell, spec, stats, pets);
                let ik = inst_key(spec.line(spell), spec.entity());
                let other = k != ik && entity_part(k) == spec.entity() && learned.illusion(
                    spell_part(k),
                );
                &&& other ==> !inst.active.has(k) && !inst.open.has(k)
                &&& k != ik && !other ==> inst.active.get(k) == self.active.get(k) && inst.open.get(k)
                    == self.open.get(k)
            }),
    {
    }

    /// A fade is about its own instance: the records of all others stand as they stood, and so does the
    /// presence of their rows.
    pub proof fn a_fade_touches_its_own_instance(
        self,
        key: Seq<char>,
        entity_key: Seq<char>,
        spell: Seq<char>,
        ts: i64,
        stats: Learned,
        pets: Pets,
        k: Seq<char>,
    )
        requires
            k != inst_key(key, entity_key),
        ensures
            ({
                let (inst, learned) = self.record_fade(key, entity_key, spell, ts, stats, pets);
                &&& inst.open.get(k) == self.open.get(k)
                &&& inst.active.has(k) == self.active.has(k)
            }),
    {
    }

    /// A fade of an instance that was never tracked mints nothing.
    pub proof fn an_untracked_fade_mints_nothing(
        self,
        key: Seq<char>,
        entity_key: Seq<char>,
        spell: Seq<char>,
        ts: i64,
        stats: Learned,
        pets: Pets,
    )
        requires
            !self.open.has(inst_key(key, entity_key)),
        ensures
            self.record_fade(key, entity_key, spell, ts, stats, pets).1.samples == stats.samples,
    {
    }

    /// A clean fade of a lone landing mints its span as the newest sample of its line and caster, and
    /// clears the row and the record.
    pub proof fn a_clean_fade_mints_its_span(
        self,
        key: Seq<char>,
        entity_key: Seq<char>,
        spell: Seq<char>,
        ts: i64,
        stats: Learned,
        pets: Pets,
    )
        requires
            self.open.has(inst_key(key, entity_key)),
            ({
                let o = self.open.at[inst_key(key, entity_key)];
                &&& !o.spanned_gap
                &&& o.group.landings.len() == 1
                &&& !o.group.landings[0].contaminated
                &&& 0 < ts - o.group.landings[0].ts <= MAX_SAMPLE_MS
            }),
        ensures
            ({
                let ik = inst_key(key, entity_key);
                let o = self.open.at[ik];
                let (inst, learned) = self.record_fade(key, entity_key, spell, ts, stats, pets);
                &&& learned.samples_of(key, o.caster) == stats.samples_of(key, o.caster).push(
                    DurationSample {
                        ms: (ts - o.group.landings[0].ts) as i64,
                        ts,
                        censored: false,
                        death_bound: false,
                    },
                )
                &&& !inst.open.has(ik)
                &&& !inst.active.has(ik)
            }),
    {
        let ik = inst_key(key, entity_key);
        let o = self.open.at[ik];
        assert(o.group.landings.drop_first().len() == 0);
    }

    /// A record that an absence passed over never mints: neither its fade nor a death teaches anything.
    pub proof fn an_absence_bars_the_sample(
        self,
        from_ts: i64,
        offline_ms: i64,
        key: Seq<char>,
        entity_key: Seq<char>,
        spell: Seq<char>,
        ts: i64,
        stats: Learned,
        pets: Pets,
    )
        requires
            offline_ms > 0,
            self.open.has(inst_key(key, entity_key)),
            self.open.at[inst_key(key, entity_key)].group.oldest_ts() <= from_ts,
        ensures
            ({
                let paused = self.offline_pause(from_ts, offline_ms, stats, pets);
                let o = paused.open.at[inst_key(key, entity_key)];
                &&& paused.record_fade(key, entity_key, spell, ts, stats, pets).1.samples == stats.samples
                &&& bound_span(o, entity_key, ts, true, stats) is None
            }),
    {
    }

    /// The pause is asymmetric: a debuff's clock is left where it was, and the clock of a buff that
    /// predates the absence moves by all of it.
    pub proof fn debuffs_do_not_pause(
        self,
        from_ts: i64,
        offline_ms: i64,
        stats: Learned,
        pets: Pets,
        k: Seq<char>,
    )
        requires
            offline_ms > 0,
            self.open.has(k),
            self.open.at[k].group.landings.len() > 0,
        ensures
            ({
                let o = self.open.at[k];
                let p = self.offline_pause(from_ts, offline_ms, stats, pets).open.at[k];
                &&& stats.class(o.spell_key) == BuffClass::Debuff ==> p.group == o.group
                &&& stats.class(o.spell_key) != BuffClass::Debuff && o.group.landings.len() == 1
                    && o.group.oldest_ts() <= from_ts && o.group.oldest_ts() + offline_ms <= i64::MAX
                    ==> p.group.landings.len() == 1 && p.group.oldest_ts() == o.group.oldest_ts()
                    + offline_ms
            }),
    {
        let o = self.open.at[k];
        if o.group.landings.len() == 1 {
            let m = o.group.landings.map_values(
                crate::buff_rounds::shifted_by(offline_ms, from_ts),
            );
            assert(m.drop_last() =~= Seq::empty());
            reveal_with_fuel(crate::buff_rounds::in_order, 2);
            reveal_with_fuel(crate::buff_rounds::placed, 2);
        }
    }

    /// The sweep leaves a permanent row alone.
    pub proof fn a_permanent_row_is_never_swept(
        self,
        now: i64,
        held: i64,
        stats: Learned,
        pets: Pets,
        k: Seq<char>,
    )
        requires
            self.active.has(k),
            self.active.at[k].permanent == Some(true),
        ensures
            self.sweep(now, held, stats, pets).active.get(k) == self.active.get(k),
    {
    }

    /// The player's own buffs are never culled for want of a witnessed end.
    pub proof fn own_buffs_are_never_culled(k: Seq<char>, a: Active, now: i64, held: i64, stats: Learned)
        requires
            a.is_self,
            a.cls == BuffClass::Buff,
        ensures
            !Instances::culled(k, a, now, held, stats),
    {
    }

    /// The cull takes the row and leaves the record, as long as a landing of it is within the retention
    /// of a record without a row: a late wear-off can still be paired.
    pub proof fn the_cull_leaves_the_record(
        self,
        now: i64,
        held: i64,
        stats: Learned,
        pets: Pets,
        k: Seq<char>,
        i: int,
    )
        requires
            self.active.has(k),
            self.open.has(k),
            Instances::culled(k, self.active.at[k], now, held, stats),
            0 <= i < self.open.at[k].group.landings.len(),
            ({
                let o = self.open.at[k];
                o.group.landings[i].ts > now - crate::buffs_shapes::learning_record_cap(
                    stats.floor(o.spell_key, o.caster),
                    crate::buffs_shapes::HYGIENE_ABSOLUTE_MS as int,
                )
            }),
        ensures
            !self.sweep(now, held, stats, pets).active.has(k),
            self.sweep(now, held, stats, pets).open.has(k),
    {
        let o = self.open.at[k];
        let cap = crate::buffs_shapes::learning_record_cap(
            stats.floor(o.spell_key, o.caster),
            crate::buffs_shapes::HYGIENE_ABSOLUTE_MS as int,
        );
        let p = |l: crate::buff_rounds::Landing| l.ts > now - cap;
        o.group.landings.lemma_filter_contains(p, i);
        assert(o.group.drop_expired(now - cap).landings =~= o.group.landings.filter(p));
        assert(o.group.landings.filter(p).len() > 0);
    }

    /// A sweep that says nothing changed left every row as it was.
    pub proof fn an_unchanged_sweep_changes_no_row(
        self,
        now: i64,
        held: i64,
        stats: Learned,
        pets: Pets,
        k: Seq<char>,
    )
        requires
            !self.sweep_changes(now, held, stats),
        ensures
            self.sweep(now, held, stats, pets).active.get(k) == self.active.get(k),
    {
        if self.active.has(k) {
            assert(!Instances::lost(k, self.active.at[k], now, held, stats));
        }
    }

    /// A corpse is about its own name: a record on an entity that bears another, and is not the unnamed
    /// hostile, stands as it stood.
    pub proof fn a_death_touches_its_own_name(
        self,
        entity_key: Seq<char>,
        ts: i64,
        stats: Learned,
        pets: Pets,
        k: Seq<char>,
    )
        requires
            self.open.has(k),
            self.open.at[k].entity_key != entity_key,
            self.open.at[k].entity_key != crate::buffs_shapes::UNKNOWN_HOSTILE@,
        ensures
            self.entity_death(entity_key, ts, stats, pets).0.open.get(k) == self.open.get(k),
    {
        self.lemma_censor_each_spares(self.open.order, entity_key, ts, stats, pets, k);
    }

    proof fn lemma_censor_each_spares(
        self,
        keys: Seq<Seq<char>>,
        entity_key: Seq<char>,
        ts: i64,
        stats: Learned,
        pets: Pets,
        k: Seq<char>,
    )
        requires
            self.open.has(k),
            self.open.at[k].entity_key != entity_key,
            self.open.at[k].entity_key != crate::buffs_shapes::UNKNOWN_HOSTILE@,
        ensures
            self.censor_each(keys, entity_key, ts, stats, pets).0.open.get(k) == self.open.get(k),
        decreases keys.len(),
    {
        if keys.len() > 0 {
            self.lemma_censor_each_spares(keys.drop_last(), entity_key, ts, stats, pets, k);
        }
    }

    /// A shared wear-off of which no candidate is live on the entity is a no-op.
    pub proof fn a_wear_off_of_nothing_live_is_a_no_op(
        self,
        cands: Seq<Seq<char>>,
        entity_key: Seq<char>,
        ts: i64,
        stats: Learned,
        pets: Pets,
    )
        requires
            forall|i: int|
                0 <= i < self.active.order.len() ==> !(entity_part(#[trigger] self.active.order[i])
                    == entity_key && cands.contains(spell_part(self.active.order[i]))),
        ensures
            self.remove_each(
                Instances::matching(self.active.order, cands, entity_key),
                entity_key,
                ts,
                stats,
                pets,
            ) == (self, stats),
    {
        lemma_matches_nothing(self.active.order, cands, entity_key);
    }

    /// A zone keeps the player's buffs and the summoned pet's, and leaves the rest behind.
    pub proof fn a_zone_keeps_what_follows(
        self,
        stats: Learned,
        pets: Pets,
        k: Seq<char>,
    )
        ensures
            ({
                let z = self.zone(stats, pets);
                &&& self.open.has(k) && (self.open.at[k].disp == Disposition::Zelf
                    || self.open.at[k].disp == Disposition::Summoned) ==> z.open.get(k)
                    == self.open.get(k)
                &&& z.open.has(k) ==> !left_behind(z.open.at[k].disp)
                &&& z.active.has(k) ==> z.active.at[k].cls == BuffClass::Buff
            }),
    {
    }
}

proof fn lemma_matches_nothing(order: Seq<Seq<char>>, cands: Seq<Seq<char>>, entity_key: Seq<char>)
    requires
        forall|i: int|
            0 <= i < order.len() ==> !(entity_part(#[trigger] order[i]) == entity_key
                && cands.contains(spell_part(order[i]))),
    ensures
        Instances::matching(order, cands, entity_key).len() == 0,
    decreases order.len(),
{
    if order.len() > 0 {
        let f = order.drop_last();
        assert forall|i: int| 0 <= i < f.len() implies !(entity_part(#[trigger] f[i]) == entity_key
            && cands.contains(spell_part(f[i]))) by {
            assert(f[i] == order[i]);
        }
        lemma_matches_nothing(f, cands, entity_key);
        assert(order.last() == order[order.len() - 1]);
    }
}

/// The learner holds what it held, but for death bounds: every line and caster has the clean window and
/// the measured cycles it had.
pub open spec fn no_cycle_between(before: Learned, after: Learned) -> bool {
    forall|key: Seq<char>, caster: Seq<char>|
        #![trigger after.samples_of(key, caster)]
        clean_window(after.samples_of(key, caster)) == clean_window(before.samples_of(key, caster))
            && cycles(after.samples_of(key, caster)) == cycles(before.samples_of(key, caster))
}

proof fn lemma_censor_mints_no_cycle(
    inst: Instances,
    ik: Seq<char>,
    entity_key: Seq<char>,
    ts: i64,
    stats: Learned,
    pets: Pets,
)
    ensures
        no_cycle_between(stats, inst.censor_on_death(ik, entity_key, ts, stats, pets).1),
{
    let after = inst.censor_on_death(ik, entity_key, ts, stats, pets).1;
    assert forall|key: Seq<char>, caster: Seq<char>|
        #![trigger after.samples_of(key, caster)]
        clean_window(after.samples_of(key, caster)) == clean_window(stats.samples_of(key, caster))
            && cycles(after.samples_of(key, caster)) == cycles(stats.samples_of(key, caster)) by {
        let s = stats.samples_of(key, caster);
        let t = after.samples_of(key, caster);
        if t != s {
            a_death_bound_is_no_cycle(s, t.last());
            assert(t =~= s.push(t.last()));
        }
    }
}

/// A line that has samples keeps having them.
proof fn lemma_samples_stay(
    inst: Instances,
    keys: Seq<Seq<char>>,
    entity_key: Seq<char>,
    ts: i64,
    stats: Learned,
    pets: Pets,
    key: Seq<char>,
    caster: Seq<char>,
)
    ensures
        stats.samples_of(key, caster).len() <= inst.censor_each(
            keys,
            entity_key,
            ts,
            stats,
            pets,
        ).1.samples_of(key, caster).len(),
    decreases keys.len(),
{
    if keys.len() > 0 {
        lemma_samples_stay(inst, keys.drop_last(), entity_key, ts, stats, pets, key, caster);
    }
}

proof fn lemma_censors_mint_no_cycle(
    inst: Instances,
    keys: Seq<Seq<char>>,
    entity_key: Seq<char>,
    ts: i64,
    stats: Learned,
    pets: Pets,
)
    ensures
        no_cycle_between(stats, inst.censor_each(keys, entity_key, ts, stats, pets).1),
    decreases keys.len(),
{
    if keys.len() > 0 {
        lemma_censors_mint_no_cycle(inst, keys.drop_last(), entity_key, ts, stats, pets);
        let (mid, learned) = inst.censor_each(keys.drop_last(), entity_key, ts, stats, pets);
        lemma_censor_mints_no_cycle(mid, keys.last(), entity_key, ts, learned, pets);
        let after = inst.censor_each(keys, entity_key, ts, stats, pets).1;
        assert forall|key: Seq<char>, caster: Seq<char>|
            #![trigger after.samples_of(key, caster)]
            clean_window(after.samples_of(key, caster)) == clean_window(
                stats.samples_of(key, caster),
            ) && cycles(after.samples_of(key, caster)) == cycles(stats.samples_of(key, caster)) by {
            let m = learned.samples_of(key, caster);
            assert(clean_window(m) == clean_window(stats.samples_of(key, caster)));
        }
    }
}

impl Instances {
    /// A death mints no cycle: it leaves the clean window of every line and caster, and the cycles that
    /// are counted, as they were. What it may add is a lower bound.
    pub proof fn a_death_mints_no_cycle(
        self,
        entity_key: Seq<char>,
        ts: i64,
        stats: Learned,
        pets: Pets,
        key: Seq<char>,
        caster: Seq<char>,
    )
        ensures
            ({
                let after = self.entity_death(entity_key, ts, stats, pets).1;
                &&& after.clean_spans(key, caster) == stats.clean_spans(key, caster)
                &&& cycles(after.samples_of(key, caster)) == cycles(stats.samples_of(key, caster))
                &&& stats.stat(key, caster) matches Some(st) ==> (after.stat(
                    key,
                    caster,
                ) matches Some(next) && next.n == st.n)
            }),
    {
        lemma_censors_mint_no_cycle(self, self.open.order, entity_key, ts, stats, pets);
        lemma_samples_stay(self, self.open.order, entity_key, ts, stats, pets, key, caster);
    }

    /// One death is evidence about one of them: a record of several landings on the name that died keeps
    /// all but the oldest, and none of those can be measured any more.
    pub proof fn a_death_closes_one_landing(
        self,
        ik: Seq<char>,
        entity_key: Seq<char>,
        ts: i64,
        stats: Learned,
        pets: Pets,
    )
        requires
            self.open.has(ik),
            self.open.at[ik].group.landings.len() > 1,
            censors_open(
                self.open.at[ik],
                entity_key,
                stats.class(self.open.at[ik].spell_key) == BuffClass::Debuff,
            ),
        ensures
            ({
                let o = self.open.at[ik];
                let (inst, learned) = self.censor_on_death(ik, entity_key, ts, stats, pets);
                let left = inst.open.at[ik].group.landings;
                &&& inst.open.has(ik)
                &&& left.len() == o.group.landings.len() - 1
                &&& forall|i: int|
                    0 <= i < left.len() ==> (#[trigger] left[i]).contaminated && left[i].ts
                        == o.group.landings[i + 1].ts
            }),
    {
    }
}

} // verus!
