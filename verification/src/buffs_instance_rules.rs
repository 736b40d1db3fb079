//! The pure rules the buff-instance store applies. Nothing here holds state or reads a clock; each
//! function answers one question the store asks while censoring, retiring or projecting an instance.
use crate::buff_rounds::{Group, HoldGroup};
use crate::buffs_shapes::{
    hygiene_cap_ms, hygiene_quarters, learning_record_cap, learning_record_cap_ms, max_of,
    unwitnessed_grace, unwitnessed_timeout_ms, BuffClass, Disposition,
    HYGIENE_ABSOLUTE_MS, UNKNOWN_HOSTILE,
};
use crate::buffs_stats::{Learned, SpellStats};
use crate::buffs_view::{Active, ActiveBuff};
use crate::jsmap::{Dict, JsMap};
use crate::text::{begins, opt_text, same, starts_with, texts};
use vstd::prelude::*;

verus! {

/// A landed instance awaiting its next fade: the record behind one row. Its group holds one landing
/// per entity of that name that is believed to hold the spell.
pub struct OpenCast {
    /// The spell's identity, never the ranked cast text.
    pub spell: String,
    /// The ranked text the cast line spelled. Display only.
    pub cast_name: Option<String>,
    /// The rank-stripped spell key.
    pub spell_key: String,
    /// The entity this instance is on.
    pub entity_key: String,
    pub group: HoldGroup,
    /// Whose cast this is.
    pub caster: String,
    /// What the entity is to the player.
    pub disp: Disposition,
    /// An absence has passed over this cast. The instance survives; its sample is refused.
    pub spanned_gap: bool,
}

/// What an [`OpenCast`] states.
#[verifier::ext_equal]
pub struct Open {
    pub spell: Seq<char>,
    pub cast_name: Option<Seq<char>>,
    pub spell_key: Seq<char>,
    pub entity_key: Seq<char>,
    pub group: Group,
    pub caster: Seq<char>,
    pub disp: Disposition,
    pub spanned_gap: bool,
}

impl View for OpenCast {
    type V = Open;

    open spec fn view(&self) -> Open {
        Open {
            spell: self.spell@,
            cast_name: opt_text(self.cast_name),
            spell_key: self.spell_key@,
            entity_key: self.entity_key@,
            group: self.group@,
            caster: self.caster@,
            disp: self.disp,
            spanned_gap: self.spanned_gap,
        }
    }
}

/// A cast in flight, not yet confirmed landed or cleared. It displays nothing.
pub struct Pending {
    pub key: String,
    pub began_ts: i64,
    /// The landing emote's subject key, once its text is recognized.
    pub emote_subject_key: Option<String>,
}

/// What a [`Pending`] states.
#[verifier::ext_equal]
pub struct InFlight {
    pub key: Seq<char>,
    pub began_ts: i64,
    pub emote_subject_key: Option<Seq<char>>,
}

impl View for Pending {
    type V = InFlight;

    open spec fn view(&self) -> InFlight {
        InFlight {
            key: self.key@,
            began_ts: self.began_ts,
            emote_subject_key: opt_text(self.emote_subject_key),
        }
    }
}

/// A mob died, and the record was on an ENEMY: a debuff, or anything on a hostile. The inferred
/// target of `unknown-hostile` is exactly the mob that just died.
pub open spec fn censors_open(o: Open, entity_key: Seq<char>, is_debuff: bool) -> bool {
    &&& is_debuff || o.disp == Disposition::Hostile
    &&& o.entity_key == entity_key || o.entity_key == UNKNOWN_HOSTILE@
}

/// The death censor's reach over open records.
pub fn death_censors_open(o: &OpenCast, entity_key: &str, is_debuff: bool) -> (r: bool)
    ensures
        r == censors_open(o@, entity_key@, is_debuff),
{
    if !is_debuff && o.disp != Disposition::Hostile {
        return false;
    }
    same(o.entity_key.as_str(), entity_key) || same(o.entity_key.as_str(), UNKNOWN_HOSTILE)
}

pub open spec fn censors_active(a: Active, a_key: Seq<char>, entity_key: Seq<char>) -> bool {
    &&& a.cls == BuffClass::Debuff || a.disposition == Some(Disposition::Hostile)
    &&& a_key == entity_key || a_key == UNKNOWN_HOSTILE@ || a.inferred_target == Some(true)
}

/// The same union for an ACTIVE row.
pub fn death_censors_active(a: &ActiveBuff, a_key: &str, entity_key: &str) -> (r: bool)
    ensures
        r == censors_active(a@, a_key@, entity_key@),
{
    let hostile: bool = match a.disposition {
        Some(d) => d == Disposition::Hostile,
        None => false,
    };
    if a.cls != BuffClass::Debuff && !hostile {
        return false;
    }
    let inferred: bool = match a.inferred_target {
        Some(b) => b,
        None => false,
    };
    same(a_key, entity_key) || same(a_key, UNKNOWN_HOSTILE) || inferred
}

/// A name the world hands out more than once begins with an article.
pub open spec fn article_named(key: Seq<char>) -> bool {
    begins(key, "a "@) || begins(key, "an "@) || begins(key, "the "@)
}

/// Read off the canonical key, which is already lowercased.
pub fn is_article_named(entity_key: &str) -> (r: bool)
    ensures
        r == article_named(entity_key@),
{
    starts_with(entity_key, "a ") || starts_with(entity_key, "an ") || starts_with(
        entity_key,
        "the ",
    )
}

/// How much longer than the current estimate an ARTICLE-named mob's bound may claim.
pub const DEATH_BOUND_MAX_ESTIMATE_MULTIPLE: i64 = 2;

/// The absolute ceiling on any bound, as a multiple of the spell database's own duration.
pub const DEATH_BOUND_MAX_DB_MULTIPLE: i64 = 3;

/// The span from a record's oldest landing to a death.
pub open spec fn death_span(o: Open, death_ts: i64) -> int {
    death_ts - o.group.landings[0].ts
}

/// Every rail that a death bound must pass: a living row, a witnessed channel, no absence, one
/// landing, a span above the current estimate, within twice that for a name that others may bear,
/// and within three times what the catalog states.
pub open spec fn teaches(
    o: Open,
    entity_key: Seq<char>,
    death_ts: i64,
    row_lives: bool,
    stats: Learned,
) -> bool {
    let db = stats.db_duration(o.spell_key);
    let est = stats.estimate(o.spell_key, o.caster).ms;
    let span = death_span(o, death_ts);
    &&& row_lives
    &&& stats.wear_off.contains(o.spell_key)
    &&& !o.spanned_gap
    &&& db is Some && db->0 > 0
    &&& o.group.landings.len() == 1
    &&& est is Some
    &&& 0 < span <= i64::MAX
    &&& span > est->0
    &&& article_named(entity_key) ==> span <= DEATH_BOUND_MAX_ESTIMATE_MULTIPLE * est->0
    &&& span <= DEATH_BOUND_MAX_DB_MULTIPLE * db->0
}

pub open spec fn bound_span(
    o: Open,
    entity_key: Seq<char>,
    death_ts: i64,
    row_lives: bool,
    stats: Learned,
) -> Option<i64> {
    if teaches(o, entity_key, death_ts, row_lives, stats) {
        Some(death_span(o, death_ts) as i64)
    } else {
        None
    }
}

/// The death lower bound: the span a corpse is allowed to teach, or `None` when it teaches nothing.
/// Each rail refuses rather than guesses; a span that is not representable teaches nothing either.
pub fn death_bound_span(
    o: &OpenCast,
    entity_key: &str,
    death_ts: i64,
    row_lives: bool,
    stats: &SpellStats,
) -> (r: Option<i64>)
    ensures
        r == bound_span(o@, entity_key@, death_ts, row_lives, stats@),
{
    let db: Option<i64> = stats.db_duration_for(o.spell_key.as_str());
    if !row_lives || !stats.has_wear_off_channel(o.spell_key.as_str()) || o.spanned_gap {
        return None;
    }
    let db_ms: i64 = match db {
        Some(ms) if ms > 0 => ms,
        _ => {
            return None;
        },
    };
    if o.group.count() != 1 {
        return None;
    }
    let span: i128 = death_ts as i128 - o.group.oldest_ts() as i128;
    let estimate_ms: i64 = match stats.estimate_for(o.spell_key.as_str(), o.caster.as_str()).ms {
        Some(ms) => ms,
        None => {
            return None;
        },
    };
    if span <= 0 || span <= estimate_ms as i128 || span > i64::MAX as i128 {
        return None;
    }
    assert(i128::MIN <= DEATH_BOUND_MAX_ESTIMATE_MULTIPLE * estimate_ms <= i128::MAX)
        by (nonlinear_arith)
        requires
            DEATH_BOUND_MAX_ESTIMATE_MULTIPLE == 2,
            i64::MIN <= estimate_ms <= i64::MAX,
    ;
    assert(i128::MIN <= DEATH_BOUND_MAX_DB_MULTIPLE * db_ms <= i128::MAX) by (nonlinear_arith)
        requires
            DEATH_BOUND_MAX_DB_MULTIPLE == 3,
            i64::MIN <= db_ms <= i64::MAX,
    ;
    let name_cap: i128 = DEATH_BOUND_MAX_ESTIMATE_MULTIPLE as i128 * estimate_ms as i128;
    let db_cap: i128 = DEATH_BOUND_MAX_DB_MULTIPLE as i128 * db_ms as i128;
    if is_article_named(entity_key) && span > name_cap {
        return None;
    }
    if span <= db_cap {
        Some(span as i64)
    } else {
        None
    }
}

pub open spec fn left_behind(d: Disposition) -> bool {
    d == Disposition::Charmed || d == Disposition::Hostile
}

/// Zone: the player keeps self buffs, a SUMMONED pet follows and keeps its buffs, a CHARMED pet is
/// left behind, and so are hostile mobs.
pub fn open_left_behind_on_zone(o: &OpenCast) -> (r: bool)
    ensures
        r == left_behind(o.disp),
{
    match o.disp {
        Disposition::Zelf => false,
        Disposition::Summoned => false,
        Disposition::Charmed => true,
        Disposition::Hostile => true,
    }
}

/// The long stop of a row, in quarters of a millisecond: what its own measurements give, or twice
/// what the catalog states.
pub open spec fn long_stop(a: Active, db_ms: Option<i64>) -> int {
    match db_ms {
        Some(ms) => max_of(hygiene_quarters(a.p75, a.n), 8 * ms),
        None => hygiene_quarters(a.p75, a.n),
    }
}

/// The long-stop retirement every instance has: 90 minutes, or twice what we know about the spell,
/// whichever is longer. It answers "we lost the thread", not "it expired".
pub fn hygiene_cap(a: &ActiveBuff, db_ms: Option<i64>) -> (r: i128)
    ensures
        r == long_stop(a@, db_ms),
        0 < r <= 80_000_000_000_000_000_000,
{
    let own: i128 = hygiene_cap_ms(a.p75, a.n);
    match db_ms {
        Some(ms) => {
            let twice: i128 = 8 * ms as i128;
            if own >= twice {
                own
            } else {
                twice
            }
        },
        None => own,
    }
}

/// How long a row may stand past its countdown; nothing for a row that is never overdue.
pub open spec fn overdue_after(a: Active) -> Option<int> {
    if a.cls != BuffClass::Debuff && a.is_self {
        None
    } else {
        match a.overlay_duration_ms {
            Some(dur) if dur > 0 => Some(dur + unwitnessed_grace(a.overlay_source)),
            _ => None,
        }
    }
}

/// The unwitnessed-expiry cull: a row whose countdown ran out and whose close was never witnessed is
/// culled after its own timeout. `None` is no cull at all: a buff of the player's own, or a row that
/// is counting up.
pub fn unwitnessed_cull_cap(a: &ActiveBuff) -> (r: Option<i128>)
    ensures
        match r {
            Some(cap) => overdue_after(a@) == Some(cap as int),
            None => overdue_after(a@) is None,
        },
{
    if a.cls != BuffClass::Debuff && a.is_self {
        return None;
    }
    match a.overlay_duration_ms {
        Some(dur) if dur > 0 => Some(dur as i128 + unwitnessed_timeout_ms(a.overlay_source) as i128),
        _ => None,
    }
}

/// A record as the reaper leaves it: an orphan sheds the landings its retention has run out on.
pub open spec fn reaped_record(
    o: Open,
    orphan: bool,
    stats: Learned,
    now: i64,
) -> Open {
    if orphan {
        let cap = learning_record_cap(stats.floor(o.spell_key, o.caster), HYGIENE_ABSOLUTE_MS as int);
        Open { group: o.group.drop_expired(now - cap), ..o }
    } else {
        o
    }
}

/// The open records after the reaper: orphans shed their expired landings, and one with none left is
/// dropped.
pub open spec fn reaped(
    open: Dict<Open>,
    active: Dict<Active>,
    stats: Learned,
    now: i64,
) -> Dict<Open> {
    open.change(|k: Seq<char>, o: Open| reaped_record(o, !active.has(k), stats, now)).keep(
        |k: Seq<char>, o: Open| active.has(k) || o.group.landings.len() > 0,
    )
}

/// The orphaned-record reaper. It reaps only a record with no active row behind it, on the retention
/// schedule of what the learner knows; it mints nothing.
pub fn reap_orphaned_open(
    open: &mut JsMap<OpenCast>,
    active: &JsMap<ActiveBuff>,
    stats: &SpellStats,
    now: i64,
)
    ensures
        final(open)@ == reaped(old(open)@, active@, stats@, now),
        final(open)@.wf(),
{
    let keys = open.keys();
    let ghost before = open@;
    let ghost f = |k: Seq<char>, o: Open| reaped_record(o, !active@.has(k), stats@, now);
    let mut i: usize = 0;
    assert forall|k: Seq<char>| #[trigger] before.at.contains_key(k) implies exists|j: int|
        0 <= j < keys.len() && #[trigger] texts(keys@)[j] == k by {
        assert(before.order.contains(k));
    }
    while i < keys.len()
        invariant
            i <= keys.len(),
            before == old(open)@,
            before.wf(),
            texts(keys@) == before.order,
            f == (|k: Seq<char>, o: Open| reaped_record(o, !active@.has(k), stats@, now)),
            open@.order == before.order,
            open@.at.dom() == before.at.dom(),
            forall|j: int|
                0 <= j < i ==> open@.at[#[trigger] before.order[j]] == f(
                    before.order[j],
                    before.at[before.order[j]],
                ),
            forall|j: int|
                i <= j < keys.len() ==> open@.at[#[trigger] before.order[j]]
                    == before.at[before.order[j]],
        decreases keys.len() - i,
    {
        let ik = keys[i].as_str();
        assert(ik@ == texts(keys@)[i as int]);
        assert(before.order.contains(ik@));
        let ghost mid = open@;
        if !active.contains_key(ik) {
            let cutoff: i128 = match open.get(ik) {
                Some(o) => now as i128 - learning_record_cap_ms(
                    stats.floor_for(o.spell_key.as_str(), o.caster.as_str()),
                    HYGIENE_ABSOLUTE_MS,
                ),
                None => 0,
            };
            let o = open.get_mut(ik).unwrap();
            o.group.drop_expired(cutoff);
        }
        assert(open@.at.dom() =~= before.at.dom());
        i = i + 1;
    }
    assert(open@ =~= before.change(f)) by {
        assert forall|k: Seq<char>| #[trigger] before.at.contains_key(k) implies open@.at[k] == f(
            k,
            before.at[k],
        ) by {
            assert(before.order.contains(k));
            let j = choose|j: int| 0 <= j < before.order.len() && before.order[j] == k;
            assert(open@.at[before.order[j]] == f(before.order[j], before.at[before.order[j]]));
        }
        assert(open@.at =~= before.change(f).at);
    }
    let stays = |k: &str, o: &OpenCast| -> (b: bool)
        ensures b == (active@.has(k@) || o@.group.landings.len() > 0)
        { active.contains_key(k) || !o.group.is_empty() };
    open.retain(
        stays,
        Ghost(|k: Seq<char>, o: Open| active@.has(k) || o.group.landings.len() > 0),
    );
}

/// A landing never expires when it is on the player and its spell states so, or when it is an
/// illusion landed once the ability that makes illusions permanent was owned.
pub open spec fn never_expires(
    is_self: bool,
    db_permanent: bool,
    illusion: bool,
    ts: i64,
    owned_ts: Option<i64>,
) -> bool {
    is_self && (db_permanent || (illusion && owned_ts is Some && ts >= owned_ts->0))
}

/// Does this landing never expire: no countdown, no duration sample, no hygiene retirement?
pub fn landing_is_permanent(
    is_self: bool,
    db_permanent: bool,
    illusion: bool,
    ts: i64,
    permanent_illusion_owned_ts: Option<i64>,
) -> (r: bool)
    ensures
        r == never_expires(is_self, db_permanent, illusion, ts, permanent_illusion_owned_ts),
{
    if !is_self {
        return false;
    }
    if db_permanent {
        return true;
    }
    match permanent_illusion_owned_ts {
        Some(owned) => illusion && ts >= owned,
        None => false,
    }
}

/// A corpse teaches nothing that a rail refuses: it needs a living row, a channel the log has heard,
/// no absence and one landing, and what it teaches beats the estimate, stays within twice of it for a
/// name that others may bear, and within three times the catalog's word.
pub proof fn a_bound_passes_every_rail(
    o: Open,
    entity_key: Seq<char>,
    death_ts: i64,
    row_lives: bool,
    stats: Learned,
)
    ensures
        bound_span(o, entity_key, death_ts, row_lives, stats) matches Some(ms) ==> {
            &&& row_lives
            &&& stats.wear_off.contains(o.spell_key)
            &&& !o.spanned_gap
            &&& o.group.landings.len() == 1
            &&& ms == death_ts - o.group.landings[0].ts
            &&& stats.estimate(o.spell_key, o.caster).ms matches Some(est) && ms > est && (
            article_named(entity_key) ==> ms <= 2 * est)
            &&& stats.db_duration(o.spell_key) matches Some(db) && ms <= 3 * db
        },
{
}

/// A landing on anybody but the player is never permanent.
pub proof fn only_the_player_keeps_a_permanent(
    db_permanent: bool,
    illusion: bool,
    ts: i64,
    owned_ts: Option<i64>,
)
    ensures
        !never_expires(false, db_permanent, illusion, ts, owned_ts),
{
}

} // verus!
