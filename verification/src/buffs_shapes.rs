//! The shapes the buff fold is written in: its keys, its classes, its constants, and the small
//! numbers the estimator and the sweeps are computed from.
use crate::text::{join, js_trim, lower, lowercase, same, trim_end, trimmed};
use vstd::prelude::*;

verus! {

/// The entity key of the player.
pub const SELF_KEY: &'static str = "self";

/// The caster key of the player.
pub const SELF_CASTER: &'static str = "self";

/// The entity key of a hostile target nothing named.
pub const UNKNOWN_HOSTILE: &'static str = "unknown-hostile";

/// How long a cast may go unconfirmed before it is taken not to have landed.
pub const LAND_TIMEOUT_MS: i64 = 15_000;

/// The longest span that is read as a duration.
pub const MAX_SAMPLE_MS: i64 = 14_400_000;

/// How many samples of each class of evidence the estimator looks back over.
pub const RECENT_SAMPLE_WINDOW: usize = 5;

/// The long stop of an instance nothing is known of: ninety minutes.
pub const HYGIENE_ABSOLUTE_MS: i64 = 5_400_000;

/// How many agreeing clean samples may overrule the floor.
pub const CLUSTER_MIN_SAMPLES: usize = 3;

/// How far apart agreeing samples may lie, in percent of the longest.
pub const CLUSTER_SPREAD_PERCENT: i64 = 10;

/// The highest upgrade tier a numeral names.
pub const MAX_TIER: i64 = 39;

/// A good thing to have on one, or a bad thing.
#[derive(Clone, Copy, Debug, PartialEq, Eq, Structural)]
pub enum BuffClass {
    Buff,
    Debuff,
}

/// What an entity is to the player.
#[derive(Clone, Copy, Debug, PartialEq, Eq, Structural)]
pub enum Disposition {
    /// The player.
    Zelf,
    /// A pet that follows.
    Summoned,
    /// A pet that is held by a charm.
    Charmed,
    /// Anything else.
    Hostile,
}

/// Where an estimate came from.
#[derive(Clone, Copy, Debug, PartialEq, Eq, Structural)]
pub enum EstimatorSource {
    /// The spell database's floor.
    Db,
    /// A measured cycle above the floor.
    Observed,
    /// Measured cycles that agree on less than the floor.
    Cluster,
    /// A corpse's lower bound.
    DeathBound,
}

/// One mined span, and what kind of evidence it is.
#[derive(Clone, Copy, Debug, PartialEq, Eq, Structural)]
pub struct DurationSample {
    pub ms: i64,
    /// When the span closed.
    pub ts: i64,
    /// The log named something that ended the cycle early.
    pub censored: bool,
    /// The span ends in a death and not in a wear-off.
    pub death_bound: bool,
}

impl DurationSample {
    pub open spec fn lower_bound(self) -> bool {
        self.censored || self.death_bound
    }

    /// Is the span a bound on a duration, and not a measurement of one?
    pub fn is_lower_bound(&self) -> (r: bool)
        ensures
            r == self.lower_bound(),
    {
        self.censored || self.death_bound
    }
}

// ---- instance keys ---------------------------------------------------------------------------

/// The place of the first bar in a text, or its length.
pub open spec fn bar(s: Seq<char>) -> int
    decreases s.len(),
{
    if s.len() == 0 || s[0] == '|' {
        0
    } else {
        1 + bar(s.drop_first())
    }
}

/// A spell line on an entity.
pub open spec fn inst_key(key: Seq<char>, entity: Seq<char>) -> Seq<char> {
    key + seq!['|'] + entity
}

/// The spell line of an instance key: what stands before its first bar.
pub open spec fn spell_part(ik: Seq<char>) -> Seq<char> {
    ik.take(bar(ik))
}

/// The entity of an instance key: what stands after its first bar.
pub open spec fn entity_part(ik: Seq<char>) -> Seq<char> {
    if bar(ik) < ik.len() {
        ik.skip(bar(ik) + 1)
    } else {
        Seq::empty()
    }
}

proof fn lemma_bar(s: Seq<char>)
    ensures
        0 <= bar(s) <= s.len(),
    decreases s.len(),
{
    if s.len() > 0 && s[0] != '|' {
        lemma_bar(s.drop_first());
    }
}

proof fn lemma_bar_at(s: Seq<char>, i: int)
    requires
        0 <= i <= s.len(),
        forall|j: int| 0 <= j < i ==> s[j] != '|',
        i < s.len() ==> s[i] == '|',
    ensures
        bar(s) == i,
    decreases s.len(),
{
    if i > 0 {
        assert forall|j: int| 0 <= j < i - 1 implies s.drop_first()[j] != '|' by {
            assert(s.drop_first()[j] == s[j + 1]);
        }
        lemma_bar_at(s.drop_first(), i - 1);
    }
}

/// An instance key gives back the line and the entity it was made of, as long as the line itself
/// holds no bar.
pub proof fn instance_key_reads_back(key: Seq<char>, entity: Seq<char>)
    requires
        !key.contains('|'),
    ensures
        spell_part(inst_key(key, entity)) == key,
        entity_part(inst_key(key, entity)) == entity,
{
    let ik = inst_key(key, entity);
    assert forall|j: int| 0 <= j < key.len() implies ik[j] != '|' by {
        assert(ik[j] == key[j]);
    }
    lemma_bar_at(ik, key.len() as int);
    assert(spell_part(ik) =~= key);
    assert(entity_part(ik) =~= entity);
}

/// A key that holds a bar is the line before its first bar, the bar, and the entity after it; the line
/// holds none.
pub proof fn an_instance_key_parts_at_its_first_bar(ik: Seq<char>)
    requires
        ik.contains('|'),
    ensures
        ik == spell_part(ik) + seq!['|'] + entity_part(ik),
        !spell_part(ik).contains('|'),
{
    lemma_bar(ik);
    lemma_before_the_bar(ik);
    assert(ik =~= spell_part(ik) + seq!['|'] + entity_part(ik));
    assert forall|j: int| 0 <= j < spell_part(ik).len() implies spell_part(ik)[j] != '|' by {
        assert(spell_part(ik)[j] == ik[j]);
    }
}

/// A text without a bar is a line alone.
pub proof fn lemma_no_entity_without_a_bar(s: Seq<char>)
    requires
        !s.contains('|'),
    ensures
        entity_part(s).len() == 0,
{
    lemma_bar(s);
    lemma_before_the_bar(s);
    if bar(s) < s.len() {
        assert(s.contains(s[bar(s)]));
    }
}

proof fn lemma_before_the_bar(s: Seq<char>)
    ensures
        forall|j: int| 0 <= j < bar(s) ==> s[j] != '|',
        bar(s) < s.len() ==> s[bar(s)] == '|',
        s.contains('|') ==> bar(s) < s.len(),
    decreases s.len(),
{
    if s.len() > 0 && s[0] != '|' {
        let t = s.drop_first();
        lemma_before_the_bar(t);
        lemma_bar(t);
        if bar(s) < s.len() {
            assert(t[bar(t)] == s[bar(s)]);
        }
        assert forall|j: int| 0 <= j < bar(s) implies s[j] != '|' by {
            if j > 0 {
                assert(t[j - 1] == s[j]);
            }
        }
        if s.contains('|') {
            let i = choose|i: int| 0 <= i < s.len() && s[i] == '|';
            assert(t[i - 1] == '|');
        }
    }
}

pub fn instance_key(key: &str, entity_key: &str) -> (r: String)
    ensures
        r@ == inst_key(key@, entity_key@),
{
    proof {
        reveal_strlit("|");
    }
    let head = join(key, "|");
    let r = join(head.as_str(), entity_key);
    assert(r@ =~= inst_key(key@, entity_key@));
    r
}

fn first_bar(s: &str) -> (r: usize)
    ensures
        r == bar(s@),
        r <= s@.len(),
{
    let cs = crate::text::chars_of(s);
    let mut i: usize = 0;
    while i < cs.len() && cs[i] != '|'
        invariant
            i <= cs.len(),
            cs@ == s@,
            forall|j: int| 0 <= j < i ==> s@[j] != '|',
        decreases cs.len() - i,
    {
        i = i + 1;
    }
    proof {
        lemma_bar_at(s@, i as int);
    }
    i
}

pub fn instance_spell_key(ik: &str) -> (r: &str)
    ensures
        r@ == spell_part(ik@),
{
    let b: usize = first_bar(ik);
    assert(ik@.subrange(0, b as int) =~= ik@.take(b as int));
    ik.substring_char(0, b)
}

pub fn instance_entity_key(ik: &str) -> (r: &str)
    ensures
        r@ == entity_part(ik@),
{
    let b: usize = first_bar(ik);
    let n: usize = ik.unicode_len();
    if b < n {
        assert(ik@.subrange(b + 1, n as int) =~= ik@.skip(b + 1));
        ik.substring_char(b + 1, n)
    } else {
        assert(ik@.subrange(n as int, n as int) =~= Seq::<char>::empty());
        ik.substring_char(n, n)
    }
}

/// As many bars as there are characters in a text, and a point.
pub open spec fn measure(s: Seq<char>) -> Seq<char> {
    Seq::new(s.len(), |i: int| '|').push('.')
}

/// The learner's key: a spell line, as one caster casts it. It states how long the line is before it
/// states the two, so no pair can pass for another.
pub open spec fn learning_key(key: Seq<char>, caster: Seq<char>) -> Seq<char> {
    measure(key) + key + caster
}

/// Each line and caster have a learner's key of their own: two pairs share one only where they are the
/// same.
pub proof fn a_learners_key_is_its_own(
    key: Seq<char>,
    caster: Seq<char>,
    other_key: Seq<char>,
    other: Seq<char>,
)
    ensures
        learning_key(key, caster) == learning_key(other_key, other) <==> key == other_key && caster
            == other,
{
    let a = learning_key(key, caster);
    let b = learning_key(other_key, other);
    let n = key.len() as int;
    let m = other_key.len() as int;
    if a == b {
        assert(a[n] == '.' && b[m] == '.');
        assert(n < m ==> b[n] == '|');
        assert(m < n ==> a[m] == '|');
        assert(a.subrange(n + 1, 2 * n + 1) =~= key);
        assert(b.subrange(n + 1, 2 * n + 1) =~= other_key);
        assert(a.skip(2 * n + 1) =~= caster);
        assert(b.skip(2 * n + 1) =~= other);
    }
}

pub fn learn_key(key: &str, caster: &str) -> (r: String)
    ensures
        r@ == learning_key(key@, caster@),
{
    proof {
        reveal_strlit("");
        reveal_strlit("|");
        reveal_strlit(".");
    }
    let n: usize = key.unicode_len();
    let mut out: String = "".to_owned();
    let mut i: usize = 0;
    while i < n
        invariant
            i <= n,
            "|"@ == seq!['|'],
            out@ == Seq::new(i as nat, |j: int| '|'),
        decreases n - i,
    {
        out.append("|");
        i = i + 1;
    }
    out.append(".");
    assert(out@ =~= measure(key@));
    out.append(key);
    out.append(caster);
    out
}

// ---- ranks -----------------------------------------------------------------------------------

pub open spec fn numeral_tens(t: int) -> Seq<char> {
    if t == 1 {
        "X"@
    } else if t == 2 {
        "XX"@
    } else if t == 3 {
        "XXX"@
    } else {
        ""@
    }
}

pub open spec fn numeral_units(u: int) -> Seq<char> {
    if u == 1 {
        "I"@
    } else if u == 2 {
        "II"@
    } else if u == 3 {
        "III"@
    } else if u == 4 {
        "IV"@
    } else if u == 5 {
        "V"@
    } else if u == 6 {
        "VI"@
    } else if u == 7 {
        "VII"@
    } else if u == 8 {
        "VIII"@
    } else if u == 9 {
        "IX"@
    } else {
        ""@
    }
}

/// The roman numeral of a number from one to thirty-nine.
pub open spec fn numeral(n: int) -> Seq<char> {
    numeral_tens(n / 10) + numeral_units(n % 10)
}

/// The first number from `n` on whose numeral this is, or nought.
pub open spec fn numeral_value_from(s: Seq<char>, n: int) -> int
    decreases MAX_TIER + 1 - n,
{
    if n > MAX_TIER {
        0
    } else if numeral(n) == s {
        n
    } else {
        numeral_value_from(s, n + 1)
    }
}

/// The number a roman numeral names, or nought for a text that is none.
pub open spec fn numeral_value(s: Seq<char>) -> int {
    numeral_value_from(s, 1)
}

/// The place of the last space in a text, or -1.
pub open spec fn last_space(s: Seq<char>) -> int
    decreases s.len(),
{
    if s.len() == 0 {
        -1
    } else if s.last() == ' ' {
        s.len() - 1
    } else {
        last_space(s.drop_last())
    }
}

/// The rank a spell name ends in: the numeral after its last space, or nought.
pub open spec fn rank_of(name: Seq<char>) -> int {
    let t = trimmed(name);
    let p = last_space(t);
    if p < 0 {
        0
    } else {
        numeral_value(t.skip(p + 1))
    }
}

proof fn lemma_numeral_range(s: Seq<char>, n: int)
    requires
        n >= 0,
    ensures
        0 <= numeral_value_from(s, n) <= MAX_TIER,
    decreases MAX_TIER + 1 - n,
{
    if n <= MAX_TIER && numeral(n) != s {
        lemma_numeral_range(s, n + 1);
    }
}

/// A rank is one of the tiers.
pub proof fn lemma_rank_range(name: Seq<char>)
    ensures
        0 <= rank_of(name) <= MAX_TIER,
{
    let t = trimmed(name);
    lemma_numeral_range(t.skip(last_space(t) + 1), 1);
}

/// The spell name without the rank it ends in.
pub open spec fn base_of(name: Seq<char>) -> Seq<char> {
    let t = trimmed(name);
    if rank_of(name) > 0 {
        trim_end(t.take(last_space(t)))
    } else {
        t
    }
}

/// The rank-stripped, lowercased line a spell name belongs to.
pub open spec fn line_of(name: Seq<char>) -> Seq<char> {
    lower(base_of(name))
}

/// A spell name, parted into its base and its rank.
pub struct SpellRank {
    pub base: String,
    pub rank: i64,
}

fn tens_text(t: i64) -> (r: &'static str)
    ensures
        r@ == numeral_tens(t as int),
{
    if t == 1 {
        "X"
    } else if t == 2 {
        "XX"
    } else if t == 3 {
        "XXX"
    } else {
        ""
    }
}

fn units_text(u: i64) -> (r: &'static str)
    ensures
        r@ == numeral_units(u as int),
{
    if u == 1 {
        "I"
    } else if u == 2 {
        "II"
    } else if u == 3 {
        "III"
    } else if u == 4 {
        "IV"
    } else if u == 5 {
        "V"
    } else if u == 6 {
        "VI"
    } else if u == 7 {
        "VII"
    } else if u == 8 {
        "VIII"
    } else if u == 9 {
        "IX"
    } else {
        ""
    }
}

fn value_of_numeral(s: &str) -> (r: i64)
    ensures
        r == numeral_value(s@),
        0 <= r <= MAX_TIER,
{
    let mut n: i64 = 1;
    while n <= MAX_TIER
        invariant
            1 <= n <= MAX_TIER + 1,
            numeral_value(s@) == numeral_value_from(s@, n as int),
        decreases MAX_TIER + 1 - n,
    {
        let text = join(tens_text(n / 10), units_text(n % 10));
        if same(text.as_str(), s) {
            return n;
        }
        n = n + 1;
    }
    0
}

fn trim_back(s: &str) -> (r: &str)
    ensures
        r@ == trim_end(s@),
{
    let cs = crate::text::chars_of(s);
    let mut to: usize = cs.len();
    assert(s@.subrange(0, s@.len() as int) =~= s@);
    while to > 0 && crate::text::is_js_space(cs[to - 1])
        invariant
            to <= cs.len(),
            cs@ == s@,
            trim_end(s@.subrange(0, to as int)) == trim_end(s@),
        decreases to,
    {
        assert(s@.subrange(0, to as int).drop_last() =~= s@.subrange(0, to - 1));
        to = to - 1;
    }
    s.substring_char(0, to)
}

proof fn lemma_last_space(s: Seq<char>, i: int)
    requires
        -1 <= i < s.len(),
        i >= 0 ==> s[i] == ' ',
        forall|j: int| i < j < s.len() ==> s[j] != ' ',
    ensures
        last_space(s) == i,
    decreases s.len(),
{
    if s.len() > 0 && i < s.len() - 1 {
        assert(s.last() != ' ');
        lemma_last_space(s.drop_last(), i);
    }
}

pub fn parse_spell_rank(name: &str) -> (r: SpellRank)
    ensures
        r.base@ == base_of(name@),
        r.rank == rank_of(name@),
        0 <= r.rank <= MAX_TIER,
{
    let t = js_trim(name);
    let cs = crate::text::chars_of(t);
    let n: usize = cs.len();
    let mut i: usize = n;
    while i > 0 && cs[i - 1] != ' '
        invariant
            i <= n,
            n == cs.len(),
            cs@ == t@,
            forall|j: int| i <= j < n ==> t@[j] != ' ',
        decreases i,
    {
        i = i - 1;
    }
    proof {
        lemma_last_space(t@, i - 1);
    }
    if i > 0 {
        let token = t.substring_char(i, n);
        assert(t@.subrange(i as int, n as int) =~= t@.skip(i as int));
        let rank: i64 = value_of_numeral(token);
        if rank > 0 {
            assert(t@.subrange(0, i - 1) =~= t@.take(i - 1));
            let base = trim_back(t.substring_char(0, i - 1));
            return SpellRank { base: base.to_owned(), rank };
        }
    }
    SpellRank { base: t.to_owned(), rank: 0 }
}

/// The upgrade tier a spell name states; nought for a name without a numeral.
pub fn tier_of(name: &str) -> (r: i64)
    ensures
        r == rank_of(name@),
        0 <= r <= MAX_TIER,
{
    parse_spell_rank(name).rank
}

pub fn spell_key(name: &str) -> (r: String)
    ensures
        r@ == line_of(name@),
{
    let parsed = parse_spell_rank(name);
    lowercase(parsed.base.as_str())
}

/// The key a name is compared by: trimmed and lowercased.
pub open spec fn name_key(name: Seq<char>) -> Seq<char> {
    lower(trimmed(name))
}

pub fn id_key(name: &str) -> (r: String)
    ensures
        r@ == name_key(name@),
{
    lowercase(js_trim(name))
}

// ---- durations -------------------------------------------------------------------------------

/// How an upgrade tier grows a spell's duration.
#[derive(Clone, Copy, Debug, PartialEq, Eq, Structural)]
pub enum DurationCategory {
    /// Nobody states that it grows.
    Unstated,
    /// By so many percent of the base for each tier.
    PercentPerTier(u8),
}

pub open spec fn percent_per_tier(cat: DurationCategory) -> int {
    match cat {
        DurationCategory::Unstated => 0,
        DurationCategory::PercentPerTier(p) => p as int,
    }
}

/// The number, or the nearest one that an `i64` holds.
pub open spec fn clamp_i64(n: int) -> int {
    if n > i64::MAX {
        i64::MAX as int
    } else if n < i64::MIN {
        i64::MIN as int
    } else {
        n
    }
}

/// A base duration grown by the percentage its category states for each tier.
pub open spec fn grown_ms(db_ms: int, cat: DurationCategory, tier: int) -> int {
    clamp_i64(db_ms + db_ms * (percent_per_tier(cat) * tier) / 100)
}

/// Division of an `i128` that rounds down.
fn floor_div(a: i128, b: i128) -> (r: i128)
    requires
        b > 0,
        a > i128::MIN,
    ensures
        r == a as int / b as int,
{
    if a >= 0 {
        a / b
    } else {
        let m: i128 = -(a + 1);
        let q: i128 = m / b;
        proof {
            let (ai, bi, mi, qi) = (a as int, b as int, m as int, q as int);
            assert(mi == bi * qi + mi % bi && 0 <= mi % bi < bi) by (nonlinear_arith)
                requires
                    bi > 0,
                    qi == mi / bi,
            ;
            assert(ai == bi * (-qi - 1) + (bi - 1 - mi % bi)) by (nonlinear_arith)
                requires
                    ai == -mi - 1,
                    mi == bi * qi + mi % bi,
            ;
            vstd::arithmetic::div_mod::lemma_fundamental_div_mod_converse(
                ai,
                bi,
                -qi - 1,
                bi - 1 - mi % bi,
            );
            assert(0 <= qi <= mi) by (nonlinear_arith)
                requires
                    bi > 0,
                    mi >= 0,
                    qi == mi / bi,
            ;
        }
        -q - 1
    }
}

/// The FLOOR the estimator stands on: the base grown by the tier the log named.
pub fn scaled_floor_ms(db_ms: i64, cat: DurationCategory, tier: i64) -> (r: i64)
    requires
        0 <= tier <= MAX_TIER,
    ensures
        r == grown_ms(db_ms as int, cat, tier as int),
{
    let p: i128 = match cat {
        DurationCategory::Unstated => 0,
        DurationCategory::PercentPerTier(p) => p as i128,
    };
    let t: i128 = tier as i128;
    assert(0 <= p * t <= 9945) by (nonlinear_arith)
        requires
            0 <= p <= 255,
            0 <= t <= 39,
    ;
    let growth: i128 = p * t;
    let base: i128 = db_ms as i128;
    assert(-91_729_999_999_999_999_999_999 <= base * growth <= 91_729_999_999_999_999_999_999)
        by (nonlinear_arith)
        requires
            0 <= growth <= 9945,
            -9_223_372_036_854_775_808 <= base <= 9_223_372_036_854_775_807,
    ;
    let grown: i128 = base + floor_div(base * growth, 100);
    if grown > i64::MAX as i128 {
        i64::MAX
    } else if grown < i64::MIN as i128 {
        i64::MIN
    } else {
        grown as i64
    }
}

/// A span in quarters of a millisecond: the exact value of a quartile of whole milliseconds.
#[derive(Clone, Copy, Debug, PartialEq, Eq, Structural)]
pub struct QuarterMs {
    quarters: i128,
}

impl View for QuarterMs {
    type V = int;

    closed spec fn view(&self) -> int {
        self.quarters as int
    }
}

/// Four times what an `i64` can hold, either way.
pub open spec fn quarter_range(q: int) -> bool {
    -36_893_488_147_419_103_232 <= q <= 36_893_488_147_419_103_232
}

impl QuarterMs {
    #[verifier::type_invariant]
    spec fn inv(self) -> bool {
        quarter_range(self.quarters as int)
    }

    /// The number of quarters.
    pub fn get(&self) -> (r: i128)
        ensures
            r == self@,
            quarter_range(self@),
    {
        proof {
            use_type_invariant(self);
        }
        self.quarters
    }

    pub fn copy(&self) -> (r: Self)
        ensures
            r == *self,
    {
        *self
    }
}

/// The `k`-th quartile of a non-empty list in ascending order, interpolated between neighbours, in
/// quarters.
pub open spec fn quartile(s: Seq<i64>, k: int) -> int {
    let pos = k * (s.len() - 1);
    let lo = pos / 4;
    let rem = pos % 4;
    if rem == 0 {
        4 * s[lo]
    } else {
        4 * s[lo] + rem * (s[lo + 1] - s[lo])
    }
}

/// The `k`-th quartile: the 25th, 50th or 75th percentile.
pub fn percentile(sorted: &Vec<i64>, k: u8) -> (r: QuarterMs)
    requires
        sorted@.len() > 0,
        1 <= k <= 3,
    ensures
        r@ == quartile(sorted@, k as int),
{
    let n: u128 = sorted.len() as u128 - 1;
    assert(k * n <= 60_000_000_000_000_000_000) by (nonlinear_arith)
        requires
            1 <= k <= 3,
            n <= 18_446_744_073_709_551_615,
    ;
    let pos: u128 = k as u128 * n;
    let lo: u128 = pos / 4;
    let rem: u128 = pos % 4;
    let ghost len = sorted@.len() as int;
    assert(lo <= n && (rem > 0 ==> lo < n)) by (nonlinear_arith)
        requires
            pos == k * n,
            1 <= k <= 3,
            lo == pos / 4,
            rem == pos % 4,
    ;
    let at: i128 = sorted[lo as usize] as i128;
    if rem == 0 {
        return QuarterMs { quarters: 4 * at };
    }
    let next: i128 = sorted[lo as usize + 1] as i128;
    let step: i128 = next - at;
    let part: i128 = rem as i128;
    assert(quarter_range(4 * at + part * step) && -60_000_000_000_000_000_000 <= part * step
        <= 60_000_000_000_000_000_000) by (nonlinear_arith)
        requires
            1 <= part <= 3,
            step == next - at,
            -9_223_372_036_854_775_808 <= at <= 9_223_372_036_854_775_807,
            -9_223_372_036_854_775_808 <= next <= 9_223_372_036_854_775_807,
    ;
    QuarterMs { quarters: 4 * at + part * step }
}

pub open spec fn max_of(a: int, b: int) -> int {
    if a >= b {
        a
    } else {
        b
    }
}

/// The long stop, in quarters of a millisecond: ninety minutes, or twice the third quartile of what
/// was measured, whichever is longer.
pub open spec fn hygiene_quarters(p75: Option<int>, n: int) -> int {
    if p75 is Some && n > 0 {
        max_of(4 * HYGIENE_ABSOLUTE_MS, 2 * p75->0)
    } else {
        4 * HYGIENE_ABSOLUTE_MS
    }
}

pub open spec fn opt_quarters(q: Option<QuarterMs>) -> Option<int> {
    match q {
        Some(x) => Some(x@),
        None => None,
    }
}

pub fn hygiene_cap_ms(p75: Option<QuarterMs>, n: usize) -> (r: i128)
    ensures
        r == hygiene_quarters(opt_quarters(p75), n as int),
        0 < r <= 80_000_000_000_000_000_000,
{
    let floor: i128 = 4 * HYGIENE_ABSOLUTE_MS as i128;
    match p75 {
        Some(q) => {
            let twice: i128 = 2 * q.get();
            if n > 0 && twice > floor {
                twice
            } else {
                floor
            }
        },
        None => floor,
    }
}

/// How long a record that lost its row is kept: the absolute stop, or twice the floor.
pub open spec fn learning_record_cap(floor: Option<i64>, absolute: int) -> int {
    match floor {
        Some(f) => max_of(absolute, 2 * f),
        None => absolute,
    }
}

pub fn learning_record_cap_ms(floor: Option<i64>, absolute: i64) -> (r: i128)
    ensures
        r == learning_record_cap(floor, absolute as int),
{
    let a: i128 = absolute as i128;
    match floor {
        Some(f) => {
            let twice: i128 = 2 * f as i128;
            if a >= twice {
                a
            } else {
                twice
            }
        },
        None => a,
    }
}

/// The grace a row whose countdown ran out is given before it is culled: a minute against the
/// database's number, half that against a number the log taught.
pub open spec fn unwitnessed_grace(source: Option<EstimatorSource>) -> int {
    match source {
        Some(EstimatorSource::Db) => 60_000,
        None => 60_000,
        _ => 30_000,
    }
}

pub fn unwitnessed_timeout_ms(source: Option<EstimatorSource>) -> (r: i64)
    ensures
        r == unwitnessed_grace(source),
{
    match source {
        Some(EstimatorSource::Db) => 60_000,
        None => 60_000,
        _ => 30_000,
    }
}

// ---- corroboration ---------------------------------------------------------------------------

/// Every sample lies within the spread of `top`, and none above it.
pub open spec fn agrees_on(s: Seq<i64>, top: int) -> bool {
    forall|i: int|
        0 <= i < s.len() ==> (#[trigger] s[i] <= top && (top - s[i]) * 100 <= top
            * CLUSTER_SPREAD_PERCENT)
}

/// The samples are enough and agree: there is one of them that all the others lie just below.
pub open spec fn corroborates(s: Seq<i64>) -> bool {
    &&& s.len() >= CLUSTER_MIN_SAMPLES
    &&& exists|m: int| 0 <= m < s.len() && agrees_on(s, #[trigger] s[m] as int)
}

/// The longest of a window of clean samples, when they are enough and agree with one another.
pub fn corroborated_max(samples: &Vec<i64>) -> (r: Option<i64>)
    ensures
        r is Some <==> corroborates(samples@),
        r is Some ==> samples@.contains(r->0) && agrees_on(samples@, r->0 as int),
{
    if samples.len() < CLUSTER_MIN_SAMPLES {
        return None;
    }
    let mut best: i64 = samples[0];
    let ghost mut at: int = 0;
    let mut i: usize = 1;
    while i < samples.len()
        invariant
            1 <= i <= samples.len(),
            0 <= at < i,
            best == samples@[at],
            forall|j: int| 0 <= j < i ==> samples@[j] <= best,
        decreases samples.len() - i,
    {
        if samples[i] > best {
            best = samples[i];
            proof {
                at = i as int;
            }
        }
        i = i + 1;
    }
    let mut j: usize = 0;
    while j < samples.len()
        invariant
            j <= samples.len(),
            samples.len() >= CLUSTER_MIN_SAMPLES,
            0 <= at < samples.len(),
            best == samples@[at],
            forall|m: int| 0 <= m < samples.len() ==> samples@[m] <= best,
            forall|m: int|
                0 <= m < j ==> (best - #[trigger] samples@[m]) * 100 <= best
                    * CLUSTER_SPREAD_PERCENT,
        decreases samples.len() - j,
    {
        let gap: i128 = best as i128 - samples[j] as i128;
        if gap * 100 > best as i128 * CLUSTER_SPREAD_PERCENT as i128 {
            proof {
                assert forall|m: int| 0 <= m < samples.len() implies !agrees_on(
                    samples@,
                    #[trigger] samples@[m] as int,
                ) by {
                    if agrees_on(samples@, samples@[m] as int) {
                        assert(samples@[at] <= samples@[m]);
                        assert(samples@[m] == best);
                        assert((samples@[m] - samples@[j as int]) * 100 <= samples@[m]
                            * CLUSTER_SPREAD_PERCENT);
                    }
                }
            }
            return None;
        }
        j = j + 1;
    }
    assert(agrees_on(samples@, samples@[at] as int));
    Some(best)
}

} // verus!
