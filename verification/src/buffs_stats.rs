//! The one observed-duration learner, and the per-line game knowledge beside it: the mined duration
//! samples, the recency map, and the spell catalog.
//!
//! Everything here is keyed on a spell LINE, which is rank-stripped, and a CASTER. The estimator is
//! the larger of the catalog's rank-scaled floor and the longest recent observation. The floor loses
//! only to measured cycles that agree on less. A death with no wear-off is a lower bound, and where
//! the window holds a clean fade the bound contributes at most the longest of those.
//!
//! The window is applied once per class of evidence: the newest five clean samples are one window and
//! the newest five lower bounds are another, so neither class can push the other out of view.
use crate::buffs_shapes::{
    a_learners_key_is_its_own, base_of, corroborated_max, corroborates, grown_ms, learn_key,
    learning_key, lemma_rank_range, max_of, opt_quarters, parse_spell_rank, percentile, quartile,
    rank_of, scaled_floor_ms, tier_of, BuffClass, DurationSample, EstimatorSource, QuarterMs,
    MAX_TIER, RECENT_SAMPLE_WINDOW, SELF_CASTER,
};
use crate::jsmap::{Dict, JsMap};
use crate::spell_facts::{Nature, Row, SpellFacts, SpellRow};
use crate::text::{js_trim, lists, lower, lowercase, same, texts, trimmed};
use vstd::prelude::*;

verus! {

/// The winning candidate of the estimator's window: the longest span, and whether it is a bound.
#[derive(Debug, Clone, Copy)]
pub struct WindowMax {
    pub ms: i64,
    pub bound: bool,
}

/// What the estimator answered.
#[derive(Debug, Clone, Copy)]
pub struct Estimate {
    pub ms: Option<i64>,
    pub source: Option<EstimatorSource>,
}

// ---- the window ------------------------------------------------------------------------------

/// The newest `n` samples of one class of evidence, newest first.
pub open spec fn recent(s: Seq<DurationSample>, bounds: bool, n: int) -> Seq<DurationSample>
    decreases s.len(),
{
    if n <= 0 || s.len() == 0 {
        Seq::empty()
    } else if s.last().lower_bound() == bounds {
        seq![s.last()] + recent(s.drop_last(), bounds, n - 1)
    } else {
        recent(s.drop_last(), bounds, n)
    }
}

pub open spec fn clean_window(s: Seq<DurationSample>) -> Seq<DurationSample> {
    recent(s, false, RECENT_SAMPLE_WINDOW as int)
}

pub open spec fn bound_window(s: Seq<DurationSample>) -> Seq<DurationSample> {
    recent(s, true, RECENT_SAMPLE_WINDOW as int)
}

/// Every sample the estimator looks at: the newest clean ones, then the newest lower bounds.
pub open spec fn window(s: Seq<DurationSample>) -> Seq<DurationSample> {
    clean_window(s) + bound_window(s)
}

/// The longest of a list of samples, or nothing for none.
pub open spec fn longest(s: Seq<DurationSample>) -> Option<i64>
    decreases s.len(),
{
    if s.len() == 0 {
        None
    } else {
        match longest(s.drop_last()) {
            Some(m) if m >= s.last().ms => Some(m),
            _ => Some(s.last().ms),
        }
    }
}

/// The ceiling that witnessed fades have proven: the longest clean sample of the window.
pub open spec fn fade_cap(s: Seq<DurationSample>) -> Option<i64> {
    longest(clean_window(s))
}

/// What a sample puts to the estimator: its span, and of a death bound no more than the cap.
pub open spec fn contribution(x: DurationSample, cap: Option<i64>) -> i64 {
    match cap {
        Some(c) if x.death_bound && c < x.ms => c,
        _ => x.ms,
    }
}

/// The largest contribution of a list, and whether nothing but death bounds reaches it.
pub open spec fn best_of(s: Seq<DurationSample>, cap: Option<i64>) -> Option<WindowMax>
    decreases s.len(),
{
    if s.len() == 0 {
        None
    } else {
        let x = s.last();
        let ms = contribution(x, cap);
        match best_of(s.drop_last(), cap) {
            Some(b) if b.ms > ms => Some(b),
            Some(b) if b.ms == ms => Some(WindowMax { ms, bound: b.bound && x.death_bound }),
            _ => Some(WindowMax { ms, bound: x.death_bound }),
        }
    }
}

/// The observed candidate: the best of the window, death bounds held to what clean fades have proven.
pub open spec fn observed(s: Seq<DurationSample>) -> Option<WindowMax> {
    best_of(window(s), fade_cap(s))
}

/// The best of a list is reached by one of its samples and exceeded by none, and it is a bound
/// exactly when every sample that reaches it is a death bound.
pub proof fn best_of_is_the_largest(s: Seq<DurationSample>, cap: Option<i64>)
    ensures
        best_of(s, cap) is None <==> s.len() == 0,
        best_of(s, cap) matches Some(b) ==> {
            &&& forall|i: int| 0 <= i < s.len() ==> contribution(#[trigger] s[i], cap) <= b.ms
            &&& exists|i: int| 0 <= i < s.len() && contribution(#[trigger] s[i], cap) == b.ms
            &&& b.bound <==> forall|i: int|
                0 <= i < s.len() && contribution(#[trigger] s[i], cap) == b.ms ==> s[i].death_bound
        },
    decreases s.len(),
{
    if s.len() > 0 {
        let f = s.drop_last();
        best_of_is_the_largest(f, cap);
        let b = best_of(s, cap)->0;
        assert forall|i: int| 0 <= i < s.len() implies contribution(#[trigger] s[i], cap) <= b.ms by {
            if i < f.len() {
                assert(f[i] == s[i]);
            }
        }
        if let Some(fb) = best_of(f, cap) {
            let i = choose|i: int| 0 <= i < f.len() && contribution(#[trigger] f[i], cap) == fb.ms;
            assert(s[i] == f[i]);
            if !fb.bound {
                let j = choose|j: int|
                    0 <= j < f.len() && contribution(#[trigger] f[j], cap) == fb.ms
                        && !f[j].death_bound;
                assert(s[j] == f[j]);
            }
        }
        assert(contribution(s[s.len() - 1], cap) <= b.ms);
        assert forall|i: int| b.bound && 0 <= i < s.len() && contribution(
            #[trigger] s[i],
            cap,
        ) == b.ms implies s[i].death_bound by {
            if i < f.len() {
                assert(f[i] == s[i]);
            }
        }
    }
}

/// The longest of a list is one of its samples and is exceeded by none.
pub proof fn longest_is_the_largest(s: Seq<DurationSample>)
    ensures
        longest(s) is None <==> s.len() == 0,
        longest(s) matches Some(m) ==> {
            &&& forall|i: int| 0 <= i < s.len() ==> (#[trigger] s[i]).ms <= m
            &&& exists|i: int| 0 <= i < s.len() && (#[trigger] s[i]).ms == m
        },
    decreases s.len(),
{
    if s.len() > 0 {
        let f = s.drop_last();
        longest_is_the_largest(f);
        let m = longest(s)->0;
        assert forall|i: int| 0 <= i < s.len() implies (#[trigger] s[i]).ms <= m by {
            if i < f.len() {
                assert(f[i] == s[i]);
            }
        }
        if m == s.last().ms {
            assert(s[s.len() - 1].ms == m);
        } else {
            let i = choose|i: int| 0 <= i < f.len() && (#[trigger] f[i]).ms == m;
            assert(s[i].ms == m);
        }
    }
}

/// The newest samples of one class hold nothing of the other class.
pub proof fn recent_is_of_one_class(s: Seq<DurationSample>, bounds: bool, n: int)
    ensures
        forall|i: int|
            0 <= i && i < recent(s, bounds, n).len() ==> (#[trigger] recent(s, bounds, n)[i]).lower_bound()
                == bounds,
        recent(s, bounds, n).len() <= (if n <= 0 { 0 } else { n }),
    decreases s.len(),
{
    if n > 0 && s.len() > 0 {
        recent_is_of_one_class(s.drop_last(), bounds, n - 1);
        recent_is_of_one_class(s.drop_last(), bounds, n);
    }
}

/// A sample of one class never pushes a sample of the other out of its window.
pub proof fn a_class_never_evicts_the_other(s: Seq<DurationSample>, x: DurationSample)
    ensures
        x.lower_bound() ==> clean_window(s.push(x)) == clean_window(s),
        !x.lower_bound() ==> bound_window(s.push(x)) == bound_window(s),
{
    assert(s.push(x).drop_last() =~= s);
}

fn recent_of(s: &Vec<DurationSample>, bounds: bool) -> (r: Vec<DurationSample>)
    ensures
        r@ == recent(s@, bounds, RECENT_SAMPLE_WINDOW as int),
{
    let mut out: Vec<DurationSample> = Vec::new();
    let mut i: usize = s.len();
    assert(s@.take(i as int) =~= s@);
    assert(out@ + recent(s@.take(i as int), bounds, 5) =~= recent(s@, bounds, 5));
    while i > 0 && out.len() < RECENT_SAMPLE_WINDOW
        invariant
            i <= s.len(),
            out.len() <= 5,
            out@ + recent(s@.take(i as int), bounds, 5 - out.len()) == recent(s@, bounds, 5),
        decreases i,
    {
        let x: DurationSample = s[i - 1];
        let ghost front = s@.take(i as int);
        assert(front.drop_last() =~= s@.take(i - 1));
        assert(front.last() == x);
        let ghost before = out@;
        if x.is_lower_bound() == bounds {
            out.push(x);
            assert(before + (seq![x] + recent(front.drop_last(), bounds, 5 - before.len() - 1))
                =~= out@ + recent(front.drop_last(), bounds, 5 - out.len()));
        }
        i = i - 1;
    }
    assert(out@ + recent(s@.take(i as int), bounds, 5 - out.len()) =~= out@);
    out
}

/// The ceiling witnessed fades have proven for one sample list.
fn clean_fade_cap(samples: &Vec<DurationSample>) -> (r: Option<i64>)
    ensures
        r == fade_cap(samples@),
{
    let w = recent_of(samples, false);
    let mut best: Option<i64> = None;
    let mut i: usize = 0;
    while i < w.len()
        invariant
            i <= w.len(),
            best == longest(w@.take(i as int)),
        decreases w.len() - i,
    {
        assert(w@.take(i + 1).drop_last() =~= w@.take(i as int));
        let ms: i64 = w[i].ms;
        best = match best {
            Some(b) if b >= ms => Some(b),
            _ => Some(ms),
        };
        i = i + 1;
    }
    assert(w@.take(i as int) =~= w@);
    best
}

/// Fold one sample into the running window max, with a death bound held to `fade_cap`. A tie goes to
/// the MEASURED cycle: a bound must not weaken the label the log earned.
fn fold_window_max(best: Option<WindowMax>, s: &DurationSample, cap: Option<i64>) -> (r: WindowMax)
    ensures
        r == ({
            let ms = contribution(*s, cap);
            match best {
                Some(b) if b.ms > ms => b,
                Some(b) if b.ms == ms => WindowMax { ms, bound: b.bound && s.death_bound },
                _ => WindowMax { ms, bound: s.death_bound },
            }
        }),
{
    let bound: bool = s.death_bound;
    let ms: i64 = match cap {
        Some(c) if bound && c < s.ms => c,
        _ => s.ms,
    };
    match best {
        None => WindowMax { ms, bound },
        Some(b) if ms > b.ms => WindowMax { ms, bound },
        Some(b) if ms == b.ms && !bound => WindowMax { ms: b.ms, bound: false },
        Some(b) => b,
    }
}

fn fold_all(
    best: Option<WindowMax>,
    w: &Vec<DurationSample>,
    cap: Option<i64>,
    Ghost(done): Ghost<Seq<DurationSample>>,
) -> (r: Option<WindowMax>)
    requires
        best == best_of(done, cap),
    ensures
        r == best_of(done + w@, cap),
{
    let mut out: Option<WindowMax> = best;
    let mut i: usize = 0;
    assert(done + w@.take(0) =~= done);
    while i < w.len()
        invariant
            i <= w.len(),
            out == best_of(done + w@.take(i as int), cap),
        decreases w.len() - i,
    {
        assert((done + w@.take(i + 1)).drop_last() =~= done + w@.take(i as int));
        assert((done + w@.take(i + 1)).last() == w@[i as int]);
        out = Some(fold_window_max(out, &w[i], cap));
        i = i + 1;
    }
    assert(w@.take(i as int) =~= w@);
    out
}

// ---- display names ---------------------------------------------------------------------------

/// Which spelling of a line is shown: the highest rank of one base, and the newest of two bases.
pub open spec fn preferred_name(prev: Seq<char>, next: Seq<char>) -> Seq<char> {
    let candidate = trimmed(next);
    if candidate.len() == 0 || candidate == trimmed(prev) {
        prev
    } else if lower(base_of(prev)) != lower(base_of(candidate)) {
        candidate
    } else if rank_of(candidate) > rank_of(prev) {
        candidate
    } else {
        prev
    }
}

/// Which spelling of a line the Buffs tab shows. Highest rank wins and a tie keeps the existing
/// spelling; a different base is not a rank comparison at all, so the newest name wins.
pub fn preferred_display_name(prev: &str, next: &str) -> (r: String)
    ensures
        r@ == preferred_name(prev@, next@),
{
    let candidate = js_trim(next);
    if candidate.is_empty() || same(candidate, js_trim(prev)) {
        return prev.to_owned();
    }
    let before = parse_spell_rank(prev);
    let after = parse_spell_rank(candidate);
    let a = lowercase(before.base.as_str());
    let b = lowercase(after.base.as_str());
    if !same(a.as_str(), b.as_str()) {
        return candidate.to_owned();
    }
    if after.rank > before.rank {
        candidate.to_owned()
    } else {
        prev.to_owned()
    }
}

// ---- the store -------------------------------------------------------------------------------

/// Per-(line, caster) accumulated duration samples and display name.
pub struct SpellSamples {
    pub spell: String,
    pub samples: Vec<DurationSample>,
}

/// What a [`SpellSamples`] holds.
#[verifier::ext_equal]
pub struct Sampled {
    pub spell: Seq<char>,
    pub samples: Seq<DurationSample>,
}

impl View for SpellSamples {
    type V = Sampled;

    open spec fn view(&self) -> Sampled {
        Sampled { spell: self.spell@, samples: self.samples@ }
    }
}

/// An upgrade tier.
pub struct Tier {
    n: i64,
}

impl View for Tier {
    type V = int;

    closed spec fn view(&self) -> int {
        self.n as int
    }
}

impl Tier {
    #[verifier::type_invariant]
    spec fn inv(self) -> bool {
        0 <= self.n <= MAX_TIER
    }

    fn get(&self) -> (r: i64)
        ensures
            r == self@,
            0 <= r <= MAX_TIER,
    {
        proof {
            use_type_invariant(self);
        }
        self.n
    }
}

/// The snapshot's per-line stats record. The quartiles are exact, in quarters of a millisecond.
#[derive(Debug, Clone)]
pub struct BuffStat {
    pub spell: String,
    pub cls: BuffClass,
    pub n: usize,
    pub median_ms: Option<QuarterMs>,
    pub p25: Option<QuarterMs>,
    pub p75: Option<QuarterMs>,
    pub min_ms: Option<i64>,
    pub max_ms: Option<i64>,
    pub db_duration_ms: Option<i64>,
    pub estimate_ms: Option<i64>,
    pub estimator_source: Option<EstimatorSource>,
    pub last_seen_ms: Option<i64>,
}

/// What a [`BuffStat`] states.
#[verifier::ext_equal]
pub struct Stat {
    pub spell: Seq<char>,
    pub cls: BuffClass,
    pub n: int,
    pub median_ms: Option<int>,
    pub p25: Option<int>,
    pub p75: Option<int>,
    pub min_ms: Option<i64>,
    pub max_ms: Option<i64>,
    pub db_duration_ms: Option<i64>,
    pub estimate_ms: Option<i64>,
    pub estimator_source: Option<EstimatorSource>,
    pub last_seen_ms: Option<i64>,
}

impl View for BuffStat {
    type V = Stat;

    open spec fn view(&self) -> Stat {
        Stat {
            spell: self.spell@,
            cls: self.cls,
            n: self.n as int,
            median_ms: opt_quarters(self.median_ms),
            p25: opt_quarters(self.p25),
            p75: opt_quarters(self.p75),
            min_ms: self.min_ms,
            max_ms: self.max_ms,
            db_duration_ms: self.db_duration_ms,
            estimate_ms: self.estimate_ms,
            estimator_source: self.estimator_source,
            last_seen_ms: self.last_seen_ms,
        }
    }
}

/// A number put where it belongs in an ascending list.
pub open spec fn slotted(s: Seq<i64>, x: i64) -> Seq<i64>
    decreases s.len(),
{
    if s.len() == 0 || s.last() <= x {
        s.push(x)
    } else {
        slotted(s.drop_last(), x).push(s.last())
    }
}

/// The spans of the cycles among the samples, in ascending order; a death bound is not a cycle.
pub open spec fn cycles(s: Seq<DurationSample>) -> Seq<i64>
    decreases s.len(),
{
    if s.len() == 0 {
        Seq::empty()
    } else if s.last().death_bound {
        cycles(s.drop_last())
    } else {
        slotted(cycles(s.drop_last()), s.last().ms)
    }
}

pub open spec fn ascending(s: Seq<i64>) -> bool {
    forall|i: int, j: int| 0 <= i <= j && j < s.len() ==> s[i] <= s[j]
}

proof fn lemma_slotted_at(s: Seq<i64>, x: i64, i: int)
    requires
        0 <= i <= s.len(),
        i > 0 ==> s[i - 1] <= x,
        forall|j: int| i <= j < s.len() ==> s[j] > x,
    ensures
        slotted(s, x) == s.insert(i, x),
    decreases s.len(),
{
    if i < s.len() {
        lemma_slotted_at(s.drop_last(), x, i);
        assert(s.insert(i, x) =~= s.drop_last().insert(i, x).push(s.last()));
    } else {
        assert(s.insert(i, x) =~= s.push(x));
    }
}

fn sorted_cycles(s: &Vec<DurationSample>) -> (r: Vec<i64>)
    ensures
        r@ == cycles(s@),
        r@.len() <= s@.len(),
{
    let mut out: Vec<i64> = Vec::new();
    let mut k: usize = 0;
    while k < s.len()
        invariant
            k <= s.len(),
            out@ == cycles(s@.take(k as int)),
            out.len() <= k,
        decreases s.len() - k,
    {
        assert(s@.take(k + 1).drop_last() =~= s@.take(k as int));
        if !s[k].death_bound {
            let x: i64 = s[k].ms;
            let mut i: usize = out.len();
            while i > 0 && out[i - 1] > x
                invariant
                    i <= out.len(),
                    forall|j: int| i <= j < out.len() ==> out@[j] > x,
                decreases i,
            {
                i = i - 1;
            }
            proof {
                lemma_slotted_at(out@, x, i as int);
            }
            out.insert(i, x);
        }
        k = k + 1;
    }
    assert(s@.take(k as int) =~= s@);
    out
}

/// The cycles are listed in ascending order, one for each sample that is no death bound.
pub proof fn cycles_ascend(s: Seq<DurationSample>)
    ensures
        ascending(cycles(s)),
        cycles(s).len() == s.filter(|x: DurationSample| !x.death_bound).len(),
    decreases s.len(),
{
    reveal(Seq::filter);
    if s.len() > 0 {
        cycles_ascend(s.drop_last());
        if !s.last().death_bound {
            lemma_slotted_ascends(cycles(s.drop_last()), s.last().ms);
        }
    }
}

proof fn lemma_slotted_ascends(s: Seq<i64>, x: i64)
    requires
        ascending(s),
    ensures
        ascending(slotted(s, x)),
        slotted(s, x).len() == s.len() + 1,
        slotted(s, x).last() == x || (s.len() > 0 && slotted(s, x).last() == s.last()),
    decreases s.len(),
{
    if s.len() == 0 || s.last() <= x {
    } else {
        lemma_slotted_ascends(s.drop_last(), x);
        let p = slotted(s.drop_last(), x);
        assert(p.last() <= s.last());
        assert forall|i: int| 0 <= i < p.len() implies p[i] <= s.last() by {
            assert(p[i] <= p[p.len() - 1]);
        }
    }
}

/// What a [`SpellStats`] knows.
#[verifier::ext_equal]
pub struct Learned {
    pub db: Dict<Row>,
    pub samples: Dict<Sampled>,
    pub ever_faded: Seq<Seq<char>>,
    pub wear_off: Set<Seq<char>>,
    pub last_seen: Dict<i64>,
    pub cast_tiers: Dict<int>,
}

impl Learned {
    /// The samples of one line as one caster casts it.
    pub open spec fn samples_of(self, key: Seq<char>, caster: Seq<char>) -> Seq<DurationSample> {
        match self.samples.get(learning_key(key, caster)) {
            Some(s) => s.samples,
            None => Seq::empty(),
        }
    }

    pub open spec fn db_duration(self, key: Seq<char>) -> Option<i64> {
        match self.db.get(key) {
            Some(row) => row.duration_ms,
            None => None,
        }
    }

    pub open spec fn tier(self, key: Seq<char>, caster: Seq<char>) -> int {
        match self.cast_tiers.get(learning_key(key, caster)) {
            Some(t) => t,
            None => 0,
        }
    }

    /// The catalog's duration, grown by the tier the log named for this caster.
    pub open spec fn floor(self, key: Seq<char>, caster: Seq<char>) -> Option<i64> {
        match self.db.get(key) {
            Some(row) => match row.duration_ms {
                Some(ms) => Some(
                    grown_ms(ms as int, row.category, self.tier(key, caster)) as i64,
                ),
                None => None,
            },
            None => None,
        }
    }

    pub open spec fn illusion(self, key: Seq<char>) -> bool {
        self.db.get(key) matches Some(row) && row.illusion
    }

    /// The catalog's own word that the spell never expires.
    pub open spec fn permanent(self, key: Seq<char>) -> bool {
        self.db.get(key) matches Some(row) && row.duration_text == Some("Permanent"@)
    }

    pub open spec fn class(self, key: Seq<char>) -> BuffClass {
        match self.db.get(key) {
            Some(row) if row.nature == Nature::Detrimental => BuffClass::Debuff,
            _ => BuffClass::Buff,
        }
    }

    pub open spec fn observed(self, key: Seq<char>, caster: Seq<char>) -> Option<WindowMax> {
        observed(self.samples_of(key, caster))
    }

    /// The clean spans of the window, newest first.
    pub open spec fn clean_spans(self, key: Seq<char>, caster: Seq<char>) -> Seq<i64> {
        clean_window(self.samples_of(key, caster)).map_values(|x: DurationSample| x.ms)
    }

    /// The larger of the floor and the best observation, unless the clean observations agree on less
    /// than the floor.
    pub open spec fn estimate(self, key: Seq<char>, caster: Seq<char>) -> Estimate {
        match (self.floor(key, caster), self.observed(key, caster)) {
            (None, None) => Estimate { ms: None, source: None },
            (Some(db), None) => Estimate { ms: Some(db), source: Some(EstimatorSource::Db) },
            (None, Some(o)) => Estimate { ms: Some(o.ms), source: Some(learned_source(o)) },
            (Some(db), Some(o)) => if o.ms > db {
                Estimate { ms: Some(o.ms), source: Some(learned_source(o)) }
            } else if o.ms < db && corroborates(self.clean_spans(key, caster)) {
                Estimate { ms: Some(o.ms), source: Some(EstimatorSource::Cluster) }
            } else {
                Estimate { ms: Some(db), source: Some(EstimatorSource::Db) }
            },
        }
    }

    /// The record of a line that has samples.
    pub open spec fn stat(self, key: Seq<char>, caster: Seq<char>) -> Option<Stat> {
        match self.samples.get(learning_key(key, caster)) {
            Some(s) if s.samples.len() > 0 => {
                let c = cycles(s.samples);
                let some = c.len() > 0;
                Some(
                    Stat {
                        spell: s.spell,
                        cls: self.class(key),
                        n: c.len() as int,
                        median_ms: if some {
                            Some(quartile(c, 2))
                        } else {
                            None
                        },
                        p25: if some {
                            Some(quartile(c, 1))
                        } else {
                            None
                        },
                        p75: if some {
                            Some(quartile(c, 3))
                        } else {
                            None
                        },
                        min_ms: if some {
                            Some(c[0])
                        } else {
                            None
                        },
                        max_ms: if some {
                            Some(c[c.len() - 1])
                        } else {
                            None
                        },
                        db_duration_ms: self.db_duration(key),
                        estimate_ms: self.estimate(key, caster).ms,
                        estimator_source: self.estimate(key, caster).source,
                        last_seen_ms: self.last_seen.get(key),
                    },
                )
            },
            _ => None,
        }
    }

    /// What a line without samples is called: the name last noted for it, else the catalog's, else
    /// its key.
    pub open spec fn shown_name(self, key: Seq<char>) -> Seq<char> {
        match self.samples.get(learning_key(key, SELF_CASTER@)) {
            Some(s) => s.spell,
            None => match self.db.get(key) {
                Some(row) => row.name,
                None => key,
            },
        }
    }

    /// The player's own record of a line: what was measured, or the floor alone.
    pub open spec fn line_stat(self, key: Seq<char>) -> Stat {
        match self.stat(key, SELF_CASTER@) {
            Some(st) => st,
            None => {
                let floor = self.floor(key, SELF_CASTER@);
                Stat {
                    spell: self.shown_name(key),
                    cls: self.class(key),
                    n: 0,
                    median_ms: None,
                    p25: None,
                    p75: None,
                    min_ms: None,
                    max_ms: None,
                    db_duration_ms: self.db_duration(key),
                    estimate_ms: floor,
                    estimator_source: match floor {
                        Some(_) => Some(EstimatorSource::Db),
                        None => None,
                    },
                    last_seen_ms: self.last_seen.get(key),
                }
            },
        }
    }

    pub open spec fn note_ever_faded(self, key: Seq<char>) -> Learned {
        Learned {
            ever_faded: if self.ever_faded.contains(key) {
                self.ever_faded
            } else {
                self.ever_faded.push(key)
            },
            ..self
        }
    }

    pub open spec fn touch_last_seen(self, key: Seq<char>, ts: i64) -> Learned {
        match self.last_seen.get(key) {
            Some(prev) if ts <= prev => self,
            _ => Learned { last_seen: self.last_seen.put(key, ts), ..self },
        }
    }

    /// A numeral raises the tier of a line; a name without one states nothing.
    pub open spec fn note_cast_tier(self, key: Seq<char>, caster: Seq<char>, name: Seq<char>) -> Learned {
        let tier = rank_of(name);
        let lk = learning_key(key, caster);
        if tier <= 0 {
            self
        } else {
            match self.cast_tiers.get(lk) {
                Some(prev) if tier <= prev => self,
                _ => Learned { cast_tiers: self.cast_tiers.put(lk, tier), ..self },
            }
        }
    }

    /// The row of a line and caster, as a landing or a sample named `spell` leaves its name.
    pub open spec fn row_named(self, key: Seq<char>, caster: Seq<char>, spell: Seq<char>) -> Sampled {
        match self.samples.get(learning_key(key, caster)) {
            Some(s) => Sampled { spell: preferred_name(s.spell, spell), samples: s.samples },
            None => Sampled { spell, samples: Seq::empty() },
        }
    }

    pub open spec fn push_sample(
        self,
        key: Seq<char>,
        caster: Seq<char>,
        spell: Seq<char>,
        sample: DurationSample,
    ) -> Learned {
        let row = self.row_named(key, caster, spell);
        Learned {
            samples: self.samples.put(
                learning_key(key, caster),
                Sampled { spell: row.spell, samples: row.samples.push(sample) },
            ),
            ..self
        }
    }

    pub open spec fn note_display_name(self, key: Seq<char>, caster: Seq<char>, spell: Seq<char>) -> Learned {
        Learned {
            samples: self.samples.put(
                learning_key(key, caster),
                self.row_named(key, caster, spell),
            ),
            ..self
        }.note_cast_tier(key, caster, spell)
    }
}

/// The place of the newest sample closed at `ts`, or -1.
pub open spec fn newest_closed_at(s: Seq<DurationSample>, ts: i64) -> int
    decreases s.len(),
{
    if s.len() == 0 {
        -1
    } else if s.last().ts == ts {
        s.len() - 1
    } else {
        newest_closed_at(s.drop_last(), ts)
    }
}

pub open spec fn learned_source(o: WindowMax) -> EstimatorSource {
    if o.bound {
        EstimatorSource::DeathBound
    } else {
        EstimatorSource::Observed
    }
}

/// The learner. Everything in it is knowledge of the game and none of it is a character's state.
pub struct SpellStats {
    /// The projected spell catalog, which is the authoritative prior.
    pub db: SpellFacts,
    /// Mined samples per (LINE, CASTER).
    samples: JsMap<SpellSamples>,
    /// Spell keys ever seen fading or applied, in the order they were first seen.
    pub ever_faded: Vec<String>,
    /// Spell lines this log has ever printed a target-named wear-off for.
    wear_off_witnessed: Vec<String>,
    /// The newest stamp of any event of a spell.
    last_seen: JsMap<i64>,
    /// The highest upgrade tier a cast line has named for a (LINE, CASTER).
    cast_tiers: JsMap<Tier>,
}

impl View for SpellStats {
    type V = Learned;

    closed spec fn view(&self) -> Learned {
        Learned {
            db: self.db@,
            samples: self.samples@,
            ever_faded: texts(self.ever_faded@),
            wear_off: Set::new(|k: Seq<char>| texts(self.wear_off_witnessed@).contains(k)),
            last_seen: self.last_seen@,
            cast_tiers: self.cast_tiers@,
        }
    }
}

proof fn lemma_texts_push(v: Seq<String>, s: String)
    ensures
        texts(v.push(s)) == texts(v).push(s@),
        forall|k: Seq<char>|
            texts(v.push(s)).contains(k) <==> #[trigger] texts(v).contains(k) || k == s@,
{
    assert(texts(v.push(s)) =~= texts(v).push(s@));
    assert forall|k: Seq<char>|
        texts(v.push(s)).contains(k) <==> #[trigger] texts(v).contains(k) || k == s@ by {
        let t = texts(v);
        if t.contains(k) {
            let i = choose|i: int| 0 <= i < t.len() && t[i] == k;
            assert(t.push(s@)[i] == k);
        }
        if k == s@ {
            assert(t.push(s@)[t.len() as int] == k);
        }
        if t.push(s@).contains(k) && k != s@ {
            let i = choose|i: int| 0 <= i < t.push(s@).len() && t.push(s@)[i] == k;
            assert(t[i] == k);
        }
    }
}

impl SpellStats {
    pub fn new(db: SpellFacts) -> (r: Self)
        ensures
            r@ == (Learned {
                db: db@,
                samples: Dict::empty(),
                ever_faded: Seq::empty(),
                wear_off: Set::empty(),
                last_seen: Dict::empty(),
                cast_tiers: Dict::empty(),
            }),
    {
        let r = SpellStats {
            db,
            samples: JsMap::new(),
            ever_faded: Vec::new(),
            wear_off_witnessed: Vec::new(),
            last_seen: JsMap::new(),
            cast_tiers: JsMap::new(),
        };
        assert(r@.ever_faded =~= Seq::empty());
        assert(r@.wear_off =~= Set::empty());
        r
    }

    /// Forgets everything the log taught; the catalog stays.
    pub fn reset(&mut self)
        ensures
            final(self)@ == (Learned {
                db: old(self)@.db,
                samples: Dict::empty(),
                ever_faded: Seq::empty(),
                wear_off: Set::empty(),
                last_seen: Dict::empty(),
                cast_tiers: Dict::empty(),
            }),
    {
        self.samples.clear();
        self.ever_faded.clear();
        self.wear_off_witnessed.clear();
        self.last_seen.clear();
        self.cast_tiers.clear();
        assert(self@.ever_faded =~= Seq::empty());
        assert(self@.wear_off =~= Set::empty());
    }

    /// Notes a spell as seen, once, at the end of the list.
    pub fn note_ever_faded(&mut self, key: &str)
        ensures
            final(self)@ == old(self)@.note_ever_faded(key@),
    {
        if !lists(&self.ever_faded, key) {
            let k = key.to_owned();
            proof {
                lemma_texts_push(self.ever_faded@, k);
            }
            self.ever_faded.push(k);
        }
    }

    pub fn witness_wear_off_channel(&mut self, key: &str)
        ensures
            final(self)@ == (Learned { wear_off: old(self)@.wear_off.insert(key@), ..old(self)@ }),
    {
        if !lists(&self.wear_off_witnessed, key) {
            let k = key.to_owned();
            proof {
                lemma_texts_push(self.wear_off_witnessed@, k);
            }
            self.wear_off_witnessed.push(k);
        }
        assert(self@.wear_off =~= old(self)@.wear_off.insert(key@));
    }

    pub fn has_wear_off_channel(&self, key: &str) -> (r: bool)
        ensures
            r == self@.wear_off.contains(key@),
    {
        lists(&self.wear_off_witnessed, key)
    }

    /// Records the newest stamp a spell was seen at.
    pub fn touch_last_seen(&mut self, key: &str, ts: i64)
        ensures
            final(self)@ == old(self)@.touch_last_seen(key@, ts),
    {
        let newer: bool = match self.last_seen.get(key) {
            Some(prev) => ts > *prev,
            None => true,
        };
        if newer {
            self.last_seen.insert(key.to_owned(), ts);
        }
    }

    fn row_of(&self, key: &str) -> (r: Option<&SpellRow>)
        ensures
            match r {
                Some(row) => self@.db.get(key@) == Some(row@),
                None => self@.db.get(key@) is None,
            },
    {
        self.db.get(key)
    }

    /// The catalog's own number, unscaled.
    pub fn db_duration_for(&self, key: &str) -> (r: Option<i64>)
        ensures
            r == self@.db_duration(key@),
    {
        match self.row_of(key) {
            Some(row) => row.duration_ms,
            None => None,
        }
    }

    /// Records the upgrade tier a cast line named for this (line, caster): the higher of the two
    /// stands.
    pub fn note_cast_tier(&mut self, key: &str, caster: &str, ranked_name: &str)
        ensures
            final(self)@ == old(self)@.note_cast_tier(key@, caster@, ranked_name@),
            final(self)@.tier(key@, caster@) == max_of(
                old(self)@.tier(key@, caster@),
                rank_of(ranked_name@),
            ),
    {
        let tier: i64 = tier_of(ranked_name);
        if tier > self.cast_tier(key, caster) {
            self.cast_tiers.insert(learn_key(key, caster), Tier { n: tier });
        }
    }

    /// The tier this (line, caster) has been seen cast at; nought when no cast line ever named one.
    pub fn cast_tier(&self, key: &str, caster: &str) -> (r: i64)
        ensures
            r == self@.tier(key@, caster@),
            0 <= r <= MAX_TIER,
    {
        let lk = learn_key(key, caster);
        match self.cast_tiers.get(lk.as_str()) {
            Some(t) => t.get(),
            None => 0,
        }
    }

    /// The FLOOR the estimator stands on.
    pub fn floor_for(&self, key: &str, caster: &str) -> (r: Option<i64>)
        ensures
            r == self@.floor(key@, caster@),
    {
        let tier: i64 = self.cast_tier(key, caster);
        match self.row_of(key) {
            Some(row) => match row.duration_ms {
                Some(ms) => Some(scaled_floor_ms(ms, row.category, tier)),
                None => None,
            },
            None => None,
        }
    }

    /// True when a spell KEY is illusion-flagged in the catalog.
    pub fn is_illusion(&self, key: &str) -> (r: bool)
        ensures
            r == self@.illusion(key@),
    {
        match self.row_of(key) {
            Some(row) => row.illusion,
            None => false,
        }
    }

    /// Does the spell database say this spell never expires? The discriminator is the duration TEXT
    /// reading `Permanent`, and a missing duration alone is not it.
    pub fn is_permanent(&self, key: &str) -> (r: bool)
        ensures
            r == self@.permanent(key@),
    {
        match self.row_of(key) {
            Some(row) => match &row.duration_text {
                Some(text) => same(text.as_str(), "Permanent"),
                None => false,
            },
            None => false,
        }
    }

    /// Append a mined duration sample for one caster. The display name is re-read on every sample.
    pub fn push_sample(&mut self, key: &str, caster: &str, spell: &str, sample: DurationSample)
        ensures
            final(self)@ == old(self)@.push_sample(key@, caster@, spell@, sample),
    {
        let row = self.row(key, caster, spell);
        row.samples.push(sample);
    }

    /// A landing said what this line is called: the same display-name write as `push_sample`, without
    /// a sample behind it, and the same rank when the name carries a numeral.
    pub fn note_display_name(&mut self, key: &str, caster: &str, spell: &str)
        ensures
            final(self)@ == old(self)@.note_display_name(key@, caster@, spell@),
    {
        self.row(key, caster, spell);
        self.note_cast_tier(key, caster, spell);
    }

    /// The (line, caster) row, minted if new, with its display name brought up to date.
    fn row(&mut self, key: &str, caster: &str, spell: &str) -> (r: &mut SpellSamples)
        ensures
            (*r)@ == old(self)@.row_named(key@, caster@, spell@),
            final(self)@ == (Learned {
                samples: old(self)@.samples.put(learning_key(key@, caster@), (*final(r))@),
                ..old(self)@
            }),
    {
        let lk = learn_key(key, caster);
        let name: String = match self.samples.get(lk.as_str()) {
            Some(s) => preferred_display_name(s.spell.as_str(), spell),
            None => spell.to_owned(),
        };
        if !self.samples.contains_key(lk.as_str()) {
            self.samples.insert(
                lk.clone(),
                SpellSamples { spell: spell.to_owned(), samples: Vec::new() },
            );
        }
        let s = self.samples.get_mut(lk.as_str()).unwrap();
        s.spell = name;
        s
    }

    /// Mark the newest sample closed at `closed_ts` CENSORED: the log named something that ended that
    /// cycle early, so its span is a lower bound. Says whether it found one that was not yet.
    pub fn censor_sample_at(&mut self, key: &str, caster: &str, closed_ts: i64) -> (r: bool)
        ensures
            ({
                let s = old(self)@.samples_of(key@, caster@);
                let at = newest_closed_at(s, closed_ts);
                let lk = learning_key(key@, caster@);
                &&& r == (at >= 0 && !s[at].censored)
                &&& r ==> final(self)@ == (Learned {
                    samples: old(self)@.samples.put(
                        lk,
                        Sampled {
                            spell: old(self)@.samples.at[lk].spell,
                            samples: s.update(at, DurationSample { censored: true, ..s[at] }),
                        },
                    ),
                    ..old(self)@
                })
                &&& !r ==> final(self)@ == old(self)@
            }),
    {
        let lk = learn_key(key, caster);
        let ghost samples = self@.samples_of(key@, caster@);
        let found: Option<usize> = match self.samples.get(lk.as_str()) {
            Some(row) => place_closed_at(&row.samples, closed_ts),
            None => None,
        };
        match found {
            Some(i) => {
                let row = self.samples.get_mut(lk.as_str()).unwrap();
                let sample: DurationSample = row.samples[i];
                if sample.censored {
                    proof {
                        self.samples@.lemma_put_same(lk@);
                    }
                    return false;
                }
                row.samples.set(i, DurationSample { censored: true, ..sample });
                true
            },
            None => false,
        }
    }

    /// The display name last minted for a (line, caster), for a row that has lost its own.
    pub fn sample_spell_name(&self, key: &str, caster: &str) -> (r: Option<&str>)
        ensures
            match r {
                Some(name) => self@.samples.get(learning_key(key@, caster@)) matches Some(s)
                    && s.spell == name@,
                None => self@.samples.get(learning_key(key@, caster@)) is None,
            },
    {
        let lk = learn_key(key, caster);
        match self.samples.get(lk.as_str()) {
            Some(s) => Some(s.spell.as_str()),
            None => None,
        }
    }

    /// The record of a line that has samples. The distribution columns describe every measured cycle,
    /// censored or not; a death bound is not counted, because it has no fade in it.
    pub fn stat_for(&self, key: &str, caster: &str) -> (r: Option<BuffStat>)
        ensures
            match r {
                Some(st) => self@.stat(key@, caster@) == Some(st@),
                None => self@.stat(key@, caster@) is None,
            },
    {
        let lk = learn_key(key, caster);
        let est = self.estimate_for(key, caster);
        match self.samples.get(lk.as_str()) {
            None => None,
            Some(s) => {
                if s.samples.len() == 0 {
                    return None;
                }
                let sorted = sorted_cycles(&s.samples);
                let n: usize = sorted.len();
                let some: bool = n > 0;
                let st = BuffStat {
                    spell: s.spell.clone(),
                    cls: self.class_of(key),
                    n,
                    median_ms: if some {
                        Some(percentile(&sorted, 2))
                    } else {
                        None
                    },
                    p25: if some {
                        Some(percentile(&sorted, 1))
                    } else {
                        None
                    },
                    p75: if some {
                        Some(percentile(&sorted, 3))
                    } else {
                        None
                    },
                    min_ms: if some {
                        Some(sorted[0])
                    } else {
                        None
                    },
                    max_ms: if some {
                        Some(sorted[n - 1])
                    } else {
                        None
                    },
                    db_duration_ms: self.db_duration_for(key),
                    estimate_ms: est.ms,
                    estimator_source: est.source,
                    last_seen_ms: self.seen(key),
                };
                Some(st)
            },
        }
    }

    fn seen(&self, key: &str) -> (r: Option<i64>)
        ensures
            r == self@.last_seen.get(key@),
    {
        match self.last_seen.get(key) {
            Some(ts) => Some(*ts),
            None => None,
        }
    }

    /// The observed candidate that competes with the floor: the best over both windows of samples for
    /// this (line, caster). A censored sample still counts, as the lower bound it is; a death bound is
    /// held to what the window's own clean fades have proven.
    pub fn observed_window_max_for(&self, key: &str, caster: &str) -> (r: Option<WindowMax>)
        ensures
            r == self@.observed(key@, caster@),
    {
        let lk = learn_key(key, caster);
        match self.samples.get(lk.as_str()) {
            None => {
                assert(window(Seq::empty()) =~= Seq::empty());
                None
            },
            Some(s) => {
                let cap: Option<i64> = clean_fade_cap(&s.samples);
                let clean = recent_of(&s.samples, false);
                let broken = recent_of(&s.samples, true);
                let best = fold_all(None, &clean, cap, Ghost(Seq::empty()));
                assert(Seq::<DurationSample>::empty() + clean@ =~= clean@);
                fold_all(best, &broken, cap, Ghost(clean@))
            },
        }
    }

    /// The most recent CLEAN spans for this (line, caster), newest first. Lower bounds are absent:
    /// they may neither corroborate a cluster nor break one.
    pub fn clean_window_for(&self, key: &str, caster: &str) -> (r: Vec<i64>)
        ensures
            r@ == self@.clean_spans(key@, caster@),
    {
        let lk = learn_key(key, caster);
        let mut out: Vec<i64> = Vec::new();
        match self.samples.get(lk.as_str()) {
            None => {
                assert(out@ =~= self@.clean_spans(key@, caster@));
                out
            },
            Some(s) => {
                let w = recent_of(&s.samples, false);
                let mut i: usize = 0;
                while i < w.len()
                    invariant
                        i <= w.len(),
                        out.len() == i,
                        forall|j: int| 0 <= j < i ==> out@[j] == (#[trigger] w@[j]).ms,
                    decreases w.len() - i,
                {
                    out.push(w[i].ms);
                    i = i + 1;
                }
                assert(out@ =~= w@.map_values(|x: DurationSample| x.ms));
                out
            },
        }
    }

    /// The one estimator.
    pub fn estimate_for(&self, key: &str, caster: &str) -> (r: Estimate)
        ensures
            r == self@.estimate(key@, caster@),
    {
        let db_ms: Option<i64> = self.floor_for(key, caster);
        let observed: Option<WindowMax> = self.observed_window_max_for(key, caster);
        let learned: EstimatorSource = match observed {
            Some(o) if o.bound => EstimatorSource::DeathBound,
            _ => EstimatorSource::Observed,
        };
        if let Some(db) = db_ms {
            if let Some(o) = observed {
                if o.ms > db {
                    return Estimate { ms: Some(o.ms), source: Some(learned) };
                }
                if o.ms < db {
                    let w = self.clean_window_for(key, caster);
                    if corroborated_max(&w).is_some() {
                        return Estimate { ms: Some(o.ms), source: Some(EstimatorSource::Cluster) };
                    }
                }
            }
            return Estimate { ms: Some(db), source: Some(EstimatorSource::Db) };
        }
        match observed {
            Some(o) => Estimate { ms: Some(o.ms), source: Some(learned) },
            None => Estimate { ms: None, source: None },
        }
    }

    /// The class of a spell, from the spell's NATURE and from nothing else. A spell whose nature
    /// nobody states is a buff.
    pub fn class_of(&self, key: &str) -> (r: BuffClass)
        ensures
            r == self@.class(key@),
    {
        match self.row_of(key) {
            Some(row) => match row.nature {
                Nature::Detrimental => BuffClass::Debuff,
                _ => BuffClass::Buff,
            },
            None => BuffClass::Buff,
        }
    }

    /// Does this spell CALM its target?
    pub fn calms_target(&self, key: &str) -> (r: bool)
        ensures
            r == (self@.db.get(key@) matches Some(row) && row.calms_target),
    {
        match self.row_of(key) {
            Some(row) => row.calms_target,
            None => false,
        }
    }

    /// The player's own record of one line.
    fn line_record(&self, key: &str) -> (r: BuffStat)
        ensures
            r@ == self@.line_stat(key@),
    {
        match self.stat_for(key, SELF_CASTER) {
            Some(st) => st,
            None => {
                let floor_ms: Option<i64> = self.floor_for(key, SELF_CASTER);
                let spell: String = match self.sample_spell_name(key, SELF_CASTER) {
                    Some(name) => name.to_owned(),
                    None => match self.row_of(key) {
                        Some(row) => row.name.clone(),
                        None => key.to_owned(),
                    },
                };
                BuffStat {
                    spell,
                    cls: self.class_of(key),
                    n: 0,
                    median_ms: None,
                    p25: None,
                    p75: None,
                    min_ms: None,
                    max_ms: None,
                    db_duration_ms: self.db_duration_for(key),
                    estimate_ms: floor_ms,
                    estimator_source: match floor_ms {
                        Some(_) => Some(EstimatorSource::Db),
                        None => None,
                    },
                    last_seen_ms: self.seen(key),
                }
            },
        }
    }

    /// The snapshot's stats record: every spell ever faded, with or without samples. It reports the
    /// SELF caster's numbers only.
    pub fn build_stats(&self) -> (r: JsMap<BuffStat>)
        ensures
            forall|k: Seq<char>|
                #[trigger] r@.get(k) == (if self@.ever_faded.contains(k) {
                    Some(self@.line_stat(k))
                } else {
                    None
                }),
            self@.ever_faded.no_duplicates() ==> r@.order == self@.ever_faded,
    {
        let mut stats: JsMap<BuffStat> = JsMap::new();
        let mut i: usize = 0;
        let ghost all = self@.ever_faded;
        while i < self.ever_faded.len()
            invariant
                i <= self.ever_faded.len(),
                all == self@.ever_faded,
                all == texts(self.ever_faded@),
                forall|k: Seq<char>|
                    #[trigger] stats@.get(k) == (if all.take(i as int).contains(k) {
                        Some(self@.line_stat(k))
                    } else {
                        None
                    }),
                all.no_duplicates() ==> stats@.order == all.take(i as int),
            decreases self.ever_faded.len() - i,
        {
            let key = self.ever_faded[i].as_str();
            let st = self.line_record(key);
            let ghost front = all.take(i as int);
            let ghost before = stats@;
            proof {
                assert(key@ == all[i as int]);
                assert(all.take(i + 1) =~= front.push(key@));
                assert forall|k: Seq<char>|
                    #[trigger] front.push(key@).contains(k) <==> front.contains(k) || k == key@ by {
                    if front.contains(k) {
                        let j = choose|j: int| 0 <= j < front.len() && front[j] == k;
                        assert(front.push(key@)[j] == k);
                    }
                    assert(front.push(key@)[front.len() as int] == key@);
                    if front.push(key@).contains(k) && k != key@ {
                        let j = choose|j: int|
                            0 <= j < front.push(key@).len() && front.push(key@)[j] == k;
                        assert(front[j] == k);
                    }
                }
                if all.no_duplicates() {
                    if front.contains(key@) {
                        let j = choose|j: int| 0 <= j < front.len() && front[j] == key@;
                        assert(all[j] == all[i as int]);
                    }
                    assert(before.get(key@) is None);
                }
            }
            stats.insert(key.to_owned(), st);
            assert forall|k: Seq<char>|
                #[trigger] stats@.get(k) == (if all.take(i + 1).contains(k) {
                    Some(self@.line_stat(k))
                } else {
                    None
                }) by {
                assert(before.get(k) == (if front.contains(k) {
                    Some(self@.line_stat(k))
                } else {
                    None
                }));
                assert(front.push(key@).contains(k) <==> front.contains(k) || k == key@);
            }
            i = i + 1;
        }
        assert(all.take(i as int) =~= all);
        stats
    }
}

fn place_closed_at(s: &Vec<DurationSample>, ts: i64) -> (r: Option<usize>)
    ensures
        match r {
            Some(i) => i < s.len() && newest_closed_at(s@, ts) == i,
            None => newest_closed_at(s@, ts) == -1,
        },
{
    let mut i: usize = s.len();
    assert(s@.take(i as int) =~= s@);
    while i > 0
        invariant
            i <= s.len(),
            newest_closed_at(s@, ts) == newest_closed_at(s@.take(i as int), ts),
        decreases i,
    {
        assert(s@.take(i as int).drop_last() =~= s@.take(i - 1));
        if s[i - 1].ts == ts {
            return Some(i - 1);
        }
        i = i - 1;
    }
    None
}

// ---- what the estimator keeps ---------------------------------------------------------------

/// Where the window holds a clean fade, a death bound never wins: the observed candidate is a measured
/// span, and no sample that is not a death bound exceeds it.
pub proof fn a_bound_never_outranks_a_fade(s: Seq<DurationSample>)
    requires
        clean_window(s).len() > 0,
    ensures
        observed(s) matches Some(o) ==> !o.bound && exists|i: int|
            0 <= i < window(s).len() && !(#[trigger] window(s)[i]).death_bound && window(s)[i].ms
                == o.ms,
        observed(s) matches Some(o) ==> forall|i: int|
            0 <= i < window(s).len() && !(#[trigger] window(s)[i]).death_bound ==> window(s)[i].ms
                <= o.ms,
        observed(s) is Some,
{
    let c = clean_window(s);
    let w = window(s);
    let cap = fade_cap(s);
    recent_is_of_one_class(s, false, RECENT_SAMPLE_WINDOW as int);
    longest_is_the_largest(c);
    best_of_is_the_largest(w, cap);
    let top = choose|i: int| 0 <= i < c.len() && (#[trigger] c[i]).ms == cap->0;
    assert(w[top] == c[top]);
    assert(!c[top].lower_bound());
    let o = observed(s)->0;
    let won = choose|i: int| 0 <= i < w.len() && contribution(#[trigger] w[i], cap) == o.ms;
    if w[won].death_bound {
        assert(contribution(w[won], cap) <= cap->0);
        assert(contribution(w[top], cap) == cap->0);
        assert(w[top].ms == o.ms);
        assert(!w[top].death_bound);
    } else {
        assert(w[won].ms == o.ms);
    }
    assert forall|i: int| 0 <= i < w.len() && !(#[trigger] w[i]).death_bound implies w[i].ms
        <= o.ms by {
        assert(contribution(w[i], cap) == w[i].ms);
    }
}

/// A death bound is not a cycle: the clean window and the measured cycles stand as they stood.
pub proof fn a_death_bound_is_no_cycle(s: Seq<DurationSample>, x: DurationSample)
    requires
        x.death_bound,
    ensures
        clean_window(s.push(x)) == clean_window(s),
        cycles(s.push(x)) == cycles(s),
{
    a_class_never_evicts_the_other(s, x);
    assert(s.push(x).drop_last() =~= s);
}

impl Learned {
    /// The estimate is never below the floor, but where measured cycles agree on less.
    pub proof fn only_a_cluster_goes_below_the_floor(self, key: Seq<char>, caster: Seq<char>)
        ensures
            ({
                let e = self.estimate(key, caster);
                self.floor(key, caster) matches Some(db) ==> e.ms is Some && (e.ms->0 >= db
                    || e.source == Some(EstimatorSource::Cluster))
            }),
    {
    }

    /// The estimate is never below what a sample of the window puts to it: it is not drawn below a
    /// lower bound that the log has proven.
    pub proof fn the_estimate_covers_the_window(self, key: Seq<char>, caster: Seq<char>, i: int)
        requires
            0 <= i < window(self.samples_of(key, caster)).len(),
        ensures
            ({
                let s = self.samples_of(key, caster);
                let e = self.estimate(key, caster);
                e.ms is Some && e.ms->0 >= contribution(window(s)[i], fade_cap(s))
            }),
    {
        let s = self.samples_of(key, caster);
        best_of_is_the_largest(window(s), fade_cap(s));
    }

    /// An observation that merely equals the floor changes nothing.
    pub proof fn an_observation_at_the_floor_changes_nothing(self, key: Seq<char>, caster: Seq<char>)
        requires
            self.floor(key, caster) is Some,
            self.observed(key, caster) matches Some(o) && o.ms == self.floor(key, caster)->0,
        ensures
            self.estimate(key, caster) == (Estimate {
                ms: self.floor(key, caster),
                source: Some(EstimatorSource::Db),
            }),
    {
    }

    /// A line whose caster has no samples is estimated at its floor, and at nothing where it has none.
    pub proof fn without_samples_the_floor_stands(self, key: Seq<char>, caster: Seq<char>)
        requires
            self.samples_of(key, caster).len() == 0,
        ensures
            self.estimate(key, caster).ms == self.floor(key, caster),
    {
        assert(window(self.samples_of(key, caster)) =~= Seq::empty());
    }

    /// Casters never pool: a sample of one caster leaves the samples and the estimate of a line as
    /// another casts it.
    pub proof fn casters_never_pool(
        self,
        key: Seq<char>,
        caster: Seq<char>,
        spell: Seq<char>,
        sample: DurationSample,
        other: Seq<char>,
    )
        requires
            other != caster,
        ensures
            self.push_sample(key, caster, spell, sample).samples_of(key, other) == self.samples_of(
                key,
                other,
            ),
            self.push_sample(key, caster, spell, sample).estimate(key, other) == self.estimate(
                key,
                other,
            ),
    {
        a_learners_key_is_its_own(key, caster, key, other);
    }

    /// Neither do lines: a sample leaves whatever any other line and caster have learned.
    pub proof fn lines_never_pool(
        self,
        key: Seq<char>,
        caster: Seq<char>,
        spell: Seq<char>,
        sample: DurationSample,
        other_key: Seq<char>,
        other: Seq<char>,
    )
        requires
            (other_key, other) != (key, caster),
        ensures
            self.push_sample(key, caster, spell, sample).samples_of(other_key, other)
                == self.samples_of(other_key, other),
            self.push_sample(key, caster, spell, sample).estimate(other_key, other)
                == self.estimate(other_key, other),
    {
        a_learners_key_is_its_own(key, caster, other_key, other);
    }

    /// The highest tier a cast line named stands: a name without a numeral, or with a lower one, never
    /// lowers it. Nothing else moves, and neither does the tier of any other line and caster.
    pub proof fn the_highest_tier_stands(
        self,
        key: Seq<char>,
        caster: Seq<char>,
        name: Seq<char>,
        other_key: Seq<char>,
        other: Seq<char>,
    )
        requires
            self.tier(key, caster) >= 0,
        ensures
            ({
                let next = self.note_cast_tier(key, caster, name);
                &&& next.tier(key, caster) == max_of(self.tier(key, caster), rank_of(name))
                &&& (other_key, other) != (key, caster) ==> next.tier(other_key, other) == self.tier(
                    other_key,
                    other,
                )
                &&& next == (Learned { cast_tiers: next.cast_tiers, ..self })
            }),
    {
        lemma_rank_range(name);
        a_learners_key_is_its_own(key, caster, other_key, other);
    }

    /// The stamp a spell was last seen at never goes back.
    pub proof fn what_was_seen_stays_seen(self, key: Seq<char>, ts: i64)
        ensures
            self.last_seen.get(key) matches Some(prev) ==> self.touch_last_seen(
                key,
                ts,
            ).last_seen.get(key) matches Some(next) && next >= prev && next >= ts,
    {
    }

    /// A sample that is pushed is the newest of its line.
    pub proof fn a_pushed_sample_is_the_newest(
        self,
        key: Seq<char>,
        caster: Seq<char>,
        spell: Seq<char>,
        sample: DurationSample,
    )
        ensures
            self.push_sample(key, caster, spell, sample).samples_of(key, caster) == self.samples_of(
                key,
                caster,
            ).push(sample),
    {
    }
}

/// Five clean cycles in a row are the whole clean window: what came before them has aged out.
pub proof fn five_clean_cycles_fill_the_window(s: Seq<DurationSample>, t: Seq<DurationSample>)
    requires
        t.len() == RECENT_SAMPLE_WINDOW,
        forall|i: int| 0 <= i < t.len() ==> !(#[trigger] t[i]).lower_bound(),
    ensures
        clean_window(s + t) == t.reverse(),
{
    lemma_recent_tail(s, t, RECENT_SAMPLE_WINDOW as int);
    assert(recent(s, false, 0) =~= Seq::empty());
    assert(t.reverse() + Seq::<DurationSample>::empty() =~= t.reverse());
}

proof fn lemma_recent_tail(s: Seq<DurationSample>, t: Seq<DurationSample>, n: int)
    requires
        t.len() <= n,
        forall|i: int| 0 <= i < t.len() ==> !(#[trigger] t[i]).lower_bound(),
    ensures
        recent(s + t, false, n) == t.reverse() + recent(s, false, n - t.len()),
    decreases t.len(),
{
    if t.len() == 0 {
        assert(s + t =~= s);
        assert(t.reverse() + recent(s, false, n) =~= recent(s, false, n));
    } else {
        let f = t.drop_last();
        assert((s + t).drop_last() =~= s + f);
        assert((s + t).last() == t.last());
        assert(!t[t.len() - 1].lower_bound());
        assert forall|i: int| 0 <= i < f.len() implies !(#[trigger] f[i]).lower_bound() by {
            assert(f[i] == t[i]);
        }
        lemma_recent_tail(s, f, n - 1);
        assert(t.reverse() =~= seq![t.last()] + f.reverse());
        assert(seq![t.last()] + (f.reverse() + recent(s, false, n - t.len())) =~= t.reverse() + recent(
            s,
            false,
            n - t.len(),
        ));
    }
}

/// A name of the same base never takes the shown rank down.
pub proof fn a_shown_rank_never_falls(prev: Seq<char>, next: Seq<char>)
    requires
        lower(base_of(prev)) == lower(base_of(trimmed(next))),
    ensures
        rank_of(preferred_name(prev, next)) >= rank_of(prev),
{
}

/// While a line has no more samples than one window holds, and none of them is a death bound,
/// censoring one leaves the observed span where it was.
pub proof fn censoring_moves_nothing_yet(s: Seq<DurationSample>, i: int)
    requires
        0 <= i < s.len() <= RECENT_SAMPLE_WINDOW,
        forall|j: int| 0 <= j < s.len() ==> !(#[trigger] s[j]).death_bound,
    ensures
        observed(s) matches Some(a) && observed(
            s.update(i, DurationSample { censored: true, ..s[i] }),
        ) matches Some(b) && a == b,
{
    let t = s.update(i, DurationSample { censored: true, ..s[i] });
    assert forall|j: int| 0 <= j < t.len() implies !(#[trigger] t[j]).death_bound by {
        assert(!s[j].death_bound);
    }
    lemma_whole_window(s);
    lemma_whole_window(t);
    let a = observed(s)->0;
    let b = observed(t)->0;
    let x = choose|x: int| 0 <= x < s.len() && (#[trigger] s[x]).ms == a.ms;
    assert(t[x].ms == a.ms);
    let y = choose|y: int| 0 <= y < t.len() && (#[trigger] t[y]).ms == b.ms;
    assert(s[y].ms == b.ms);
}

/// A short list without death bounds: its observed span is the longest of it, and no bound.
proof fn lemma_whole_window(s: Seq<DurationSample>)
    requires
        0 < s.len() <= RECENT_SAMPLE_WINDOW,
        forall|j: int| 0 <= j < s.len() ==> !(#[trigger] s[j]).death_bound,
    ensures
        observed(s) is Some,
        !observed(s)->0.bound,
        forall|j: int| 0 <= j < s.len() ==> (#[trigger] s[j]).ms <= observed(s)->0.ms,
        exists|j: int| 0 <= j < s.len() && (#[trigger] s[j]).ms == observed(s)->0.ms,
{
    let w = window(s);
    let cap = fade_cap(s);
    lemma_recent_all(s, false, RECENT_SAMPLE_WINDOW as int);
    lemma_recent_all(s, true, RECENT_SAMPLE_WINDOW as int);
    best_of_is_the_largest(w, cap);
    assert forall|j: int| 0 <= j < s.len() implies w.contains(#[trigger] s[j]) by {
        let class = s[j].lower_bound();
        let r = recent(s, class, RECENT_SAMPLE_WINDOW as int);
        assert(r.contains(s[j]));
        let m = choose|m: int| 0 <= m < r.len() && r[m] == s[j];
        if class {
            assert(w[clean_window(s).len() + m] == s[j]);
        } else {
            assert(w[m] == s[j]);
        }
    }
    assert(w.contains(s[0]));
    let o = observed(s)->0;
    assert forall|m: int| 0 <= m < w.len() implies s.contains(#[trigger] w[m]) by {
        if m < clean_window(s).len() {
            assert(w[m] == clean_window(s)[m]);
        } else {
            assert(w[m] == bound_window(s)[m - clean_window(s).len()]);
        }
    }
    let won = choose|m: int| 0 <= m < w.len() && contribution(#[trigger] w[m], cap) == o.ms;
    assert(s.contains(w[won]));
    let j = choose|j: int| 0 <= j < s.len() && s[j] == w[won];
    assert(!s[j].death_bound);
    assert(s[j].ms == o.ms);
    assert forall|j: int| 0 <= j < s.len() implies (#[trigger] s[j]).ms <= o.ms by {
        let m = choose|m: int| 0 <= m < w.len() && w[m] == s[j];
        assert(contribution(w[m], cap) <= o.ms);
    }
}

/// With room for all of them, the newest of a class are all of the class.
proof fn lemma_recent_all(s: Seq<DurationSample>, bounds: bool, n: int)
    requires
        s.len() <= n,
    ensures
        forall|j: int|
            0 <= j < s.len() && (#[trigger] s[j]).lower_bound() == bounds ==> recent(
                s,
                bounds,
                n,
            ).contains(s[j]),
        forall|m: int|
            0 <= m && m < recent(s, bounds, n).len() ==> s.contains(#[trigger] recent(s, bounds, n)[m]),
    decreases s.len(),
{
    if s.len() > 0 && n > 0 {
        let f = s.drop_last();
        let r = recent(s, bounds, n);
        let last = s.last().lower_bound() == bounds;
        let k = if last { n - 1 } else { n };
        lemma_recent_all(f, bounds, k);
        let rf = recent(f, bounds, k);
        let shift: int = if last { 1 } else { 0 };
        assert forall|j: int| 0 <= j < s.len() && (#[trigger] s[j]).lower_bound() == bounds implies
            r.contains(s[j]) by {
            if j < f.len() {
                assert(f[j] == s[j]);
                assert(rf.contains(f[j]));
                let m = choose|m: int| 0 <= m < rf.len() && rf[m] == s[j];
                assert(r[m + shift] == s[j]);
            } else {
                assert(r[0] == s[j]);
            }
        }
        assert forall|m: int| 0 <= m && m < r.len() implies s.contains(#[trigger] r[m]) by {
            if last && m == 0 {
                assert(s[s.len() - 1] == r[m]);
            } else {
                assert(r[m] == rf[m - shift]);
                assert(f.contains(rf[m - shift]));
                let j = choose|j: int| 0 <= j < f.len() && f[j] == r[m];
                assert(s[j] == r[m]);
            }
        }
    }
}

} // verus!
