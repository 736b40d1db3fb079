//! What the duration learner is for: laws of its floor, its window, its estimate and its published
//! record, stated over the samples themselves.
use crate::buffs_shapes::{
    agrees_on, corroborates, quartile, BuffClass, DurationCategory, DurationSample, EstimatorSource,
};
use crate::buffs_stats::{
    best_of_is_the_largest, bound_window, clean_window, contribution, cycles, cycles_ascend,
    fade_cap, longest_is_the_largest, observed, recent, slotted, window, Learned,
};
use crate::spell_facts::Nature;
use vstd::prelude::*;

verus! {

// ---- the published record --------------------------------------------------------------------

proof fn lemma_slotted_holds(s: Seq<i64>, x: i64)
    ensures
        slotted(s, x).to_multiset() == s.to_multiset().insert(x),
        slotted(s, x).len() == s.len() + 1,
    decreases s.len(),
{
    broadcast use vstd::seq_lib::group_to_multiset_ensures;

    if s.len() == 0 || s.last() <= x {
    } else {
        lemma_slotted_holds(s.drop_last(), x);
        assert(s =~= s.drop_last().push(s.last()));
        assert(slotted(s, x).to_multiset() =~= s.to_multiset().insert(x));
    }
}

/// Every cycle is the span of a sample that is no death bound, and every such span is a cycle.
proof fn lemma_cycles_hold(s: Seq<DurationSample>)
    ensures
        forall|i: int|
            0 <= i < s.len() && !(#[trigger] s[i]).death_bound ==> cycles(s).contains(s[i].ms),
        forall|m: int|
            0 <= m && m < cycles(s).len() ==> exists|i: int|
                0 <= i < s.len() && !(#[trigger] s[i]).death_bound && s[i].ms == #[trigger] cycles(s)[m],
    decreases s.len(),
{
    broadcast use vstd::seq_lib::group_to_multiset_ensures;

    if s.len() > 0 {
        let f = s.drop_last();
        lemma_cycles_hold(f);
        let c = cycles(s);
        if !s.last().death_bound {
            lemma_slotted_holds(cycles(f), s.last().ms);
        }
        assert forall|i: int| 0 <= i < s.len() && !(#[trigger] s[i]).death_bound implies c.contains(
            s[i].ms,
        ) by {
            if i < f.len() {
                assert(f[i] == s[i]);
                assert(cycles(f).contains(s[i].ms));
                assert(cycles(f).to_multiset().count(s[i].ms) > 0);
            }
            assert(c.to_multiset().count(s[i].ms) > 0);
        }
        assert forall|m: int| 0 <= m && m < c.len() implies exists|i: int|
            0 <= i < s.len() && !(#[trigger] s[i]).death_bound && s[i].ms == #[trigger] c[m] by {
            assert(c.to_multiset().count(c[m]) > 0);
            if !s.last().death_bound && c[m] == s.last().ms {
                assert(s[s.len() - 1].ms == c[m]);
            } else {
                assert(cycles(f).to_multiset().count(c[m]) > 0);
                assert(cycles(f).contains(c[m]));
                let x = choose|x: int| 0 <= x < cycles(f).len() && cycles(f)[x] == c[m];
                let i = choose|i: int|
                    0 <= i < f.len() && !(#[trigger] f[i]).death_bound && f[i].ms == cycles(f)[x];
                assert(s[i] == f[i]);
            }
        }
    }
}

/// A quartile of an ascending list lies between its neighbours.
proof fn lemma_quartile_between(c: Seq<i64>, k: int)
    requires
        c.len() > 0,
        crate::buffs_stats::ascending(c),
        1 <= k <= 3,
    ensures
        ({
            let lo = k * (c.len() - 1) / 4;
            let rem = k * (c.len() - 1) % 4;
            &&& 0 <= lo < c.len()
            &&& rem > 0 ==> lo + 1 < c.len()
            &&& 4 * c[lo] <= quartile(c, k)
            &&& rem > 0 ==> quartile(c, k) <= 4 * c[lo + 1]
            &&& rem == 0 ==> quartile(c, k) == 4 * c[lo]
        }),
{
    let n = c.len() - 1;
    let pos = k * n;
    assert(0 <= pos <= 3 * n) by (nonlinear_arith)
        requires
            pos == k * n,
            1 <= k <= 3,
            n >= 0,
    ;
    let lo = pos / 4;
    let rem = pos % 4;
    if rem > 0 {
        assert(c[lo] <= c[lo + 1]);
        let d = c[lo + 1] - c[lo];
        assert(0 <= rem * d <= 4 * d) by (nonlinear_arith)
            requires
                0 < rem < 4,
                d >= 0,
        ;
    }
}

proof fn lemma_quartiles_ascend(c: Seq<i64>, j: int, k: int)
    requires
        c.len() > 0,
        crate::buffs_stats::ascending(c),
        1 <= j < k <= 3,
    ensures
        quartile(c, j) <= quartile(c, k),
{
    lemma_quartile_between(c, j);
    lemma_quartile_between(c, k);
    let n = c.len() - 1;
    let (pj, pk) = (j * n, k * n);
    assert(pj + n <= pk && 0 <= pj) by (nonlinear_arith)
        requires
            pj == j * n,
            pk == k * n,
            1 <= j,
            j + 1 <= k,
            n >= 0,
    ;
    let (lj, lk) = (pj / 4, pk / 4);
    if n == 0 {
        assert(pj == 0 && pk == 0) by (nonlinear_arith)
            requires
                n == 0,
                pj == j * n,
                pk == k * n,
        ;
    } else if lj == lk {
        let (rj, rk) = (pj % 4, pk % 4);
        assert(rj < rk);
        let d = c[lj + 1] - c[lj];
        assert(rj * d <= rk * d) by (nonlinear_arith)
            requires
                rj <= rk,
                d >= 0,
        ;
    } else {
        if pj % 4 > 0 {
            assert(c[lj + 1] <= c[lk]);
        } else {
            assert(c[lj] <= c[lk]);
        }
    }
}

impl Learned {
    /// The shortest and the longest of a record are spans of measured cycles, and no measured cycle is
    /// shorter or longer; the quartiles stand between them, in order. It counts every sample but the
    /// death bounds.
    pub proof fn a_record_spans_its_cycles(self, key: Seq<char>, caster: Seq<char>)
        ensures
            ({
                let s = self.samples_of(key, caster);
                self.stat(key, caster) matches Some(st) ==> {
                    &&& st.n == s.filter(|x: DurationSample| !x.death_bound).len()
                    &&& st.min_ms is Some <==> st.n > 0
                    &&& st.max_ms is Some <==> st.n > 0
                    &&& st.p25 is Some <==> st.n > 0
                    &&& st.median_ms is Some <==> st.n > 0
                    &&& st.p75 is Some <==> st.n > 0
                    &&& st.n > 0 ==> exists|i: int|
                        0 <= i < s.len() && !(#[trigger] s[i]).death_bound && s[i].ms == st.min_ms->0
                    &&& st.n > 0 ==> exists|i: int|
                        0 <= i < s.len() && !(#[trigger] s[i]).death_bound && s[i].ms == st.max_ms->0
                    &&& forall|i: int|
                        0 <= i < s.len() && !(#[trigger] s[i]).death_bound ==> st.min_ms->0 <= s[i].ms
                            <= st.max_ms->0
                    &&& st.n > 0 ==> 4 * st.min_ms->0 <= st.p25->0 <= st.median_ms->0 <= st.p75->0
                        <= 4 * st.max_ms->0
                }
            }),
    {
        let s = self.samples_of(key, caster);
        if let Some(st) = self.stat(key, caster) {
            let c = cycles(s);
            cycles_ascend(s);
            lemma_cycles_hold(s);
            if c.len() > 0 {
                let n = c.len() as int;
                let i = choose|i: int|
                    0 <= i < s.len() && !(#[trigger] s[i]).death_bound && s[i].ms == c[0];
                assert(s[i].ms == c[0]);
                let j = choose|j: int|
                    0 <= j < s.len() && !(#[trigger] s[j]).death_bound && s[j].ms == c[n - 1];
                assert(s[j].ms == c[n - 1]);
                lemma_quartile_between(c, 1);
                lemma_quartile_between(c, 3);
                lemma_quartiles_ascend(c, 1, 2);
                lemma_quartiles_ascend(c, 2, 3);
                assert forall|i: int| 0 <= i < s.len() && !(#[trigger] s[i]).death_bound implies c[0]
                    <= s[i].ms <= c[n - 1] by {
                    assert(c.contains(s[i].ms));
                    let m = choose|m: int| 0 <= m < c.len() && c[m] == s[i].ms;
                    assert(c[0] <= c[m] <= c[n - 1]);
                }
            } else {
                assert forall|i: int| 0 <= i < s.len() implies (#[trigger] s[i]).death_bound by {
                    if !s[i].death_bound {
                        assert(c.contains(s[i].ms));
                    }
                }
            }
        }
    }
}

/// The spans of the measured cycles, in any order.
pub open spec fn measured_spans(s: Seq<DurationSample>) -> Seq<i64> {
    s.filter(|x: DurationSample| !x.death_bound).map_values(|x: DurationSample| x.ms)
}

proof fn lemma_cycles_are_the_spans(s: Seq<DurationSample>)
    ensures
        cycles(s).to_multiset() == measured_spans(s).to_multiset(),
    decreases s.len(),
{
    broadcast use vstd::seq_lib::group_to_multiset_ensures;

    reveal(Seq::filter);
    let p = |x: DurationSample| !x.death_bound;
    let m = |x: DurationSample| x.ms;
    if s.len() > 0 {
        let f = s.drop_last();
        lemma_cycles_are_the_spans(f);
        if !s.last().death_bound {
            lemma_slotted_holds(cycles(f), s.last().ms);
            assert(f.filter(p).push(s.last()).map_values(m) =~= f.filter(p).map_values(m).push(
                s.last().ms,
            ));
        }
    } else {
        assert(measured_spans(s) =~= Seq::empty());
    }
}

impl Learned {
    /// However the measured spans are put in ascending order, the quartiles are read off that list: each
    /// lies a quarter, a half and three quarters of the way along it, and between two neighbours at the
    /// share of their distance that the way is past the first.
    pub proof fn a_quartile_is_read_off_the_spans_in_order(
        self,
        key: Seq<char>,
        caster: Seq<char>,
        c: Seq<i64>,
        k: int,
    )
        requires
            c.to_multiset() == measured_spans(self.samples_of(key, caster)).to_multiset(),
            forall|i: int, j: int| 0 <= i <= j && j < c.len() ==> c[i] <= c[j],
            c.len() > 0,
            1 <= k <= 3,
        ensures
            self.stat(key, caster) matches Some(st) && ({
                let q = if k == 1 {
                    st.p25
                } else if k == 2 {
                    st.median_ms
                } else {
                    st.p75
                };
                let way = k * (c.len() - 1);
                let lo = way / 4;
                &&& st.n == c.len()
                &&& way % 4 == 0 ==> q == Some(4 * c[lo])
                &&& way % 4 > 0 ==> q is Some && q->0 - 4 * c[lo] == (way % 4) * (c[lo + 1] - c[lo])
            }),
    {
        broadcast use vstd::seq_lib::group_to_multiset_ensures;

        let s = self.samples_of(key, caster);
        lemma_cycles_are_the_spans(s);
        cycles_ascend(s);
        let leq = |a: i64, b: i64| a <= b;
        assert(vstd::relations::sorted_by(c, leq));
        assert(vstd::relations::sorted_by(cycles(s), leq));
        assert(vstd::relations::total_ordering(leq));
        vstd::seq_lib::lemma_sorted_unique(c, cycles(s), leq);
        assert(cycles(s) == c);
        assert(s.len() > 0) by {
            if s.len() == 0 {
                assert(cycles(s).len() == 0);
            }
        }
    }

    /// A record states of its line what the catalog and the estimator say, and a line without samples
    /// has none.
    pub proof fn a_record_is_of_its_own_line(self, key: Seq<char>, caster: Seq<char>)
        ensures
            self.stat(key, caster) is Some <==> self.samples_of(key, caster).len() > 0,
            self.stat(key, caster) matches Some(st) ==> {
                &&& st.cls == BuffClass::Debuff <==> self.db.at.contains_key(key) && self.db.at[key].nature
                    == Nature::Detrimental
                &&& st.db_duration_ms == (if self.db.at.contains_key(key) {
                    self.db.at[key].duration_ms
                } else {
                    None
                })
                &&& st.estimate_ms == self.estimate(key, caster).ms
                &&& st.estimator_source == self.estimate(key, caster).source
                &&& st.last_seen_ms == (if self.last_seen.at.contains_key(key) {
                    Some(self.last_seen.at[key])
                } else {
                    None
                })
            },
    {
    }

    /// What is published of a line is the player's own record, and of a line without one the floor alone:
    /// nothing measured, and the catalog as its source.
    pub proof fn an_unmeasured_line_publishes_its_floor(self, key: Seq<char>)
        ensures
            ({
                let st = self.line_stat(key);
                let own = self.samples_of(key, "self"@);
                &&& own.len() > 0 ==> self.stat(key, "self"@) == Some(st)
                &&& own.len() == 0 ==> {
                    &&& st.n == 0
                    &&& st.min_ms is None && st.max_ms is None
                    &&& st.p25 is None && st.median_ms is None && st.p75 is None
                    &&& st.estimate_ms == self.floor(key, "self"@)
                    &&& st.estimator_source == Some(EstimatorSource::Db) <==> st.estimate_ms is Some
                    &&& st.estimator_source is None <==> st.estimate_ms is None
                    &&& st.cls == BuffClass::Debuff <==> self.db.at.contains_key(key)
                        && self.db.at[key].nature == Nature::Detrimental
                }
            }),
    {
    }
}

// ---- the window ------------------------------------------------------------------------------

/// The samples of one class of evidence, oldest first.
pub open spec fn of_class(s: Seq<DurationSample>, bounds: bool) -> Seq<DurationSample> {
    s.filter(|x: DurationSample| (x.censored || x.death_bound) == bounds)
}

/// The last five of a list, or all of a shorter one.
pub open spec fn last_five(s: Seq<DurationSample>) -> Seq<DurationSample> {
    if s.len() <= 5 {
        s
    } else {
        s.skip(s.len() - 5)
    }
}

proof fn lemma_recent_is_a_tail(s: Seq<DurationSample>, bounds: bool, n: int)
    requires
        n >= 0,
    ensures
        ({
            let c = of_class(s, bounds);
            let k = if c.len() <= n {
                c.len() as int
            } else {
                n
            };
            recent(s, bounds, n) == c.skip(c.len() - k).reverse()
        }),
    decreases s.len(),
{
    reveal(Seq::filter);
    let c = of_class(s, bounds);
    let k = if c.len() <= n {
        c.len() as int
    } else {
        n
    };
    if n == 0 || s.len() == 0 {
        assert(recent(s, bounds, n) =~= c.skip(c.len() - k).reverse());
    } else {
        let f = s.drop_last();
        let cf = of_class(f, bounds);
        if s.last().lower_bound() == bounds {
            lemma_recent_is_a_tail(f, bounds, n - 1);
            assert(c == cf.push(s.last()));
            assert(recent(s, bounds, n) =~= c.skip(c.len() - k).reverse());
        } else {
            lemma_recent_is_a_tail(f, bounds, n);
            assert(c == cf);
        }
    }
}

/// The estimator looks back over the last five samples of each class of evidence, whatever the other
/// class holds, the newest of them first.
pub proof fn the_window_is_the_last_five_of_each_class(s: Seq<DurationSample>)
    ensures
        clean_window(s) == last_five(of_class(s, false)).reverse(),
        bound_window(s) == last_five(of_class(s, true)).reverse(),
{
    lemma_recent_is_a_tail(s, false, 5);
    lemma_recent_is_a_tail(s, true, 5);
    assert(of_class(s, false).skip(0) =~= of_class(s, false));
    assert(of_class(s, true).skip(0) =~= of_class(s, true));
}

/// What is observed: with a clean cycle in view, the longest span of the last five clean cycles and of
/// the censored ones among the last five bounds, and no bound; a corpse alone never exceeds it. Without
/// one, the longest of the last five bounds, and a death bound when nothing else reaches it.
pub proof fn what_is_observed_is_the_longest_in_view(s: Seq<DurationSample>)
    ensures
        observed(s) is None <==> s.len() == 0,
        observed(s) matches Some(o) ==> ({
            let clean = last_five(of_class(s, false));
            let broken = last_five(of_class(s, true));
            &&& clean.len() > 0 ==> {
                &&& !o.bound
                &&& forall|i: int| 0 <= i < clean.len() ==> (#[trigger] clean[i]).ms <= o.ms
                &&& forall|i: int|
                    0 <= i < broken.len() && !(#[trigger] broken[i]).death_bound ==> broken[i].ms <= o.ms
                &&& (exists|i: int| 0 <= i < clean.len() && (#[trigger] clean[i]).ms == o.ms) || (exists|
                    i: int,
                |
                    0 <= i < broken.len() && !(#[trigger] broken[i]).death_bound && broken[i].ms == o.ms)
            }
            &&& clean.len() == 0 ==> {
                &&& forall|i: int| 0 <= i < broken.len() ==> (#[trigger] broken[i]).ms <= o.ms
                &&& exists|i: int| 0 <= i < broken.len() && (#[trigger] broken[i]).ms == o.ms
                &&& o.bound <==> forall|i: int|
                    0 <= i < broken.len() && (#[trigger] broken[i]).ms == o.ms ==> broken[i].death_bound
            }
        }),
{
    the_window_is_the_last_five_of_each_class(s);
    let clean = last_five(of_class(s, false));
    let broken = last_five(of_class(s, true));
    let (cw, bw, w, cap) = (clean_window(s), bound_window(s), window(s), fade_cap(s));
    let (nc, nb) = (clean.len() as int, broken.len() as int);
    longest_is_the_largest(cw);
    best_of_is_the_largest(w, cap);
    lemma_class_members(s, false);
    lemma_class_members(s, true);
    lemma_every_sample_has_a_class(s);
    assert forall|i: int| 0 <= i < nc implies #[trigger] w[nc - 1 - i] == clean[i] && !clean[i].censored
        && !clean[i].death_bound by {
        assert(cw[nc - 1 - i] == clean[i]);
    }
    assert forall|i: int| 0 <= i < nb implies #[trigger] w[nc + nb - 1 - i] == broken[i] && (
    broken[i].censored || broken[i].death_bound) by {
        assert(bw[nb - 1 - i] == broken[i]);
    }
    if let Some(o) = observed(s) {
        let won = choose|m: int| 0 <= m < w.len() && contribution(#[trigger] w[m], cap) == o.ms;
        if won < nc {
            assert(w[won] == clean[nc - 1 - won]);
        } else {
            assert(w[won] == broken[nc + nb - 1 - won]);
        }
        assert forall|i: int| 0 <= i < nc implies (#[trigger] clean[i]).ms <= o.ms by {
            assert(contribution(w[nc - 1 - i], cap) <= o.ms);
        }
        assert forall|i: int|
            0 <= i < nb && (nc == 0 || !(#[trigger] broken[i]).death_bound) implies broken[i].ms
            <= o.ms by {
            assert(contribution(w[nc + nb - 1 - i], cap) <= o.ms);
        }
        if nc > 0 {
            let top = choose|m: int| 0 <= m < cw.len() && (#[trigger] cw[m]).ms == cap->0;
            assert(w[top] == clean[nc - 1 - top]);
            if w[won].death_bound {
                assert(contribution(w[top], cap) <= o.ms);
                assert(clean[nc - 1 - top].ms == o.ms);
            }
            if o.bound {
                if w[won].death_bound {
                    assert(contribution(w[top], cap) == o.ms);
                }
                assert(false);
            }
        } else {
            assert(cap is None);
            if o.bound {
                assert forall|i: int| 0 <= i < nb && (#[trigger] broken[i]).ms == o.ms implies
                    broken[i].death_bound by {
                    assert(contribution(w[nc + nb - 1 - i], cap) == o.ms);
                }
            } else {
                let m = choose|m: int|
                    0 <= m < w.len() && contribution(#[trigger] w[m], cap) == o.ms && !w[m].death_bound;
                assert(w[m] == broken[nc + nb - 1 - m]);
            }
        }
    }
}

proof fn lemma_class_members(s: Seq<DurationSample>, bounds: bool)
    ensures
        forall|i: int|
            0 <= i < of_class(s, bounds).len() ==> ((#[trigger] of_class(s, bounds)[i]).censored
                || of_class(s, bounds)[i].death_bound) == bounds,
    decreases s.len(),
{
    reveal(Seq::filter);
    if s.len() > 0 {
        lemma_class_members(s.drop_last(), bounds);
    }
}

proof fn lemma_every_sample_has_a_class(s: Seq<DurationSample>)
    ensures
        of_class(s, false).len() + of_class(s, true).len() == s.len(),
    decreases s.len(),
{
    reveal(Seq::filter);
    if s.len() > 0 {
        lemma_every_sample_has_a_class(s.drop_last());
    }
}

// ---- the estimate ----------------------------------------------------------------------------

/// No span of the list is longer than that of one of its members, and none is shorter by more than a
/// tenth of it.
pub open spec fn within_a_tenth_of(s: Seq<DurationSample>, m: int) -> bool {
    forall|i: int| 0 <= i < s.len() ==> 0 <= 10 * (s[m].ms - (#[trigger] s[i]).ms) <= s[m].ms
}

impl Learned {
    /// The floor is the catalog's own number, grown for each tier the log named by the share the catalog
    /// states, in whole milliseconds rounded down, and held to what a stamp can hold.
    pub proof fn the_floor_grows_with_the_tier(self, key: Seq<char>, caster: Seq<char>)
        requires
            self.tier(key, caster) >= 0,
        ensures
            self.floor(key, caster) is Some <==> self.db.at.contains_key(key)
                && self.db.at[key].duration_ms is Some,
            self.floor(key, caster) matches Some(f) ==> ({
                let row = self.db.at[key];
                let d = row.duration_ms->0;
                let t = self.tier(key, caster);
                &&& t == 0 ==> f == d
                &&& row.category == DurationCategory::Unstated ==> f == d
                &&& row.category matches DurationCategory::PercentPerTier(p) ==> d >= 0 ==> {
                    let more = d * (p * t);
                    &&& f >= d
                    &&& f < i64::MAX ==> 100 * (f - d) <= more < 100 * (f - d) + 100
                    &&& f == i64::MAX ==> more >= 100 * (i64::MAX - d)
                }
            }),
    {
        if let Some(f) = self.floor(key, caster) {
            let row = self.db.at[key];
            let d = row.duration_ms->0 as int;
            let t = self.tier(key, caster);
            assert(d * 0 == 0);
            match row.category {
                DurationCategory::Unstated => {
                    assert(0 * t == 0) by (nonlinear_arith);
                },
                DurationCategory::PercentPerTier(p) => {
                    assert(t == 0 ==> p * t == 0) by (nonlinear_arith);
                    let g = p * t;
                    if d >= 0 {
                        assert(d * g >= 0) by (nonlinear_arith)
                            requires
                                d >= 0,
                                g == p * t,
                                p >= 0,
                                t >= 0,
                        ;
                    }
                },
            }
        }
    }

    /// The estimate is the floor or what was observed. What exceeds the floor wins, under the name of
    /// what it is; what equals it changes nothing; and what falls short of it loses, unless the clean
    /// cycles in view are three at least and lie within a tenth of the longest of them.
    pub proof fn the_estimate_is_the_better_of_the_two(self, key: Seq<char>, caster: Seq<char>)
        ensures
            ({
                let e = self.estimate(key, caster);
                let f = self.floor(key, caster);
                let o = observed(self.samples_of(key, caster));
                let clean = last_five(of_class(self.samples_of(key, caster), false));
                let agreed = clean.len() >= 3 && exists|m: int|
                    0 <= m < clean.len() && #[trigger] within_a_tenth_of(clean, m);
                &&& o is None ==> e.ms == f && (e.source == Some(EstimatorSource::Db) <==> f is Some) && (
                e.source is None <==> f is None)
                &&& o matches Some(o) ==> (f is None || o.ms > f->0) ==> e.ms == Some(o.ms) && e.source
                    == Some(
                    if o.bound {
                        EstimatorSource::DeathBound
                    } else {
                        EstimatorSource::Observed
                    },
                )
                &&& o matches Some(o) ==> f matches Some(f) ==> o.ms == f ==> e.ms == Some(f) && e.source
                    == Some(EstimatorSource::Db)
                &&& o matches Some(o) ==> f matches Some(f) ==> o.ms < f ==> if agreed {
                    e.ms == Some(o.ms) && e.source == Some(EstimatorSource::Cluster)
                } else {
                    e.ms == Some(f) && e.source == Some(EstimatorSource::Db)
                }
            }),
    {
        let s = self.samples_of(key, caster);
        the_window_is_the_last_five_of_each_class(s);
        let clean = last_five(of_class(s, false));
        let spans = self.clean_spans(key, caster);
        let n = clean.len() as int;
        assert forall|i: int| 0 <= i < n implies #[trigger] spans[n - 1 - i] == clean[i].ms by {
            assert(clean_window(s)[n - 1 - i] == clean[i]);
        }
        if corroborates(spans) {
            let x = choose|x: int| 0 <= x < spans.len() && agrees_on(spans, #[trigger] spans[x] as int);
            let m = n - 1 - x;
            assert(clean[m].ms == spans[x]);
            assert forall|i: int| 0 <= i < clean.len() implies 0 <= 10 * (clean[m].ms - (
            #[trigger] clean[i]).ms) <= clean[m].ms by {
                assert(spans[n - 1 - i] == clean[i].ms);
            }
            assert(within_a_tenth_of(clean, m));
        }
        if clean.len() >= 3 && exists|m: int|
            0 <= m < clean.len() && #[trigger] within_a_tenth_of(clean, m) {
            let m = choose|m: int|
                0 <= m < clean.len() && #[trigger] within_a_tenth_of(clean, m);
            assert(spans[n - 1 - m] == clean[m].ms);
            assert forall|j: int| 0 <= j < spans.len() implies (#[trigger] spans[j] <= clean[m].ms && (
            clean[m].ms - spans[j]) * 100 <= clean[m].ms * 10) by {
                assert(spans[j] == clean[n - 1 - j].ms);
            }
            assert(agrees_on(spans, spans[n - 1 - m] as int));
        }
    }
}

// ---- what is written down --------------------------------------------------------------------

impl Learned {
    /// The class of a line is what the catalog states of its nature, and a line it says nothing of is a
    /// buff. It never expires only where its duration is spelled so.
    pub proof fn the_catalog_speaks_for_a_line(self, key: Seq<char>)
        ensures
            self.class(key) == BuffClass::Debuff <==> self.db.at.contains_key(key)
                && self.db.at[key].nature == Nature::Detrimental,
            self.permanent(key) <==> self.db.at.contains_key(key) && self.db.at[key].duration_text == Some(
                "Permanent"@,
            ),
            self.illusion(key) <==> self.db.at.contains_key(key) && self.db.at[key].illusion,
    {
    }

    /// A stamp of a line is kept when it is the newest, and touches no other line and nothing else that
    /// was learned.
    pub proof fn the_newest_stamp_stands(self, key: Seq<char>, ts: i64, other: Seq<char>)
        ensures
            ({
                let next = self.touch_last_seen(key, ts);
                &&& next.last_seen.at.contains_key(key)
                &&& next.last_seen.at[key] >= ts
                &&& self.last_seen.at.contains_key(key) ==> next.last_seen.at[key]
                    >= self.last_seen.at[key]
                &&& next.last_seen.at[key] == ts || (self.last_seen.at.contains_key(key)
                    && next.last_seen.at[key] == self.last_seen.at[key])
                &&& other != key ==> next.last_seen.get(other) == self.last_seen.get(other)
                &&& next == (Learned { last_seen: next.last_seen, ..self })
            }),
    {
    }

    /// A line is noted once, at the end, and whatever was noted stays where it stood.
    pub proof fn a_line_is_noted_once(self, key: Seq<char>)
        ensures
            ({
                let next = self.note_ever_faded(key);
                &&& next.ever_faded.contains(key)
                &&& self.ever_faded.contains(key) ==> next == self
                &&& !self.ever_faded.contains(key) ==> next.ever_faded == self.ever_faded.push(key)
                &&& self.ever_faded.no_duplicates() ==> next.ever_faded.no_duplicates()
                &&& next == (Learned { ever_faded: next.ever_faded, ..self })
            }),
    {
        let next = self.note_ever_faded(key);
        if !self.ever_faded.contains(key) {
            assert(next.ever_faded[self.ever_faded.len() as int] == key);
        }
    }

    /// A numeral raises the tier of its line and caster and nothing lowers it; no other pair's moves, and
    /// nothing else that was learned.
    pub proof fn a_tier_only_rises(
        self,
        key: Seq<char>,
        caster: Seq<char>,
        name: Seq<char>,
        other_key: Seq<char>,
        other: Seq<char>,
    )
        requires
            self.tier(key, caster) >= 0,
        ensures
            ({
                let next = self.note_cast_tier(key, caster, name);
                let r = crate::buffs_shapes::rank_of(name);
                &&& next.tier(key, caster) >= r
                &&& next.tier(key, caster) >= self.tier(key, caster)
                &&& next.tier(key, caster) == r || next.tier(key, caster) == self.tier(key, caster)
                &&& r == 0 ==> next == self
                &&& !self.cast_tiers.has(crate::buffs_shapes::learning_key(key, caster)) ==> self.tier(
                    key,
                    caster,
                ) == 0
                &&& (other_key, other) != (key, caster) ==> next.tier(other_key, other) == self.tier(
                    other_key,
                    other,
                )
                &&& next == (Learned { cast_tiers: next.cast_tiers, ..self })
            }),
    {
        crate::buffs_shapes::lemma_rank_range(name);
        crate::buffs_shapes::a_learners_key_is_its_own(key, caster, other_key, other);
    }

    /// A sample is the newest of its own line and caster, every older one stays, and no other pair and
    /// nothing else that was learned is touched.
    pub proof fn a_sample_is_filed_under_its_own(
        self,
        key: Seq<char>,
        caster: Seq<char>,
        spell: Seq<char>,
        x: DurationSample,
        other_key: Seq<char>,
        other: Seq<char>,
    )
        ensures
            ({
                let next = self.push_sample(key, caster, spell, x);
                &&& next.samples_of(key, caster) == self.samples_of(key, caster).push(x)
                &&& (other_key, other) != (key, caster) ==> next.samples_of(other_key, other)
                    == self.samples_of(other_key, other)
                &&& next == (Learned { samples: next.samples, ..self })
            }),
    {
        crate::buffs_shapes::a_learners_key_is_its_own(key, caster, other_key, other);
    }
}

/// The sample that is censored is the last one that closed at the stamp, and there is none where no
/// sample did.
pub proof fn the_last_closed_at_a_stamp(s: Seq<DurationSample>, ts: i64)
    ensures
        ({
            let at = crate::buffs_stats::newest_closed_at(s, ts);
            &&& at < 0 <==> forall|i: int| 0 <= i < s.len() ==> (#[trigger] s[i]).ts != ts
            &&& at >= 0 ==> at < s.len() && s[at].ts == ts && forall|i: int|
                at < i < s.len() ==> (#[trigger] s[i]).ts != ts
        }),
    decreases s.len(),
{
    if s.len() > 0 {
        let f = s.drop_last();
        the_last_closed_at_a_stamp(f, ts);
        assert(s.last() == s[s.len() - 1]);
        assert forall|i: int| 0 <= i < f.len() implies #[trigger] f[i] == s[i] by {}
        let at = crate::buffs_stats::newest_closed_at(s, ts);
        if s.last().ts != ts {
            if at >= 0 {
                assert(f[at] == s[at]);
                assert forall|i: int| at < i < s.len() implies (#[trigger] s[i]).ts != ts by {
                    if i < f.len() {
                        assert(f[i].ts != ts);
                    }
                }
            } else {
                assert forall|i: int| 0 <= i < s.len() implies (#[trigger] s[i]).ts != ts by {
                    if i < f.len() {
                        assert(f[i].ts != ts);
                    }
                }
            }
        }
    }
}

/// Of two spellings of one base the higher rank is shown, and the one that stands where they are equal;
/// a spelling of another base is shown, and an empty one never is.
pub proof fn the_highest_rank_is_shown(prev: Seq<char>, next: Seq<char>)
    ensures
        ({
            let shown = crate::buffs_stats::preferred_name(prev, next);
            let cand = crate::text::trimmed(next);
            let same_base = crate::text::lower(crate::buffs_shapes::base_of(prev)) == crate::text::lower(
                crate::buffs_shapes::base_of(cand),
            );
            &&& shown == prev || shown == cand
            &&& cand.len() == 0 ==> shown == prev
            &&& cand.len() > 0 && !same_base ==> shown == cand || cand == crate::text::trimmed(prev)
            &&& cand.len() > 0 && same_base && cand != crate::text::trimmed(prev) ==> (shown == cand
                <==> crate::buffs_shapes::rank_of(cand) > crate::buffs_shapes::rank_of(prev) || cand
                == prev)
        }),
{
}

} // verus!
