//! The landings behind one row: which of them a new landing refreshes, and which one an ending
//! closes.
use vstd::prelude::*;

verus! {

/// One landing of a spell: when it landed, and whether its span can no longer be read as a duration.
#[derive(Clone, Copy)]
pub struct Landing {
    pub ts: i64,
    pub contaminated: bool,
}

/// What closing a landing measured: the span from landing to close, or nothing when the landing was
/// contaminated or the span is not representable.
#[derive(Clone, Copy)]
pub struct Closed {
    pub sample_ms: Option<i64>,
}

/// The second a stamp falls in.
pub open spec fn second_of(ts: int) -> int {
    ts / 1000
}

fn same_second(a: i64, b: i64) -> (r: bool)
    ensures
        r == (second_of(a as int) == second_of(b as int)),
{
    let fa: i64 = floor_second(a);
    let fb: i64 = floor_second(b);
    fa == fb
}

fn floor_second(a: i64) -> (r: i64)
    ensures
        r == second_of(a as int),
{
    if a >= 0 {
        a / 1000
    } else {
        -((-(a + 1)) / 1000) - 1
    }
}

/// Oldest first.
pub open spec fn oldest_first(s: Seq<Landing>) -> bool {
    forall|i: int, j: int| 0 <= i <= j && j < s.len() ==> s[i].ts <= s[j].ts
}

/// A landing put where its stamp belongs: after every landing that is no younger.
pub open spec fn placed(s: Seq<Landing>, l: Landing) -> Seq<Landing>
    decreases s.len(),
{
    if s.len() == 0 || s.last().ts <= l.ts {
        s.push(l)
    } else {
        placed(s.drop_last(), l).push(s.last())
    }
}

/// The landings, oldest first; of two with one stamp the first stays first.
pub open spec fn in_order(s: Seq<Landing>) -> Seq<Landing>
    decreases s.len(),
{
    if s.len() == 0 {
        s
    } else {
        placed(in_order(s.drop_last()), s.last())
    }
}

/// What a [`HoldGroup`] holds.
#[verifier::ext_equal]
pub struct Group {
    /// The entity is one this log can tell from its namesakes.
    pub singleton: bool,
    pub landings: Seq<Landing>,
}

impl Group {
    pub open spec fn wf(self) -> bool {
        oldest_first(self.landings)
    }

    /// A landing refreshes the newest one, unless it is another of the same round: on an entity that
    /// may have a namesake, a second landing in the same second.
    pub open spec fn refreshes(self, ts: i64) -> bool {
        &&& self.landings.len() > 0
        &&& self.singleton || second_of(ts as int) != second_of(self.landings.last().ts as int)
    }

    pub open spec fn land(self, ts: i64, contaminated: bool) -> Group {
        let base = if self.refreshes(ts) {
            self.landings.drop_last()
        } else {
            self.landings
        };
        Group { landings: placed(base, Landing { ts, contaminated }), ..self }
    }

    pub open spec fn oldest_ts(self) -> i64 {
        self.landings[0].ts
    }

    /// What closing the oldest landing at `ts` measures.
    pub open spec fn closing(self, ts: i64) -> Option<i64> {
        if self.landings.len() == 0 || self.landings[0].contaminated || !(i64::MIN <= ts
            - self.landings[0].ts <= i64::MAX) {
            None
        } else {
            Some((ts - self.landings[0].ts) as i64)
        }
    }

    pub open spec fn close_oldest(self) -> Group {
        Group {
            landings: if self.landings.len() == 0 {
                self.landings
            } else {
                self.landings.drop_first()
            },
            ..self
        }
    }

    pub open spec fn drop_expired(self, cutoff: int) -> Group {
        Group { landings: self.landings.filter(|l: Landing| l.ts > cutoff), ..self }
    }

    pub open spec fn contaminate_all(self) -> Group {
        Group {
            landings: self.landings.map_values(
                |l: Landing| Landing { ts: l.ts, contaminated: true },
            ),
            ..self
        }
    }

    /// Some landing is no younger than `from_ts`.
    pub open spec fn reaches_back_to(self, from_ts: i64) -> bool {
        exists|i: int| 0 <= i < self.landings.len() && (#[trigger] self.landings[i]).ts <= from_ts
    }

    pub open spec fn shift_by(self, ms: i64, from_ts: i64) -> Group {
        Group { landings: in_order(self.landings.map_values(shifted_by(ms, from_ts))), ..self }
    }

    /// The clocks that a shift moves stay representable.
    pub open spec fn shift_fits(self, ms: i64, from_ts: i64) -> bool {
        forall|i: int|
            0 <= i < self.landings.len() && (#[trigger] self.landings[i]).ts <= from_ts ==> i64::MIN
                <= self.landings[i].ts + ms <= i64::MAX
    }
}

/// A landing no younger than `from_ts`, moved by `ms`; a younger one as it is.
pub open spec fn shifted_by(ms: i64, from_ts: i64) -> spec_fn(Landing) -> Landing {
    |l: Landing|
        if l.ts <= from_ts {
            Landing { ts: (l.ts + ms) as i64, contaminated: l.contaminated }
        } else {
            l
        }
}

/// One landing per entity of a name that is believed to hold the spell, oldest first.
pub struct HoldGroup {
    singleton: bool,
    landings: Vec<Landing>,
}

impl View for HoldGroup {
    type V = Group;

    closed spec fn view(&self) -> Group {
        Group { singleton: self.singleton, landings: self.landings@ }
    }
}

proof fn lemma_placed(s: Seq<Landing>, l: Landing)
    requires
        oldest_first(s),
    ensures
        oldest_first(placed(s, l)),
        placed(s, l).len() == s.len() + 1,
        forall|i: int|
            0 <= i < s.len() + 1 ==> (#[trigger] placed(s, l)[i]).ts <= l.ts || (s.len() > 0 && placed(
                s,
                l,
            )[i].ts <= s.last().ts),
    decreases s.len(),
{
    if s.len() == 0 || s.last().ts <= l.ts {
    } else {
        lemma_placed(s.drop_last(), l);
        let p = placed(s.drop_last(), l);
        assert forall|i: int| 0 <= i < p.len() implies (#[trigger] p[i]).ts <= s.last().ts by {
            if s.drop_last().len() > 0 {
                assert(s.drop_last().last() == s[s.len() - 2]);
            }
        }
    }
}

/// Where a landing is put: everything before the place is no younger, everything after is younger.
proof fn lemma_placed_at(s: Seq<Landing>, l: Landing, i: int)
    requires
        oldest_first(s),
        0 <= i <= s.len(),
        i > 0 ==> s[i - 1].ts <= l.ts,
        forall|j: int| i <= j < s.len() ==> (#[trigger] s[j]).ts > l.ts,
    ensures
        placed(s, l) == s.insert(i, l),
    decreases s.len(),
{
    if i < s.len() {
        assert(s.last().ts > l.ts);
        lemma_placed_at(s.drop_last(), l, i);
        assert(s.insert(i, l) =~= s.drop_last().insert(i, l).push(s.last()));
    } else {
        assert(s.insert(i, l) =~= s.push(l));
        if s.len() > 0 {
            assert(s.last() == s[i - 1]);
        }
    }
}

fn place(v: &mut Vec<Landing>, l: Landing)
    requires
        oldest_first(old(v)@),
    ensures
        final(v)@ == placed(old(v)@, l),
        oldest_first(final(v)@),
{
    let mut i: usize = v.len();
    while i > 0 && v[i - 1].ts > l.ts
        invariant
            i <= v.len(),
            v@ == old(v)@,
            forall|j: int| i <= j < v.len() ==> (#[trigger] v@[j]).ts > l.ts,
        decreases i,
    {
        i = i - 1;
    }
    proof {
        lemma_placed_at(v@, l, i as int);
        lemma_placed(v@, l);
    }
    v.insert(i, l);
}

impl HoldGroup {
    #[verifier::type_invariant]
    spec fn inv(self) -> bool {
        oldest_first(self.landings@)
    }

    pub fn new(singleton: bool) -> (r: Self)
        ensures
            r@ == (Group { singleton, landings: Seq::empty() }),
    {
        HoldGroup { singleton, landings: Vec::new() }
    }

    pub fn land(&mut self, ts: i64, contaminated: bool)
        ensures
            final(self)@ == old(self)@.land(ts, contaminated),
            final(self)@.wf(),
            final(self)@.landings.len() > 0,
    {
        proof {
            use_type_invariant(&*self);
        }
        let mut taken = HoldGroup { singleton: self.singleton, landings: Vec::new() };
        core::mem::swap(self, &mut taken);
        let HoldGroup { singleton, landings: mut ls } = taken;
        let n: usize = ls.len();
        if n > 0 && (singleton || !same_second(ts, ls[n - 1].ts)) {
            ls.pop();
        }
        proof {
            lemma_placed(ls@, Landing { ts, contaminated });
        }
        place(&mut ls, Landing { ts, contaminated });
        *self = HoldGroup { singleton, landings: ls };
    }

    pub fn count(&self) -> (r: usize)
        ensures
            r == self@.landings.len(),
            self@.wf(),
    {
        proof {
            use_type_invariant(self);
        }
        self.landings.len()
    }

    pub fn is_empty(&self) -> (r: bool)
        ensures
            r == (self@.landings.len() == 0),
            self@.wf(),
    {
        proof {
            use_type_invariant(self);
        }
        self.landings.len() == 0
    }

    pub fn oldest_ts(&self) -> (r: i64)
        requires
            self@.landings.len() > 0,
        ensures
            r == self@.oldest_ts(),
            self@.wf(),
    {
        proof {
            use_type_invariant(self);
        }
        self.landings[0].ts
    }

    /// Closes the oldest landing; `None` when there was none to close.
    pub fn close_oldest(&mut self, ts: i64) -> (r: Option<Closed>)
        ensures
            final(self)@ == old(self)@.close_oldest(),
            final(self)@.wf(),
            r == (if old(self)@.landings.len() == 0 {
                None
            } else {
                Some(Closed { sample_ms: old(self)@.closing(ts) })
            }),
    {
        proof {
            use_type_invariant(&*self);
        }
        if self.landings.len() == 0 {
            return None;
        }
        let mut taken = HoldGroup { singleton: self.singleton, landings: Vec::new() };
        core::mem::swap(self, &mut taken);
        let HoldGroup { singleton, landings: mut ls } = taken;
        assert(ls@.remove(0) =~= ls@.drop_first());
        let l: Landing = ls.remove(0);
        *self = HoldGroup { singleton, landings: ls };
        let sample_ms: Option<i64> = if l.contaminated {
            None
        } else {
            ts.checked_sub(l.ts)
        };
        Some(Closed { sample_ms })
    }

    /// Drops every landing at or before `cutoff`.
    pub fn drop_expired(&mut self, cutoff: i128)
        ensures
            final(self)@ == old(self)@.drop_expired(cutoff as int),
            final(self)@.wf(),
    {
        proof {
            use_type_invariant(&*self);
        }
        let ghost all = self.landings@;
        let mut kept: Vec<Landing> = Vec::new();
        let mut i: usize = 0;
        let ghost p = |l: Landing| l.ts > cutoff;
        proof {
            reveal(Seq::filter);
        }
        while i < self.landings.len()
            invariant
                i <= all.len(),
                self.landings@ == all,
                p == (|l: Landing| l.ts > cutoff),
                oldest_first(all),
                oldest_first(kept@),
                kept@ == all.take(i as int).filter(p),
                forall|j: int| 0 <= j < kept.len() ==> i > 0 && (#[trigger] kept@[j]).ts <= all[i - 1].ts,
            decreases self.landings.len() - i,
        {
            proof {
                reveal(Seq::filter);
                assert(all.take(i + 1).drop_last() =~= all.take(i as int));
            }
            if self.landings[i].ts as i128 > cutoff {
                kept.push(self.landings[i]);
            }
            i = i + 1;
        }
        assert(all.take(i as int) =~= all);
        self.landings = kept;
    }

    pub fn contaminate_all(&mut self)
        ensures
            final(self)@ == old(self)@.contaminate_all(),
            final(self)@.wf(),
    {
        proof {
            use_type_invariant(&*self);
        }
        let ghost all = self.landings@;
        let mut out: Vec<Landing> = Vec::new();
        let mut i: usize = 0;
        while i < self.landings.len()
            invariant
                i <= all.len(),
                self.landings@ == all,
                out.len() == i,
                forall|j: int| 0 <= j < i ==> #[trigger] out@[j] == (Landing {
                    ts: all[j].ts,
                    contaminated: true,
                }),
            decreases self.landings.len() - i,
        {
            out.push(Landing { ts: self.landings[i].ts, contaminated: true });
            i = i + 1;
        }
        assert(out@ =~= all.map_values(|l: Landing| Landing { ts: l.ts, contaminated: true }));
        self.landings = out;
    }

    /// Moves the landings at or before `from_ts` by `ms`; says whether there was one.
    pub fn shift_by(&mut self, ms: i64, from_ts: i64) -> (r: bool)
        requires
            old(self)@.shift_fits(ms, from_ts),
        ensures
            final(self)@ == old(self)@.shift_by(ms, from_ts),
            final(self)@.wf(),
            final(self)@.landings.len() == old(self)@.landings.len(),
            r == old(self)@.reaches_back_to(from_ts),
    {
        proof {
            use_type_invariant(&*self);
        }
        let ghost all = self.landings@;
        let ghost moved = all.map_values(shifted_by(ms, from_ts));
        let mut out: Vec<Landing> = Vec::new();
        let mut any = false;
        let mut i: usize = 0;
        while i < self.landings.len()
            invariant
                i <= all.len(),
                self.landings@ == all,
                moved == all.map_values(shifted_by(ms, from_ts)),
                self@.shift_fits(ms, from_ts),
                oldest_first(out@),
                out@ == in_order(moved.take(i as int)),
                out.len() == i,
                any == exists|j: int| 0 <= j < i && (#[trigger] all[j]).ts <= from_ts,
            decreases self.landings.len() - i,
        {
            let l: Landing = self.landings[i];
            assert(moved.take(i + 1).drop_last() =~= moved.take(i as int));
            assert(moved.take(i + 1).last() == moved[i as int]);
            assert(self@.landings[i as int] == l);
            proof {
                lemma_placed(out@, moved[i as int]);
            }
            if l.ts <= from_ts {
                any = true;
                place(&mut out, Landing { ts: l.ts + ms, contaminated: l.contaminated });
            } else {
                place(&mut out, l);
            }
            i = i + 1;
        }
        assert(moved.take(i as int) =~= moved);
        self.landings = out;
        any
    }
}

// ---- what a group keeps ----------------------------------------------------------------------

proof fn lemma_placed_holds(s: Seq<Landing>, l: Landing)
    ensures
        placed(s, l).to_multiset() == s.to_multiset().insert(l),
        placed(s, l).len() == s.len() + 1,
    decreases s.len(),
{
    broadcast use vstd::seq_lib::group_to_multiset_ensures;

    if s.len() == 0 || s.last().ts <= l.ts {
    } else {
        lemma_placed_holds(s.drop_last(), l);
        assert(s =~= s.drop_last().push(s.last()));
        assert(placed(s, l).to_multiset() =~= s.to_multiset().insert(l));
    }
}

proof fn lemma_in_order_holds(s: Seq<Landing>)
    ensures
        in_order(s).to_multiset() == s.to_multiset(),
        oldest_first(in_order(s)),
    decreases s.len(),
{
    broadcast use vstd::seq_lib::group_to_multiset_ensures;

    if s.len() > 0 {
        lemma_in_order_holds(s.drop_last());
        lemma_placed_holds(in_order(s.drop_last()), s.last());
        lemma_placed(in_order(s.drop_last()), s.last());
        assert(s =~= s.drop_last().push(s.last()));
    }
}

impl Group {
    /// A landing is held, oldest first. On an entity without a namesake, or in another second than the
    /// newest, it takes the newest one's place; in the same second on a name that others may bear it is
    /// one more. All the others stay.
    pub proof fn a_landing_joins_or_refreshes(self, ts: i64, contaminated: bool)
        requires
            forall|i: int, j: int|
                0 <= i <= j && j < self.landings.len() ==> self.landings[i].ts <= self.landings[j].ts,
        ensures
            ({
                let next = self.land(ts, contaminated);
                let l = Landing { ts, contaminated };
                let n = self.landings.len() as int;
                let one_more = n == 0 || (!self.singleton && ts as int / 1000 == self.landings[n - 1].ts
                    as int / 1000);
                &&& next.singleton == self.singleton
                &&& next.landings.contains(l)
                &&& forall|i: int, j: int|
                    0 <= i <= j && j < next.landings.len() ==> next.landings[i].ts <= next.landings[j].ts
                &&& one_more ==> next.landings.to_multiset() == self.landings.to_multiset().insert(l)
                    && next.landings.len() == n + 1
                &&& !one_more ==> next.landings.to_multiset() == self.landings.to_multiset().remove(
                    self.landings[n - 1],
                ).insert(l) && next.landings.len() == n
            }),
    {
        broadcast use vstd::seq_lib::group_to_multiset_ensures;

        let l = Landing { ts, contaminated };
        let base = if self.refreshes(ts) {
            self.landings.drop_last()
        } else {
            self.landings
        };
        lemma_placed_holds(base, l);
        lemma_placed(base, l);
        assert(self.land(ts, contaminated).landings.to_multiset().count(l) > 0);
        if self.refreshes(ts) {
            assert(self.landings =~= base.push(self.landings.last()));
            assert(self.landings.to_multiset().remove(self.landings.last()) =~= base.to_multiset());
        }
    }

    /// An ending closes the oldest landing and leaves the others as they stood. It measures that one's
    /// span, unless the span can no longer be read as a duration.
    pub proof fn an_ending_closes_the_oldest(self, ts: i64)
        requires
            self.landings.len() > 0,
        ensures
            ({
                let left = self.close_oldest();
                let span = ts - self.landings[0].ts;
                &&& left.singleton == self.singleton
                &&& left.landings.len() == self.landings.len() - 1
                &&& forall|i: int|
                    0 <= i < left.landings.len() ==> #[trigger] left.landings[i] == self.landings[i + 1]
                &&& self.closing(ts) is Some <==> !self.landings[0].contaminated && i64::MIN <= span
                    <= i64::MAX
                &&& self.closing(ts) matches Some(ms) ==> ms == span
            }),
    {
    }

    /// What is shed is what is no younger than the cutoff, and nothing else.
    pub proof fn only_the_expired_are_shed(self, cutoff: int, l: Landing)
        ensures
            self.drop_expired(cutoff).landings.contains(l) <==> self.landings.contains(l) && l.ts > cutoff,
            self.drop_expired(cutoff).singleton == self.singleton,
            (forall|i: int| 0 <= i < self.landings.len() ==> (#[trigger] self.landings[i]).ts > cutoff)
                ==> self.drop_expired(cutoff) == self,
    {
        let p = |x: Landing| x.ts > cutoff;
        let f = self.landings.filter(p);
        assert(self.drop_expired(cutoff).landings == f);
        if self.landings.contains(l) && l.ts > cutoff {
            let i = choose|i: int| 0 <= i < self.landings.len() && self.landings[i] == l;
            self.landings.lemma_filter_contains(p, i);
        }
        lemma_filter_of(self.landings, p);
        if forall|i: int| 0 <= i < self.landings.len() ==> (#[trigger] self.landings[i]).ts > cutoff {
            lemma_filter_all(self.landings, p);
            assert(self.drop_expired(cutoff) =~= self);
        }
    }

    /// An absence moves every landing that it passed over by all of it and no other, and leaves them
    /// oldest first.
    pub proof fn an_absence_moves_what_it_passed_over(self, ms: i64, from_ts: i64)
        requires
            self.shift_fits(ms, from_ts),
        ensures
            ({
                let next = self.shift_by(ms, from_ts);
                &&& next.singleton == self.singleton
                &&& next.landings.to_multiset() == self.landings.map_values(
                    |l: Landing|
                        if l.ts <= from_ts {
                            Landing { ts: (l.ts + ms) as i64, ..l }
                        } else {
                            l
                        },
                ).to_multiset()
                &&& forall|i: int, j: int|
                    0 <= i <= j && j < next.landings.len() ==> next.landings[i].ts <= next.landings[j].ts
                &&& self.reaches_back_to(from_ts) <==> self.landings.filter(
                    |l: Landing| l.ts <= from_ts,
                ).len() > 0
            }),
    {
        let passed = |l: Landing| l.ts <= from_ts;
        if self.landings.filter(passed).len() > 0 {
            let l = self.landings.filter(passed)[0];
            self.landings.lemma_filter_pred(passed, 0);
            assert(self.landings.filter(passed).contains(l));
            self.landings.lemma_filter_contains_rev(passed, l);
            let i = choose|i: int| 0 <= i < self.landings.len() && self.landings[i] == l;
            assert(self.landings[i].ts <= from_ts);
        }
        if self.reaches_back_to(from_ts) {
            let i = choose|i: int|
                0 <= i < self.landings.len() && (#[trigger] self.landings[i]).ts <= from_ts;
            self.landings.lemma_filter_contains(passed, i);
        }
        let moved = self.landings.map_values(shifted_by(ms, from_ts));
        lemma_in_order_holds(moved);
        assert(moved =~= self.landings.map_values(
            |l: Landing|
                if l.ts <= from_ts {
                    Landing { ts: (l.ts + ms) as i64, ..l }
                } else {
                    l
                },
        ));
    }

    /// What a death leaves can no longer be measured, and its clocks stand as they stood.
    pub proof fn a_contaminated_group_keeps_its_clocks(self, i: int)
        requires
            0 <= i < self.landings.len(),
        ensures
            ({
                let next = self.contaminate_all();
                &&& next.singleton == self.singleton
                &&& next.landings.len() == self.landings.len()
                &&& next.landings[i].contaminated
                &&& next.landings[i].ts == self.landings[i].ts
            }),
    {
    }
}

proof fn lemma_filter_of(s: Seq<Landing>, p: spec_fn(Landing) -> bool)
    ensures
        forall|l: Landing| #[trigger] s.filter(p).contains(l) ==> s.contains(l) && p(l),
    decreases s.len(),
{
    reveal(Seq::filter);
    if s.len() > 0 {
        let f = s.drop_last();
        lemma_filter_of(f, p);
        assert forall|l: Landing| #[trigger] s.filter(p).contains(l) implies s.contains(l) && p(l) by {
            let i = choose|i: int| 0 <= i < s.filter(p).len() && s.filter(p)[i] == l;
            if i < f.filter(p).len() {
                assert(f.filter(p)[i] == l);
                assert(f.filter(p).contains(l));
                let j = choose|j: int| 0 <= j < f.len() && f[j] == l;
                assert(s[j] == l);
            } else {
                assert(s[s.len() - 1] == l);
            }
        }
    }
}

proof fn lemma_filter_all(s: Seq<Landing>, p: spec_fn(Landing) -> bool)
    requires
        forall|i: int| 0 <= i < s.len() ==> p(#[trigger] s[i]),
    ensures
        s.filter(p) == s,
    decreases s.len(),
{
    reveal(Seq::filter);
    if s.len() > 0 {
        assert forall|i: int| 0 <= i < s.drop_last().len() implies p(#[trigger] s.drop_last()[i]) by {
            assert(s.drop_last()[i] == s[i]);
        }
        lemma_filter_all(s.drop_last(), p);
        assert(p(s[s.len() - 1]));
        assert(s =~= s.drop_last().push(s.last()));
    }
}

} // verus!
