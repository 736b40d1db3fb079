//! A map keyed by text that remembers the order its keys first came in: writing a key it holds
//! keeps the key's place, and a key removed and written again goes to the end.
use crate::text::{copy_list, same, texts};
use vstd::prelude::*;

verus! {

/// What a [`JsMap`] holds: its keys in order, and the value at each.
#[verifier::ext_equal]
pub struct Dict<T> {
    pub order: Seq<Seq<char>>,
    pub at: Map<Seq<char>, T>,
}

/// Every key but this one.
pub open spec fn other_than(k: Seq<char>) -> spec_fn(Seq<char>) -> bool {
    |x: Seq<char>| x != k
}

impl<T> Dict<T> {
    pub open spec fn empty() -> Self {
        Dict { order: Seq::empty(), at: Map::empty() }
    }

    /// Every key is listed once, and the listed keys are the ones with a value.
    pub open spec fn wf(self) -> bool {
        &&& self.order.no_duplicates()
        &&& forall|k: Seq<char>| self.order.contains(k) <==> #[trigger] self.at.contains_key(k)
    }

    pub open spec fn has(self, k: Seq<char>) -> bool {
        self.at.contains_key(k)
    }

    pub open spec fn get(self, k: Seq<char>) -> Option<T> {
        if self.at.contains_key(k) {
            Some(self.at[k])
        } else {
            None
        }
    }

    /// A key it holds keeps its place; a new one goes to the end.
    pub open spec fn put(self, k: Seq<char>, v: T) -> Self {
        Dict {
            order: if self.at.contains_key(k) {
                self.order
            } else {
                self.order.push(k)
            },
            at: self.at.insert(k, v),
        }
    }

    /// Writing back what stands at a key changes nothing.
    pub proof fn lemma_put_same(self, k: Seq<char>)
        requires
            self.has(k),
        ensures
            self.put(k, self.at[k]) == self,
    {
        assert(self.put(k, self.at[k]) =~= self);
    }

    pub open spec fn del(self, k: Seq<char>) -> Self {
        Dict { order: self.order.filter(other_than(k)), at: self.at.remove(k) }
    }

    /// What is written and then removed leaves what removing alone leaves.
    pub proof fn lemma_put_del(self, k: Seq<char>, v: T)
        ensures
            self.put(k, v).del(k) == self.del(k),
    {
        reveal(Seq::filter);
        if !self.at.contains_key(k) {
            assert(self.order.push(k).drop_last() =~= self.order);
        }
        assert(self.put(k, v).del(k) =~= self.del(k));
    }

    /// Two maps with the same keys keep the same where their tests admit the same keys and agree on
    /// what stands there.
    pub proof fn lemma_keep_same(
        self,
        p: spec_fn(Seq<char>, T) -> bool,
        other: Dict<T>,
        q: spec_fn(Seq<char>, T) -> bool,
    )
        requires
            self.wf(),
            self.order == other.order,
            self.at.dom() == other.at.dom(),
            forall|k: Seq<char>|
                #[trigger] self.at.contains_key(k) ==> p(k, self.at[k]) == q(k, other.at[k]),
            forall|k: Seq<char>|
                #[trigger] self.at.contains_key(k) && p(k, self.at[k]) ==> self.at[k] == other.at[k],
        ensures
            self.keep(p) == other.keep(q),
    {
        assert forall|i: int| 0 <= i < self.order.len() implies self.admits(p)(
            #[trigger] self.order[i],
        ) == other.admits(q)(self.order[i]) by {
            assert(self.order.contains(self.order[i]));
            assert(self.at.contains_key(self.order[i]));
        }
        lemma_filter_same(self.order, self.admits(p), other.admits(q));
        assert forall|k: Seq<char>| #[trigger] other.at.contains_key(k) == self.at.contains_key(k) by {
            assert(self.at.dom().contains(k) == other.at.dom().contains(k));
        }
        assert(self.keep(p).at =~= other.keep(q).at);
    }

    /// A map whose entries each hold what a rewriting gives is the rewritten map.
    pub proof fn lemma_changed(self, f: spec_fn(Seq<char>, T) -> T, now: Dict<T>)
        requires
            now.order == self.order,
            now.at.dom() == self.at.dom(),
            forall|k: Seq<char>| #[trigger] self.at.contains_key(k) ==> now.at[k] == f(k, self.at[k]),
        ensures
            now == self.change(f),
    {
        assert(now.at =~= self.change(f).at);
    }

    /// The later of two writes to a key stands.
    pub proof fn lemma_put_twice(self, k: Seq<char>, u: T, v: T)
        ensures
            self.put(k, u).put(k, v) == self.put(k, v),
    {
        assert(self.put(k, u).put(k, v) =~= self.put(k, v));
    }

    /// Removing a key keeps the entries of the others.
    proof fn lemma_del_keeps(self, k: Seq<char>, p: spec_fn(Seq<char>, T) -> bool)
        requires
            forall|x: Seq<char>, v: T| #[trigger] p(x, v) == (x != k),
        ensures
            self.keep(p) == self.del(k),
    {
        lemma_filter_same(self.order, self.admits(p), other_than(k));
        assert(self.keep(p) =~= self.del(k));
    }

    /// Every value rewritten where it stands.
    pub open spec fn change(self, f: spec_fn(Seq<char>, T) -> T) -> Self {
        Dict {
            order: self.order,
            at: Map::new(|k: Seq<char>| self.at.contains_key(k), |k: Seq<char>| f(k, self.at[k])),
        }
    }

    /// A test of an entry, as a test of its key.
    pub open spec fn admits(self, p: spec_fn(Seq<char>, T) -> bool) -> spec_fn(Seq<char>) -> bool {
        |k: Seq<char>| p(k, self.at[k])
    }

    /// The entries a test admits, in the order they stood.
    pub open spec fn keep(self, p: spec_fn(Seq<char>, T) -> bool) -> Self {
        Dict {
            order: self.order.filter(self.admits(p)),
            at: Map::new(|k: Seq<char>| self.at.contains_key(k) && p(k, self.at[k]), |k| self.at[k]),
        }
    }
}

impl<T> Dict<T> {
    /// What is written is read back, and nothing else moves: a key that was there keeps its place, and one
    /// that was not goes to the end.
    pub proof fn what_is_written_is_read_back(self, k: Seq<char>, v: T, x: Seq<char>)
        requires
            self.wf(),
        ensures
            self.put(k, v).get(k) == Some(v),
            x != k ==> self.put(k, v).get(x) == self.get(x),
            self.get(k) is Some ==> self.put(k, v).order == self.order,
            self.get(k) is None ==> self.put(k, v).order == self.order.push(k),
            self.put(k, v).wf(),
            Dict::<T>::empty().wf() && Dict::<T>::empty().get(x) is None,
            self.has(x) <==> self.get(x) is Some,
    {
        let now = self.put(k, v);
        assert forall|y: Seq<char>| now.order.contains(y) <==> #[trigger] now.at.contains_key(y) by {
            assert(self.order.contains(y) <==> self.at.contains_key(y));
            if !self.at.contains_key(k) {
                assert(now.order[self.order.len() as int] == k);
                if self.order.contains(y) {
                    let i = choose|i: int| 0 <= i < self.order.len() && self.order[i] == y;
                    assert(now.order[i] == y);
                }
            }
        }
        assert(!self.at.contains_key(k) ==> !self.order.contains(k));
        assert(Dict::<T>::empty().order.no_duplicates());
    }

    /// What is removed is gone, and nothing else moves.
    pub proof fn what_is_removed_is_gone(self, k: Seq<char>, head: Seq<Seq<char>>, tail: Seq<Seq<char>>, x: Seq<char>)
        requires
            self.wf(),
            self.order == head.push(k) + tail,
        ensures
            self.del(k).get(k) is None,
            x != k ==> self.del(k).get(x) == self.get(x),
            self.del(k).order == head + tail,
    {
        let o = self.order;
        assert(o[head.len() as int] == k);
        assert forall|i: int| 0 <= i < head.len() implies other_than(k)(#[trigger] head[i]) by {
            assert(o[i] == head[i]);
            assert(o[i] != o[head.len() as int]);
        }
        assert forall|i: int| 0 <= i < tail.len() implies other_than(k)(#[trigger] tail[i]) by {
            assert(o[head.len() + 1 + i] == tail[i]);
            assert(o[head.len() + 1 + i] != o[head.len() as int]);
        }
        lemma_filter_all(head, other_than(k));
        lemma_filter_all(tail, other_than(k));
        Seq::filter_distributes_over_add(head.push(k), tail, other_than(k));
        reveal(Seq::filter);
        assert(head.push(k).drop_last() =~= head);
    }

    /// A key that is not there has nothing to remove.
    pub proof fn what_is_not_there_is_not_missed(self, k: Seq<char>)
        requires
            self.wf(),
            self.get(k) is None,
        ensures
            self.del(k) == self,
    {
        assert forall|i: int| 0 <= i < self.order.len() implies other_than(k)(#[trigger] self.order[i]) by {
            assert(self.order.contains(self.order[i]));
            assert(self.at.contains_key(self.order[i]));
        }
        lemma_filter_all(self.order, other_than(k));
        assert(self.del(k) =~= self);
    }

    /// What a test admits is kept as it stood and nothing else is, in the order it stood; and what is
    /// rewritten stays in its place, each value as the rewriting gives it.
    pub proof fn what_is_admitted_is_kept(
        self,
        p: spec_fn(Seq<char>, T) -> bool,
        f: spec_fn(Seq<char>, T) -> T,
        x: Seq<char>,
    )
        ensures
            self.keep(p).get(x) == (match self.get(x) {
                Some(v) if p(x, v) => Some(v),
                _ => None,
            }),
            self.keep(p).order == self.order.filter(|k: Seq<char>| p(k, self.at[k])),
            self.change(f).get(x) == (match self.get(x) {
                Some(v) => Some(f(x, v)),
                None => None,
            }),
            self.change(f).order == self.order,
    {
        lemma_filter_same(self.order, self.admits(p), |k: Seq<char>| p(k, self.at[k]));
    }
}

/// A test that everything passes leaves a list as it is.
proof fn lemma_filter_all<A>(s: Seq<A>, f: spec_fn(A) -> bool)
    requires
        forall|i: int| 0 <= i < s.len() ==> f(#[trigger] s[i]),
    ensures
        s.filter(f) == s,
    decreases s.len(),
{
    reveal(Seq::filter);
    if s.len() > 0 {
        assert forall|i: int| 0 <= i < s.drop_last().len() implies f(#[trigger] s.drop_last()[i]) by {
            assert(s.drop_last()[i] == s[i]);
        }
        lemma_filter_all(s.drop_last(), f);
        assert(f(s[s.len() - 1]));
        assert(s =~= s.drop_last().push(s.last()));
    }
}

/// Two tests that agree on what a list holds filter it alike.
proof fn lemma_filter_same<A>(s: Seq<A>, f: spec_fn(A) -> bool, g: spec_fn(A) -> bool)
    requires
        forall|i: int| 0 <= i < s.len() ==> f(#[trigger] s[i]) == g(s[i]),
    ensures
        s.filter(f) == s.filter(g),
    decreases s.len(),
{
    reveal(Seq::filter);
    if s.len() > 0 {
        assert forall|i: int| 0 <= i < s.drop_last().len() implies f(
            #[trigger] s.drop_last()[i],
        ) == g(s.drop_last()[i]) by {
            assert(s.drop_last()[i] == s[i]);
        }
        lemma_filter_same(s.drop_last(), f, g);
        assert(f(s[s.len() - 1]) == g(s[s.len() - 1]));
    }
}

/// A map from text to `V` in insertion order.
pub struct JsMap<V> {
    keys: Vec<String>,
    vals: Vec<V>,
}

/// No two keys are the same text.
spec fn distinct(ks: Seq<String>) -> bool {
    forall|i: int, j: int| 0 <= i < j < ks.len() ==> #[trigger] ks[i]@ != #[trigger] ks[j]@
}

spec fn among(ks: Seq<String>, k: Seq<char>) -> bool {
    exists|i: int| 0 <= i < ks.len() && #[trigger] ks[i]@ == k
}

/// Where a key stands.
spec fn place(ks: Seq<String>, k: Seq<char>) -> int {
    choose|i: int| 0 <= i < ks.len() && #[trigger] ks[i]@ == k
}

spec fn contents<V: View>(ks: Seq<String>, vs: Seq<V>) -> Dict<V::V> {
    Dict {
        order: texts(ks),
        at: Map::new(|k: Seq<char>| among(ks, k), |k: Seq<char>| vs[place(ks, k)]@),
    }
}

impl<V> JsMap<V> {
    #[verifier::type_invariant]
    spec fn inv(self) -> bool {
        distinct(self.keys@) && self.keys@.len() == self.vals@.len()
    }
}

impl<V: View> View for JsMap<V> {
    type V = Dict<V::V>;

    closed spec fn view(&self) -> Dict<V::V> {
        contents(self.keys@, self.vals@)
    }
}

/// A key is held, and its value is the one that stands beside it.
proof fn lemma_entry<V: View>(ks: Seq<String>, vs: Seq<V>, i: int)
    requires
        distinct(ks),
        0 <= i < ks.len(),
    ensures
        contents(ks, vs).at.contains_key(ks[i]@),
        contents(ks, vs).at[ks[i]@] == vs[i]@,
        contents(ks, vs).order[i] == ks[i]@,
{
    let j = place(ks, ks[i]@);
    assert(0 <= j < ks.len() && ks[j]@ == ks[i]@);
    assert(i == j);
}

proof fn lemma_wf<V: View>(ks: Seq<String>, vs: Seq<V>)
    requires
        distinct(ks),
    ensures
        contents(ks, vs).wf(),
{
    let d = contents(ks, vs);
    assert forall|k: Seq<char>| d.order.contains(k) <==> #[trigger] d.at.contains_key(k) by {
        if d.order.contains(k) {
            let i = choose|i: int| 0 <= i < d.order.len() && d.order[i] == k;
            lemma_entry(ks, vs, i);
        }
        if d.at.contains_key(k) {
            let i = place(ks, k);
            assert(d.order[i] == k);
        }
    }
    assert forall|i: int, j: int|
        0 <= i < d.order.len() && 0 <= j < d.order.len() && i != j implies d.order[i]
        != d.order[j] by {
        assert(d.order[i] == ks[i]@);
        assert(d.order[j] == ks[j]@);
    }
}

/// Writing the value beside a held key.
proof fn lemma_write<V: View>(ks: Seq<String>, vs: Seq<V>, i: int, v: V)
    requires
        distinct(ks),
        ks.len() == vs.len(),
        0 <= i < ks.len(),
    ensures
        contents(ks, vs.update(i, v)) == contents(ks, vs).put(ks[i]@, v@),
{
    let a = contents(ks, vs.update(i, v));
    let b = contents(ks, vs).put(ks[i]@, v@);
    lemma_entry(ks, vs, i);
    assert(a.order =~= b.order);
    assert forall|k: Seq<char>| a.at.contains_key(k) implies a.at[k] == b.at[k] by {
        let j = place(ks, k);
        assert(0 <= j < ks.len() && ks[j]@ == k);
    }
    assert(a.at =~= b.at);
}

/// Adding a key at the end.
proof fn lemma_add<V: View>(ks: Seq<String>, vs: Seq<V>, k: String, v: V)
    requires
        distinct(ks),
        ks.len() == vs.len(),
        !among(ks, k@),
    ensures
        distinct(ks.push(k)),
        contents(ks.push(k), vs.push(v)) == contents(ks, vs).put(k@, v@),
{
    let ks2 = ks.push(k);
    let vs2 = vs.push(v);
    assert(distinct(ks2));
    let a = contents(ks2, vs2);
    let b = contents(ks, vs).put(k@, v@);
    assert(a.order =~= b.order);
    assert forall|x: Seq<char>| a.at.contains_key(x) <==> b.at.contains_key(x) by {
        if among(ks, x) {
            let j = place(ks, x);
            assert(ks2[j]@ == x);
        }
        if x == k@ {
            assert(ks2[ks.len() as int]@ == x);
        }
        if among(ks2, x) {
            let j = place(ks2, x);
            if j < ks.len() {
                assert(ks[j]@ == x);
            }
        }
    }
    assert forall|x: Seq<char>| a.at.contains_key(x) implies a.at[x] == b.at[x] by {
        let j = place(ks2, x);
        assert(0 <= j < ks2.len() && ks2[j]@ == x);
        if j < ks.len() {
            assert(ks[j]@ == x);
            lemma_entry(ks, vs, j);
        }
    }
    assert(a.at =~= b.at);
}

impl<V: View> JsMap<V> {
    pub fn new() -> (r: Self)
        ensures
            r@ == Dict::<V::V>::empty(),
    {
        let r = JsMap { keys: Vec::new(), vals: Vec::new() };
        assert(r@ =~= Dict::<V::V>::empty());
        r
    }

    pub fn clear(&mut self)
        ensures
            final(self)@ == Dict::<V::V>::empty(),
    {
        *self = JsMap::new();
    }

    /// Where a key stands.
    fn find(&self, k: &str) -> (r: Option<usize>)
        ensures
            distinct(self.keys@),
            self.keys@.len() == self.vals@.len(),
            match r {
                Some(i) => i < self.keys@.len() && self.keys@[i as int]@ == k@,
                None => !among(self.keys@, k@),
            },
    {
        proof {
            use_type_invariant(self);
        }
        let mut i: usize = 0;
        while i < self.keys.len()
            invariant
                i <= self.keys@.len(),
                distinct(self.keys@),
                self.keys@.len() == self.vals@.len(),
                forall|j: int| 0 <= j < i ==> (#[trigger] self.keys@[j])@ != k@,
            decreases self.keys.len() - i,
        {
            if same(self.keys[i].as_str(), k) {
                return Some(i);
            }
            i = i + 1;
        }
        None
    }

    pub fn contains_key(&self, k: &str) -> (r: bool)
        ensures
            self@.wf(),
            r == self@.has(k@),
    {
        let f = self.find(k);
        proof {
            lemma_wf(self.keys@, self.vals@);
            if f is Some {
                lemma_entry(self.keys@, self.vals@, f->0 as int);
            }
        }
        f.is_some()
    }

    pub fn get(&self, k: &str) -> (r: Option<&V>)
        ensures
            self@.wf(),
            match r {
                Some(v) => self@.get(k@) == Some(v@),
                None => self@.get(k@) is None,
            },
    {
        let f = self.find(k);
        proof {
            lemma_wf(self.keys@, self.vals@);
        }
        match f {
            Some(i) => {
                proof {
                    lemma_entry(self.keys@, self.vals@, i as int);
                }
                Some(&self.vals[i])
            },
            None => None,
        }
    }

    /// The value at a key, to be changed in place.
    pub fn get_mut(&mut self, k: &str) -> (r: Option<&mut V>)
        ensures
            old(self)@.wf(),
            match r {
                Some(v) => old(self)@.get(k@) == Some((*v)@) && final(self)@ == old(self)@.put(
                    k@,
                    (*final(v))@,
                ),
                None => old(self)@.get(k@) is None && final(self)@ == old(self)@,
            },
    {
        let f = self.find(k);
        proof {
            lemma_wf(self.keys@, self.vals@);
        }
        match f {
            Some(i) => {
                proof {
                    lemma_entry(self.keys@, self.vals@, i as int);
                    assert forall|v: V| #![trigger self.vals@.update(i as int, v)]
                        contents(self.keys@, self.vals@.update(i as int, v)) == self@.put(k@, v@) by {
                        lemma_write(self.keys@, self.vals@, i as int, v);
                    }
                }
                Some(&mut self.vals[i])
            },
            None => None,
        }
    }

    /// The old value gives way in place; a new key goes to the end.
    pub fn insert(&mut self, k: String, v: V)
        ensures
            old(self)@.wf(),
            final(self)@.wf(),
            final(self)@ == old(self)@.put(k@, v@),
    {
        let f = self.find(k.as_str());
        proof {
            lemma_wf(self.keys@, self.vals@);
        }
        match f {
            Some(i) => {
                proof {
                    lemma_write(self.keys@, self.vals@, i as int, v);
                    lemma_wf(self.keys@, self.vals@.update(i as int, v));
                }
                self.vals[i] = v;
            },
            None => {
                proof {
                    lemma_add(self.keys@, self.vals@, k, v);
                    lemma_wf(self.keys@.push(k), self.vals@.push(v));
                }
                let mut taken: JsMap<V> = JsMap { keys: Vec::new(), vals: Vec::new() };
                core::mem::swap(self, &mut taken);
                let JsMap { keys: mut ks, vals: mut vs } = taken;
                ks.push(k);
                vs.push(v);
                *self = JsMap { keys: ks, vals: vs };
            },
        }
    }

    /// Keeps the entries that `f` admits, in the order they stand.
    pub fn retain<F: Fn(&str, &V) -> bool>(
        &mut self,
        f: F,
        Ghost(p): Ghost<spec_fn(Seq<char>, V::V) -> bool>,
    )
        requires
            forall|k: &str, v: &V| old(self)@.get(k@) == Some(v@) ==> #[trigger] f.requires((k, v)),
            forall|k: &str, v: &V, b: bool|
                old(self)@.get(k@) == Some(v@) && #[trigger] f.ensures((k, v), b) ==> b == p(k@, v@),
        ensures
            old(self)@.wf(),
            final(self)@.wf(),
            final(self)@ == old(self)@.keep(p),
    {
        proof {
            use_type_invariant(&*self);
            lemma_wf(self.keys@, self.vals@);
        }
        let ghost before = self@;
        let mut taken: JsMap<V> = JsMap { keys: Vec::new(), vals: Vec::new() };
        core::mem::swap(self, &mut taken);
        let JsMap { keys: mut ks, vals: mut vs } = taken;
        let ghost ks0 = ks@;
        let ghost vs0 = vs@;
        let ghost mut done: int = 0;
        let mut i: usize = 0;
        assert(ks0.skip(0) =~= ks0);
        assert(vs0.skip(0) =~= vs0);
        while i < ks.len()
            invariant
                0 <= done <= ks0.len(),
                ks0.len() == vs0.len(),
                distinct(ks0),
                before == contents(ks0, vs0),
                i as int == sifted(ks0.take(done), vs0, p).len(),
                ks@ == sifted(ks0.take(done), vs0, p).map_values(|j: int| ks0[j]) + ks0.skip(done),
                vs@ == sifted(ks0.take(done), vs0, p).map_values(|j: int| vs0[j]) + vs0.skip(done),
                forall|k: &str, v: &V| before.get(k@) == Some(v@) ==> #[trigger] f.requires((k, v)),
                forall|k: &str, v: &V, b: bool|
                    before.get(k@) == Some(v@) && #[trigger] f.ensures((k, v), b) ==> b == p(k@, v@),
            decreases ks.len() - i,
        {
            let ghost kept = sifted(ks0.take(done), vs0, p);
            assert(ks@[i as int] == ks0[done]);
            assert(vs@[i as int] == vs0[done]);
            proof {
                lemma_entry(ks0, vs0, done);
                assert(ks0.take(done + 1).drop_last() =~= ks0.take(done));
            }
            if f(ks[i].as_str(), &vs[i]) {
                assert(sifted(ks0.take(done + 1), vs0, p) == kept.push(done));
                assert(ks@ =~= kept.push(done).map_values(|j: int| ks0[j]) + ks0.skip(done + 1));
                assert(vs@ =~= kept.push(done).map_values(|j: int| vs0[j]) + vs0.skip(done + 1));
                i = i + 1;
            } else {
                ks.remove(i);
                vs.remove(i);
                assert(ks@ =~= kept.map_values(|j: int| ks0[j]) + ks0.skip(done + 1));
                assert(vs@ =~= kept.map_values(|j: int| vs0[j]) + vs0.skip(done + 1));
            }
            proof {
                done = done + 1;
            }
        }
        proof {
            assert(done == ks0.len());
            assert(ks0.take(done) =~= ks0);
            assert(ks@ =~= sifted(ks0, vs0, p).map_values(|j: int| ks0[j]));
            assert(vs@ =~= sifted(ks0, vs0, p).map_values(|j: int| vs0[j]));
            lemma_sifted(ks0, vs0, p);
            lemma_wf(ks@, vs@);
        }
        *self = JsMap { keys: ks, vals: vs };
    }

    /// Removes a key; says whether it was there.
    pub fn remove(&mut self, k: &str) -> (r: bool)
        ensures
            old(self)@.wf(),
            final(self)@.wf(),
            final(self)@ == old(self)@.del(k@),
            r == old(self)@.has(k@),
    {
        let had = self.contains_key(k);
        let stays = |x: &str, v: &V| -> (b: bool)
            ensures b == (x@ != k@)
            { !same(x, k) };
        let ghost others = |x: Seq<char>, v: V::V| x != k@;
        proof {
            self@.lemma_del_keeps(k@, others);
        }
        self.retain(stays, Ghost(others));
        had
    }

    pub fn len(&self) -> (r: usize)
        ensures
            self@.wf(),
            r == self@.order.len(),
    {
        proof {
            use_type_invariant(self);
            lemma_wf(self.keys@, self.vals@);
        }
        self.keys.len()
    }

    /// The key that stands at a place in the order.
    pub fn key_at(&self, i: usize) -> (r: &str)
        requires
            i < self@.order.len(),
        ensures
            r@ == self@.order[i as int],
            self@.has(r@),
    {
        proof {
            use_type_invariant(self);
            lemma_entry(self.keys@, self.vals@, i as int);
        }
        self.keys[i].as_str()
    }

    /// The value that stands at a place in the order.
    pub fn value_at(&self, i: usize) -> (r: &V)
        requires
            i < self@.order.len(),
        ensures
            self@.get(self@.order[i as int]) == Some(r@),
    {
        proof {
            use_type_invariant(self);
            lemma_entry(self.keys@, self.vals@, i as int);
        }
        &self.vals[i]
    }

    /// The keys, in order.
    pub fn keys(&self) -> (r: Vec<String>)
        ensures
            self@.wf(),
            texts(r@) == self@.order,
    {
        proof {
            use_type_invariant(self);
            lemma_wf(self.keys@, self.vals@);
        }
        copy_list(&self.keys)
    }
}

/// The places, in order, whose entries a test admits.
spec fn sifted<V: View>(
    ks: Seq<String>,
    vs: Seq<V>,
    p: spec_fn(Seq<char>, V::V) -> bool,
) -> Seq<int>
    decreases ks.len(),
{
    if ks.len() == 0 {
        Seq::empty()
    } else {
        let rest = sifted(ks.drop_last(), vs, p);
        if p(ks.last()@, vs[ks.len() - 1]@) {
            rest.push(ks.len() - 1)
        } else {
            rest
        }
    }
}

proof fn lemma_sifted_places<V: View>(
    ks: Seq<String>,
    vs: Seq<V>,
    p: spec_fn(Seq<char>, V::V) -> bool,
)
    ensures
        ({
            let s = sifted(ks, vs, p);
            &&& forall|i: int|
                0 <= i < s.len() ==> (0 <= #[trigger] s[i] && s[i] < ks.len() && p(
                    ks[s[i]]@,
                    vs[s[i]]@,
                ))
            &&& forall|i: int, j: int| 0 <= i < j && j < s.len() ==> s[i] < s[j]
            &&& forall|m: int| 0 <= m < ks.len() && p(#[trigger] ks[m]@, vs[m]@) ==> s.contains(m)
        }),
    decreases ks.len(),
{
    if ks.len() > 0 {
        lemma_sifted_places(ks.drop_last(), vs, p);
        let rest = sifted(ks.drop_last(), vs, p);
        let all = sifted(ks, vs, p);
        assert forall|m: int| 0 <= m < ks.len() && p(#[trigger] ks[m]@, vs[m]@) implies all.contains(m) by {
            if m < ks.len() - 1 {
                assert(ks.drop_last()[m] == ks[m]);
                let i = choose|i: int| 0 <= i < rest.len() && rest[i] == m;
                assert(all[i] == m);
            } else {
                assert(all[all.len() - 1] == m);
            }
        }
        assert forall|i: int| 0 <= i < all.len() implies 0 <= #[trigger] all[i] && all[i] < ks.len() && p(
            ks[all[i]]@,
            vs[all[i]]@,
        ) by {
            if i < rest.len() {
                assert(all[i] == rest[i]);
                assert(ks.drop_last()[rest[i]] == ks[rest[i]]);
            }
        }
    }
}

/// The kept keys, in order, are the order filtered.
proof fn lemma_sifted_order<V: View>(
    ks: Seq<String>,
    vs: Seq<V>,
    d: Dict<V::V>,
    p: spec_fn(Seq<char>, V::V) -> bool,
)
    requires
        forall|i: int| 0 <= i < ks.len() ==> d.at[#[trigger] ks[i]@] == vs[i]@,
    ensures
        texts(ks).filter(d.admits(p)) == sifted(ks, vs, p).map_values(
            |j: int| ks[j]@,
        ),
    decreases ks.len(),
{
    reveal(Seq::filter);
    let q = d.admits(p);
    if ks.len() > 0 {
        let front = ks.drop_last();
        assert forall|i: int| 0 <= i < front.len() implies d.at[#[trigger] front[i]@] == vs[i]@ by {
            assert(front[i] == ks[i]);
        }
        lemma_sifted_order(front, vs, d, p);
        lemma_sifted_places(front, vs, p);
        assert(texts(ks).drop_last() =~= texts(front));
        assert(ks.last() == ks[ks.len() - 1]);
        assert(sifted(front, vs, p).map_values(|j: int| front[j]@) =~= sifted(
            front,
            vs,
            p,
        ).map_values(|j: int| ks[j]@));
        assert(texts(ks).filter(q) =~= sifted(ks, vs, p).map_values(|j: int| ks[j]@));
    } else {
        assert(texts(ks).filter(q) =~= sifted(ks, vs, p).map_values(|j: int| ks[j]@));
    }
}

proof fn lemma_sifted<V: View>(ks: Seq<String>, vs: Seq<V>, p: spec_fn(Seq<char>, V::V) -> bool)
    requires
        distinct(ks),
        ks.len() == vs.len(),
    ensures
        ({
            let ks2 = sifted(ks, vs, p).map_values(|j: int| ks[j]);
            let vs2 = sifted(ks, vs, p).map_values(|j: int| vs[j]);
            &&& distinct(ks2)
            &&& contents(ks2, vs2) == contents(ks, vs).keep(p)
        }),
{
    let s = sifted(ks, vs, p);
    let ks2 = s.map_values(|j: int| ks[j]);
    let vs2 = s.map_values(|j: int| vs[j]);
    let d = contents(ks, vs);
    let a = contents(ks2, vs2);
    let b = d.keep(p);
    lemma_sifted_places(ks, vs, p);
    assert forall|i: int| 0 <= i < ks.len() implies d.at[#[trigger] ks[i]@] == vs[i]@ by {
        lemma_entry(ks, vs, i);
    }
    lemma_sifted_order(ks, vs, d, p);
    assert(a.order =~= b.order);
    assert(distinct(ks2));
    assert forall|x: Seq<char>| a.at.contains_key(x) <==> b.at.contains_key(x) by {
        if among(ks2, x) {
            let i = place(ks2, x);
            lemma_entry(ks, vs, s[i]);
        }
        if b.at.contains_key(x) {
            let m = place(ks, x);
            lemma_entry(ks, vs, m);
            let i = choose|i: int| 0 <= i < s.len() && s[i] == m;
            assert(ks2[i]@ == x);
        }
    }
    assert forall|x: Seq<char>| a.at.contains_key(x) implies a.at[x] == b.at[x] by {
        let i = place(ks2, x);
        assert(0 <= i < ks2.len() && ks2[i]@ == x);
        lemma_entry(ks, vs, s[i]);
    }
    assert(a.at =~= b.at);
}

} // verus!
