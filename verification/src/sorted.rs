//! A map keyed by text whose keys stand in ascending order.
use crate::text::{chars_of, same, texts};
use vstd::prelude::*;

verus! {

/// Character by character, a text that ends first first.
pub open spec fn precedes(a: Seq<char>, b: Seq<char>) -> bool
    decreases a.len(),
{
    if b.len() == 0 {
        false
    } else if a.len() == 0 {
        true
    } else if a[0] != b[0] {
        (a[0] as int) < (b[0] as int)
    } else {
        precedes(a.drop_first(), b.drop_first())
    }
}

/// No text precedes itself, and of two texts one precedes the other.
pub proof fn precedes_is_total(a: Seq<char>, b: Seq<char>)
    ensures
        !precedes(a, a),
        a == b || precedes(a, b) || precedes(b, a),
        !(precedes(a, b) && precedes(b, a)),
    decreases a.len(),
{
    if a.len() > 0 {
        precedes_is_total(a.drop_first(), a.drop_first());
        if b.len() > 0 {
            precedes_is_total(a.drop_first(), b.drop_first());
            if a[0] == b[0] && a.drop_first() == b.drop_first() {
                assert(a =~= seq![a[0]] + a.drop_first());
                assert(b =~= seq![b[0]] + b.drop_first());
            }
        }
    } else if b.len() == 0 {
        assert(a =~= b);
    }
}

pub proof fn precedes_is_transitive(a: Seq<char>, b: Seq<char>, c: Seq<char>)
    requires
        precedes(a, b),
        precedes(b, c),
    ensures
        precedes(a, c),
    decreases a.len(),
{
    if a.len() > 0 && a[0] == b[0] && b[0] == c[0] {
        precedes_is_transitive(a.drop_first(), b.drop_first(), c.drop_first());
    }
}

/// Two texts are ordered by the first character in which they differ, by its number; and of two of which
/// one begins the other, the shorter precedes.
pub proof fn the_first_difference_decides(
    common: Seq<char>,
    x: char,
    y: char,
    s: Seq<char>,
    t: Seq<char>,
)
    ensures
        (x as u32) < (y as u32) ==> precedes(common.push(x) + s, common.push(y) + t),
        (x as u32) < (y as u32) ==> !precedes(common.push(y) + t, common.push(x) + s),
        precedes(common, common.push(x) + s),
        !precedes(common.push(x) + s, common),
    decreases common.len(),
{
    let (a, b) = (common.push(x) + s, common.push(y) + t);
    if common.len() > 0 {
        let rest = common.drop_first();
        the_first_difference_decides(rest, x, y, s, t);
        assert(a.drop_first() =~= rest.push(x) + s);
        assert(b.drop_first() =~= rest.push(y) + t);
        assert(a[0] == common[0] && b[0] == common[0]);
    }
}

/// Whether a text precedes another.
pub fn text_precedes(a: &str, b: &str) -> (r: bool)
    ensures
        r == precedes(a@, b@),
{
    let ca = chars_of(a);
    let cb = chars_of(b);
    let mut i: usize = 0;
    assert(a@.skip(0) =~= a@);
    assert(b@.skip(0) =~= b@);
    while i < ca.len() && i < cb.len()
        invariant
            i <= ca.len(),
            i <= cb.len(),
            ca@ == a@,
            cb@ == b@,
            precedes(a@, b@) == precedes(a@.skip(i as int), b@.skip(i as int)),
        decreases ca.len() - i,
    {
        assert(a@.skip(i as int)[0] == ca@[i as int]);
        assert(b@.skip(i as int)[0] == cb@[i as int]);
        let x: char = ca[i];
        let y: char = cb[i];
        if x != y {
            return x < y;
        }
        assert(a@.skip(i as int).drop_first() =~= a@.skip(i + 1));
        assert(b@.skip(i as int).drop_first() =~= b@.skip(i + 1));
        i = i + 1;
    }
    i < cb.len()
}

/// In ascending order, none twice.
pub open spec fn ascending(ks: Seq<Seq<char>>) -> bool {
    forall|i: int, j: int| 0 <= i < j && j < ks.len() ==> precedes(#[trigger] ks[i], #[trigger] ks[j])
}

/// The same keys in ascending order are the same list.
pub proof fn ascending_is_unique(a: Seq<Seq<char>>, b: Seq<Seq<char>>)
    requires
        ascending(a),
        ascending(b),
        forall|k: Seq<char>| #[trigger] a.contains(k) <==> b.contains(k),
    ensures
        a == b,
    decreases a.len(),
{
    if a.len() == 0 {
        if b.len() > 0 {
            assert(b.contains(b[0]));
            assert(a.contains(b[0]));
        }
        assert(a =~= b);
    } else {
        assert(a.contains(a[0]));
        assert(b.contains(a[0]));
        assert(b.len() > 0);
        assert(b.contains(b[0]));
        assert(a.contains(b[0]));
        let j = choose|j: int| 0 <= j < b.len() && b[j] == a[0];
        let i = choose|i: int| 0 <= i < a.len() && a[i] == b[0];
        precedes_is_total(a[0], b[0]);
        if j > 0 {
            assert(precedes(b[0], b[j]));
            if i > 0 {
                assert(precedes(a[0], a[i]));
            }
        }
        assert(a[0] == b[0]);
        let a2 = a.drop_first();
        let b2 = b.drop_first();
        assert forall|k: Seq<char>| #[trigger] a2.contains(k) <==> b2.contains(k) by {
            if a2.contains(k) {
                let x = choose|x: int| 0 <= x < a2.len() && a2[x] == k;
                assert(a[x + 1] == k);
                assert(a.contains(k));
                assert(b.contains(k));
                let y = choose|y: int| 0 <= y < b.len() && b[y] == k;
                assert(precedes(a[0], a[x + 1]));
                precedes_is_total(a[0], a[0]);
                assert(y != 0);
                assert(b2[y - 1] == k);
            }
            if b2.contains(k) {
                let x = choose|x: int| 0 <= x < b2.len() && b2[x] == k;
                assert(b[x + 1] == k);
                assert(b.contains(k));
                assert(a.contains(k));
                let y = choose|y: int| 0 <= y < a.len() && a[y] == k;
                assert(precedes(b[0], b[x + 1]));
                precedes_is_total(b[0], b[0]);
                assert(y != 0);
                assert(a2[y - 1] == k);
            }
        }
        assert(ascending(a2)) by {
            assert forall|i: int, j: int| 0 <= i < j && j < a2.len() implies precedes(
                #[trigger] a2[i],
                #[trigger] a2[j],
            ) by {
                assert(precedes(a[i + 1], a[j + 1]));
            }
        }
        assert(ascending(b2)) by {
            assert forall|i: int, j: int| 0 <= i < j && j < b2.len() implies precedes(
                #[trigger] b2[i],
                #[trigger] b2[j],
            ) by {
                assert(precedes(b[i + 1], b[j + 1]));
            }
        }
        ascending_is_unique(a2, b2);
        assert(a =~= seq![a[0]] + a2);
        assert(b =~= seq![b[0]] + b2);
    }
}

/// What a [`TextMap`] holds: its keys in ascending order, and the value at each.
#[verifier::ext_equal]
pub struct Sorted<T> {
    pub keys: Seq<Seq<char>>,
    pub at: Map<Seq<char>, T>,
}

impl<T> Sorted<T> {
    pub open spec fn empty() -> Self {
        Sorted { keys: Seq::empty(), at: Map::empty() }
    }

    pub open spec fn wf(self) -> bool {
        &&& ascending(self.keys)
        &&& forall|k: Seq<char>| self.keys.contains(k) <==> #[trigger] self.at.contains_key(k)
    }
}

/// A map from text to `V`, its keys in ascending order.
pub struct TextMap<V> {
    keys: Vec<String>,
    vals: Vec<V>,
}

spec fn place_of(ks: Seq<Seq<char>>, k: Seq<char>) -> int {
    choose|i: int| 0 <= i < ks.len() && ks[i] == k
}

spec fn holding<V: View>(ks: Seq<Seq<char>>, vs: Seq<V>) -> Map<Seq<char>, V::V> {
    Map::new(|k: Seq<char>| ks.contains(k), |k: Seq<char>| vs[place_of(ks, k)]@)
}

impl<V> TextMap<V> {
    #[verifier::type_invariant]
    spec fn inv(self) -> bool {
        ascending(texts(self.keys@)) && self.keys@.len() == self.vals@.len()
    }
}

impl<V: View> View for TextMap<V> {
    type V = Sorted<V::V>;

    closed spec fn view(&self) -> Sorted<V::V> {
        Sorted { keys: texts(self.keys@), at: holding(texts(self.keys@), self.vals@) }
    }
}

proof fn lemma_held<V: View>(ks: Seq<Seq<char>>, vs: Seq<V>, i: int)
    requires
        ascending(ks),
        0 <= i < ks.len(),
    ensures
        holding(ks, vs).contains_key(ks[i]),
        holding(ks, vs)[ks[i]] == vs[i]@,
{
    assert(ks.contains(ks[i]));
    let j = place_of(ks, ks[i]);
    assert(0 <= j < ks.len() && ks[j] == ks[i]);
    precedes_is_total(ks[i], ks[i]);
    if i < j {
        assert(precedes(ks[i], ks[j]));
    }
    if j < i {
        assert(precedes(ks[j], ks[i]));
    }
}

impl<V: View> TextMap<V> {
    pub fn new() -> (r: Self)
        ensures
            r@ == Sorted::<V::V>::empty(),
    {
        let r = TextMap { keys: Vec::new(), vals: Vec::new() };
        assert(r@.keys =~= Seq::empty());
        assert(r@.at =~= Map::empty());
        r
    }

    /// The place of the first key that does not precede `k`.
    fn seat(&self, k: &str) -> (r: usize)
        ensures
            ascending(texts(self.keys@)),
            self.keys@.len() == self.vals@.len(),
            r <= self.keys@.len(),
            forall|j: int| 0 <= j < r ==> precedes(#[trigger] texts(self.keys@)[j], k@),
            r < self.keys@.len() ==> !precedes(texts(self.keys@)[r as int], k@),
    {
        proof {
            use_type_invariant(self);
        }
        let mut i: usize = 0;
        while i < self.keys.len() && text_precedes(self.keys[i].as_str(), k)
            invariant
                i <= self.keys@.len(),
                forall|j: int| 0 <= j < i ==> precedes(#[trigger] texts(self.keys@)[j], k@),
            decreases self.keys.len() - i,
        {
            assert(texts(self.keys@)[i as int] == self.keys@[i as int]@);
            i = i + 1;
        }
        i
    }

    pub fn get(&self, k: &str) -> (r: Option<&V>)
        ensures
            match r {
                Some(v) => self@.at.contains_key(k@) && self@.at[k@] == v@,
                None => !self@.at.contains_key(k@),
            },
    {
        let i: usize = self.seat(k);
        let ghost ks = texts(self.keys@);
        if i < self.keys.len() && same(self.keys[i].as_str(), k) {
            proof {
                lemma_held(ks, self.vals@, i as int);
            }
            return Some(&self.vals[i]);
        }
        proof {
            lemma_absent(ks, k@, i as int);
        }
        None
    }

    /// The old value gives way; a new key takes its place in the order.
    pub fn insert(&mut self, k: String, v: V)
        ensures
            final(self)@.at == old(self)@.at.insert(k@, v@),
            final(self)@.wf(),
    {
        let i: usize = self.seat(k.as_str());
        let ghost ks = texts(self.keys@);
        let ghost vs = self.vals@;
        let here: bool = i < self.keys.len() && same(self.keys[i].as_str(), k.as_str());
        let mut taken: TextMap<V> = TextMap { keys: Vec::new(), vals: Vec::new() };
        core::mem::swap(self, &mut taken);
        let TextMap { keys: mut names, vals: mut values } = taken;
        if here {
            values.set(i, v);
            proof {
                let a = holding(ks, values@);
                let b = holding(ks, vs).insert(k@, v@);
                lemma_held(ks, vs, i as int);
                assert forall|x: Seq<char>| a.contains_key(x) implies a[x] == b[x] by {
                    let j = place_of(ks, x);
                    assert(0 <= j < ks.len() && ks[j] == x);
                    lemma_held(ks, values@, j);
                    lemma_held(ks, vs, j);
                    if j == i {
                    } else {
                        precedes_is_total(ks[i as int], ks[i as int]);
                        if i < j {
                            assert(precedes(ks[i as int], ks[j]));
                        } else {
                            assert(precedes(ks[j], ks[i as int]));
                        }
                    }
                }
                assert(a =~= b);
            }
        } else {
            proof {
                lemma_absent(ks, k@, i as int);
                lemma_seated(ks, vs, i as int, k@, v);
            }
            names.insert(i, k);
            values.insert(i, v);
            assert(texts(names@) =~= ks.insert(i as int, k@));
        }
        *self = TextMap { keys: names, vals: values };
        proof {
            lemma_sorted_wf(texts(self.keys@), self.vals@);
        }
    }

    pub fn len(&self) -> (r: usize)
        ensures
            r == self@.keys.len(),
            self@.wf(),
    {
        proof {
            use_type_invariant(self);
            lemma_sorted_wf(texts(self.keys@), self.vals@);
        }
        self.keys.len()
    }

    pub fn key_at(&self, i: usize) -> (r: &str)
        requires
            i < self@.keys.len(),
        ensures
            r@ == self@.keys[i as int],
            self@.at.contains_key(r@),
    {
        proof {
            use_type_invariant(self);
            lemma_held(texts(self.keys@), self.vals@, i as int);
        }
        self.keys[i].as_str()
    }

    pub fn value_at(&self, i: usize) -> (r: &V)
        requires
            i < self@.keys.len(),
        ensures
            r@ == self@.at[self@.keys[i as int]],
    {
        proof {
            use_type_invariant(self);
            lemma_held(texts(self.keys@), self.vals@, i as int);
        }
        &self.vals[i]
    }
}

proof fn lemma_sorted_wf<V: View>(ks: Seq<Seq<char>>, vs: Seq<V>)
    requires
        ascending(ks),
    ensures
        (Sorted { keys: ks, at: holding(ks, vs) }).wf(),
{
}

/// A key that stands at no place up to the first that does not precede it stands nowhere.
proof fn lemma_absent(ks: Seq<Seq<char>>, k: Seq<char>, i: int)
    requires
        ascending(ks),
        0 <= i <= ks.len(),
        forall|j: int| 0 <= j < i ==> precedes(#[trigger] ks[j], k),
        i < ks.len() ==> !precedes(ks[i], k) && ks[i] != k,
    ensures
        !ks.contains(k),
        i < ks.len() ==> precedes(k, ks[i]),
{
    precedes_is_total(k, k);
    if i < ks.len() {
        precedes_is_total(ks[i], k);
    }
    if ks.contains(k) {
        let j = choose|j: int| 0 <= j < ks.len() && ks[j] == k;
        if j < i {
            assert(precedes(ks[j], k));
        } else if j > i {
            assert(precedes(ks[i], ks[j]));
        }
    }
}

/// A new key put before the first that it precedes.
proof fn lemma_seated<V: View>(ks: Seq<Seq<char>>, vs: Seq<V>, i: int, k: Seq<char>, v: V)
    requires
        ascending(ks),
        ks.len() == vs.len(),
        0 <= i <= ks.len(),
        forall|j: int| 0 <= j < i ==> precedes(#[trigger] ks[j], k),
        i < ks.len() ==> precedes(k, ks[i]),
        !ks.contains(k),
    ensures
        ascending(ks.insert(i, k)),
        holding(ks.insert(i, k), vs.insert(i, v)) == holding(ks, vs).insert(k, v@),
{
    let ks2 = ks.insert(i, k);
    let vs2 = vs.insert(i, v);
    assert forall|x: int, y: int| 0 <= x < y && y < ks2.len() implies precedes(
        #[trigger] ks2[x],
        #[trigger] ks2[y],
    ) by {
        if x < i && y < i {
            assert(precedes(ks[x], ks[y]));
        } else if x < i && y == i {
        } else if x < i {
            assert(precedes(ks[x], ks[y - 1]));
        } else if x == i {
            if y - 1 > i {
                assert(precedes(ks[i], ks[y - 1]));
                precedes_is_transitive(k, ks[i], ks[y - 1]);
            }
        } else {
            assert(precedes(ks[x - 1], ks[y - 1]));
        }
    }
    let a = holding(ks2, vs2);
    let b = holding(ks, vs).insert(k, v@);
    assert forall|x: Seq<char>| a.contains_key(x) <==> b.contains_key(x) by {
        if ks.contains(x) {
            let j = choose|j: int| 0 <= j < ks.len() && ks[j] == x;
            if j < i {
                assert(ks2[j] == x);
            } else {
                assert(ks2[j + 1] == x);
            }
        }
        assert(ks2[i] == k);
        if ks2.contains(x) {
            let j = choose|j: int| 0 <= j < ks2.len() && ks2[j] == x;
            if j < i {
                assert(ks[j] == x);
            } else if j > i {
                assert(ks[j - 1] == x);
            }
        }
    }
    assert forall|x: Seq<char>| a.contains_key(x) implies a[x] == b[x] by {
        let j = place_of(ks2, x);
        assert(0 <= j < ks2.len() && ks2[j] == x);
        lemma_held(ks2, vs2, j);
        if j < i {
            lemma_held(ks, vs, j);
            assert(ks.contains(x));
        } else if j > i {
            lemma_held(ks, vs, j - 1);
            assert(ks.contains(x));
        }
    }
    assert(a =~= b);
}

} // verus!
