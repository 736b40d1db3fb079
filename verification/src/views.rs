//! What a subscription shows: the window it is cut to, the difference between two windows, and what
//! serving them cost.
use crate::sorted::TextMap;
use crate::text::same;
use vstd::prelude::*;

verus! {

/// The cells of a row, by name. A value is the cell as it is written on the wire.
pub type Cells = TextMap<String>;

/// One row of a source, under the key the source knows it by.
pub struct Row {
    pub key: String,
    pub cells: Cells,
}

/// What a [`Row`] states.
#[verifier::ext_equal]
pub struct RowV {
    pub key: Seq<char>,
    pub cells: Map<Seq<char>, Seq<char>>,
}

impl View for Row {
    type V = RowV;

    open spec fn view(&self) -> RowV {
        RowV { key: self.key@, cells: self.cells@.at }
    }
}

pub open spec fn row_views(v: Seq<Row>) -> Seq<RowV> {
    v.map_values(|r: Row| r@)
}

/// A copy of some cells.
pub fn copy_cells(c: &Cells) -> (r: Cells)
    ensures
        r@.at == c@.at,
{
    let mut out: Cells = TextMap::new();
    let n: usize = c.len();
    let mut i: usize = 0;
    while i < n
        invariant
            i <= n,
            n == c@.keys.len(),
            c@.wf(),
            forall|k: Seq<char>|
                #[trigger] out@.at.contains_key(k) <==> c@.keys.take(i as int).contains(k),
            forall|k: Seq<char>| #[trigger] out@.at.contains_key(k) ==> out@.at[k] == c@.at[k],
        decreases n - i,
    {
        let name = c.key_at(i);
        proof {
            lemma_take_push(c@.keys, i as int);
        }
        out.insert(name.to_owned(), c.value_at(i).clone());
        i = i + 1;
    }
    proof {
        assert(c@.keys.take(i as int) =~= c@.keys);
        assert forall|k: Seq<char>| #[trigger] out@.at.contains_key(k) <==> c@.at.contains_key(k) by {
            assert(c@.keys.contains(k) <==> c@.at.contains_key(k));
        }
        assert(out@.at =~= c@.at);
    }
    out
}

/// A list a place longer holds what it held, and what stands at that place.
proof fn lemma_take_push(s: Seq<Seq<char>>, i: int)
    requires
        0 <= i < s.len(),
    ensures
        forall|k: Seq<char>|
            #[trigger] s.take(i + 1).contains(k) <==> s.take(i).contains(k) || k == s[i],
{
    let a = s.take(i);
    let b = s.take(i + 1);
    assert forall|k: Seq<char>| #[trigger] b.contains(k) <==> a.contains(k) || k == s[i] by {
        if a.contains(k) {
            let j = choose|j: int| 0 <= j < a.len() && a[j] == k;
            assert(b[j] == k);
        }
        assert(b[i] == s[i]);
        if b.contains(k) && k != s[i] {
            let j = choose|j: int| 0 <= j < b.len() && b[j] == k;
            assert(a[j] == k);
        }
    }
}

/// Whether two rows carry cells of the same names.
pub fn same_names(a: &Cells, b: &Cells) -> (r: bool)
    ensures
        r == (a@.at.dom() == b@.at.dom()),
{
    let n: usize = a.len();
    let m: usize = b.len();
    let mut i: usize = 0;
    while i < n
        invariant
            i <= n,
            n == a@.keys.len(),
            a@.wf(),
            b@.wf(),
            forall|j: int| 0 <= j < i ==> b@.at.contains_key(#[trigger] a@.keys[j]),
        decreases n - i,
    {
        let k = a.key_at(i);
        if b.get(k).is_none() {
            assert(a@.at.dom().contains(k@) && !b@.at.dom().contains(k@));
            return false;
        }
        i = i + 1;
    }
    let mut j: usize = 0;
    while j < m
        invariant
            j <= m,
            m == b@.keys.len(),
            a@.wf(),
            b@.wf(),
            forall|x: int| 0 <= x < j ==> a@.at.contains_key(#[trigger] b@.keys[x]),
        decreases m - j,
    {
        let k = b.key_at(j);
        if a.get(k).is_none() {
            assert(b@.at.dom().contains(k@) && !a@.at.dom().contains(k@));
            return false;
        }
        j = j + 1;
    }
    proof {
        assert forall|k: Seq<char>| a@.at.dom().contains(k) <==> b@.at.dom().contains(k) by {
            if a@.at.contains_key(k) {
                assert(a@.keys.contains(k));
                let x = choose|x: int| 0 <= x < a@.keys.len() && a@.keys[x] == k;
                assert(b@.at.contains_key(a@.keys[x]));
            }
            if b@.at.contains_key(k) {
                assert(b@.keys.contains(k));
                let x = choose|x: int| 0 <= x < b@.keys.len() && b@.keys[x] == k;
                assert(a@.at.contains_key(b@.keys[x]));
            }
        }
        assert(a@.at.dom() =~= b@.at.dom());
    }
    true
}

/// The cells that moved: those of the new row that the old one did not have, or had otherwise.
pub open spec fn moved(
    old_cells: Map<Seq<char>, Seq<char>>,
    new_cells: Map<Seq<char>, Seq<char>>,
) -> Map<Seq<char>, Seq<char>> {
    Map::new(
        |n: Seq<char>|
            new_cells.contains_key(n) && !(old_cells.contains_key(n) && old_cells[n]
                == new_cells[n]),
        |n: Seq<char>| new_cells[n],
    )
}

/// The cells that moved.
pub fn moved_cells(old_cells: &Cells, new_cells: &Cells) -> (r: Cells)
    ensures
        r@.at == moved(old_cells@.at, new_cells@.at),
        r@.wf(),
{
    let mut out: Cells = TextMap::new();
    let n: usize = new_cells.len();
    let mut i: usize = 0;
    let ghost all = moved(old_cells@.at, new_cells@.at);
    while i < n
        invariant
            i <= n,
            n == new_cells@.keys.len(),
            new_cells@.wf(),
            all == moved(old_cells@.at, new_cells@.at),
            out@.wf(),
            forall|k: Seq<char>|
                #[trigger] out@.at.contains_key(k) <==> new_cells@.keys.take(i as int).contains(k)
                    && all.contains_key(k),
            forall|k: Seq<char>| #[trigger] out@.at.contains_key(k) ==> out@.at[k] == all[k],
        decreases n - i,
    {
        let name = new_cells.key_at(i);
        let value = new_cells.value_at(i);
        proof {
            lemma_take_push(new_cells@.keys, i as int);
        }
        let stays: bool = match old_cells.get(name) {
            Some(v) => same(v.as_str(), value.as_str()),
            None => false,
        };
        if !stays {
            out.insert(name.to_owned(), value.clone());
        }
        i = i + 1;
    }
    proof {
        assert(new_cells@.keys.take(i as int) =~= new_cells@.keys);
        assert forall|k: Seq<char>| #[trigger] out@.at.contains_key(k) <==> all.contains_key(k) by {
            assert(new_cells@.keys.contains(k) <==> new_cells@.at.contains_key(k));
        }
        assert(out@.at =~= all);
    }
    out
}

impl Row {
    pub fn copy(&self) -> (r: Row)
        ensures
            r@ == self@,
    {
        Row { key: self.key.clone(), cells: copy_cells(&self.cells) }
    }
}

/// The rows from one place up to another.
pub fn copy_rows(v: &Vec<Row>, from: usize, to: usize) -> (r: Vec<Row>)
    requires
        from <= to <= v.len(),
    ensures
        row_views(r@) == row_views(v@).subrange(from as int, to as int),
{
    let mut out: Vec<Row> = Vec::new();
    let mut i: usize = from;
    while i < to
        invariant
            from <= i <= to <= v.len(),
            out.len() == i - from,
            forall|j: int| 0 <= j < out.len() ==> (#[trigger] out@[j])@ == v@[from + j]@,
        decreases to - i,
    {
        out.push(v[i].copy());
        i = i + 1;
    }
    assert(row_views(out@) =~= row_views(v@).subrange(from as int, to as int));
    out
}

/// A subscription's query: the source it reads, and the part of it that is shown.
pub struct SourceView {
    pub source: String,
    /// How many rows are passed over.
    pub offset: usize,
    /// How many are shown at most; all of them where nothing is stated.
    pub limit: Option<usize>,
}

/// What a subscription asks of the source it reads: which of the rows it shows, in what order, and how
/// many there are behind them.
pub trait Cut {
    /// The source that is read.
    spec fn source_of(&self) -> Seq<char>;

    /// The rows that are shown, of all that the source has.
    spec fn window(&self, rows: Seq<RowV>) -> Seq<RowV>;

    /// How many rows the view has in all.
    spec fn total(&self, rows: Seq<RowV>) -> i64;

    fn source(&self) -> (r: &str)
        ensures
            r@ == self.source_of(),
    ;

    fn cut(&self, rows: &Vec<Row>) -> (r: (Vec<Row>, i64))
        ensures
            row_views(r.0@) == self.window(row_views(rows@)),
            r.1 == self.total(row_views(rows@)),
    ;
}

impl SourceView {
    /// Where the window begins, in so many rows.
    pub open spec fn start(&self, n: int) -> int {
        if self.offset <= n {
            self.offset as int
        } else {
            n
        }
    }

    /// Where it ends.
    pub open spec fn end(&self, n: int) -> int {
        match self.limit {
            Some(l) if self.start(n) + l <= n => self.start(n) + l,
            _ => n,
        }
    }
}

impl Cut for SourceView {
    open spec fn source_of(&self) -> Seq<char> {
        self.source@
    }

    open spec fn window(&self, rows: Seq<RowV>) -> Seq<RowV> {
        rows.subrange(self.start(rows.len() as int), self.end(rows.len() as int))
    }

    open spec fn total(&self, rows: Seq<RowV>) -> i64 {
        crate::translate::clamped(rows.len() as int)
    }

    fn source(&self) -> (r: &str) {
        self.source.as_str()
    }

    fn cut(&self, rows: &Vec<Row>) -> (r: (Vec<Row>, i64)) {
        let n: usize = rows.len();
        let start: usize = if self.offset <= n {
            self.offset
        } else {
            n
        };
        let end: usize = match self.limit {
            Some(l) => if l <= n - start {
                start + l
            } else {
                n
            },
            None => n,
        };
        (copy_rows(rows, start, end), crate::translate::clamp_i64(n as u64))
    }
}

/// Where a row goes: beside one the client holds, or into an empty window.
pub enum Anchor {
    After(String),
    Before(String),
    Alone,
}

/// What an [`Anchor`] states.
#[verifier::ext_equal]
pub enum AnchorV {
    After(Seq<char>),
    Before(Seq<char>),
    Alone,
}

impl View for Anchor {
    type V = AnchorV;

    open spec fn view(&self) -> AnchorV {
        match self {
            Anchor::After(k) => AnchorV::After(k@),
            Anchor::Before(k) => AnchorV::Before(k@),
            Anchor::Alone => AnchorV::Alone,
        }
    }
}

/// One change of a window.
pub enum DiffOp {
    RemoveOp { key: String },
    InsertOp { row: Row, anchor: Anchor },
    MoveOp { key: String, anchor: Anchor },
    /// Only the cells that moved.
    UpdateOp { key: String, cells: Cells },
}

/// What a [`DiffOp`] states.
#[verifier::ext_equal]
pub enum Change {
    Remove { key: Seq<char> },
    Insert { row: RowV, anchor: AnchorV },
    Move { key: Seq<char>, anchor: AnchorV },
    Update { key: Seq<char>, cells: Map<Seq<char>, Seq<char>> },
}

impl View for DiffOp {
    type V = Change;

    open spec fn view(&self) -> Change {
        match self {
            DiffOp::RemoveOp { key } => Change::Remove { key: key@ },
            DiffOp::InsertOp { row, anchor } => Change::Insert { row: row@, anchor: anchor@ },
            DiffOp::MoveOp { key, anchor } => Change::Move { key: key@, anchor: anchor@ },
            DiffOp::UpdateOp { key, cells } => Change::Update { key: key@, cells: cells@.at },
        }
    }
}

pub open spec fn changes(v: Seq<DiffOp>) -> Seq<Change> {
    v.map_values(|o: DiffOp| o@)
}

impl Anchor {
    pub fn copy(&self) -> (r: Anchor)
        ensures
            r@ == self@,
    {
        match self {
            Anchor::After(k) => Anchor::After(k.clone()),
            Anchor::Before(k) => Anchor::Before(k.clone()),
            Anchor::Alone => Anchor::Alone,
        }
    }
}

impl DiffOp {
    pub fn copy(&self) -> (r: DiffOp)
        ensures
            r@ == self@,
    {
        match self {
            DiffOp::RemoveOp { key } => DiffOp::RemoveOp { key: key.clone() },
            DiffOp::InsertOp { row, anchor } => DiffOp::InsertOp {
                row: row.copy(),
                anchor: anchor.copy(),
            },
            DiffOp::MoveOp { key, anchor } => DiffOp::MoveOp {
                key: key.clone(),
                anchor: anchor.copy(),
            },
            DiffOp::UpdateOp { key, cells } => DiffOp::UpdateOp {
                key: key.clone(),
                cells: copy_cells(cells),
            },
        }
    }
}

// ---- what a client makes of a change ---------------------------------------------------------

/// The place of the first row of a key, from a place on, or -1.
pub open spec fn row_place(s: Seq<RowV>, key: Seq<char>, from: int) -> int
    decreases s.len() - from,
{
    if from < 0 || from >= s.len() {
        -1
    } else if s[from].key == key {
        from
    } else {
        row_place(s, key, from + 1)
    }
}

/// The place an anchor names in a window.
pub open spec fn anchored(s: Seq<RowV>, anchor: AnchorV) -> int {
    match anchor {
        AnchorV::After(k) => row_place(s, k, 0) + 1,
        AnchorV::Before(k) => row_place(s, k, 0),
        AnchorV::Alone => 0,
    }
}

/// A window after one change, as a client applies it.
pub open spec fn changed(s: Seq<RowV>, c: Change) -> Seq<RowV> {
    match c {
        Change::Remove { key } => s.remove(row_place(s, key, 0)),
        Change::Insert { row, anchor } => s.insert(anchored(s, anchor), row),
        Change::Move { key, anchor } => {
            let p = row_place(s, key, 0);
            let rest = s.remove(p);
            rest.insert(anchored(rest, anchor), s[p])
        },
        Change::Update { key, cells } => {
            let p = row_place(s, key, 0);
            s.update(p, RowV { key, cells: s[p].cells.union_prefer_right(cells) })
        },
    }
}

/// A window after a list of changes, in order.
pub open spec fn patched(s: Seq<RowV>, cs: Seq<Change>) -> Seq<RowV>
    decreases cs.len(),
{
    if cs.len() == 0 {
        s
    } else {
        changed(patched(s, cs.drop_last()), cs.last())
    }
}

// ---- what has to be said ---------------------------------------------------------------------

/// The new window has a row of this key with cells of the same names, so the row can be kept.
pub open spec fn survives(r: RowV, b: Seq<RowV>) -> bool {
    exists|j: int|
        0 <= j < b.len() && (#[trigger] b[j]).key == r.key && b[j].cells.dom() == r.cells.dom()
}

/// The rows that can be kept, in the order they stand.
pub open spec fn kept(a: Seq<RowV>, b: Seq<RowV>) -> Seq<RowV>
    decreases a.len(),
{
    if a.len() == 0 {
        Seq::empty()
    } else if survives(a.last(), b) {
        kept(a.drop_last(), b).push(a.last())
    } else {
        kept(a.drop_last(), b)
    }
}

/// A removal of each of the others, in the order they stand.
pub open spec fn removals(a: Seq<RowV>, b: Seq<RowV>) -> Seq<Change>
    decreases a.len(),
{
    if a.len() == 0 {
        Seq::empty()
    } else if survives(a.last(), b) {
        removals(a.drop_last(), b)
    } else {
        removals(a.drop_last(), b).push(Change::Remove { key: a.last().key })
    }
}

/// The anchor of the `i`-th row of the new window: the row before it, or at the start the row that
/// stands there.
pub open spec fn anchor_at(cur: Seq<RowV>, b: Seq<RowV>, i: int) -> AnchorV {
    if i > 0 {
        AnchorV::After(b[i - 1].key)
    } else if cur.len() > 0 {
        AnchorV::Before(cur[0].key)
    } else {
        AnchorV::Alone
    }
}

/// What brings the `i`-th row of the new window to its place: nothing when it stands there, a move
/// when it stands further back, and else an insert; and then its moved cells, where it was held.
pub open spec fn step_ops(cur: Seq<RowV>, b: Seq<RowV>, i: int) -> Seq<Change> {
    let row = b[i];
    let p = row_place(cur, row.key, i);
    if p < 0 {
        seq![Change::Insert { row, anchor: anchor_at(cur, b, i) }]
    } else {
        let edit = if cur[p].cells == row.cells {
            Seq::empty()
        } else {
            seq![Change::Update { key: row.key, cells: moved(cur[p].cells, row.cells) }]
        };
        if p == i {
            edit
        } else {
            seq![Change::Move { key: row.key, anchor: anchor_at(cur, b, i) }] + edit
        }
    }
}

/// The window after that.
pub open spec fn step_after(cur: Seq<RowV>, b: Seq<RowV>, i: int) -> Seq<RowV> {
    let p = row_place(cur, b[i].key, i);
    if p < 0 {
        cur.insert(i, b[i])
    } else {
        cur.remove(p).insert(i, b[i])
    }
}

/// What brings every row from the `i`-th on to its place.
pub open spec fn arrangement(cur: Seq<RowV>, b: Seq<RowV>, i: int) -> Seq<Change>
    decreases b.len() - i,
{
    if i < 0 || i >= b.len() {
        Seq::empty()
    } else {
        step_ops(cur, b, i) + arrangement(step_after(cur, b, i), b, i + 1)
    }
}

/// What has to be said to turn one window into another: the rows that go, and then, from the top, what
/// brings each row to its place.
pub open spec fn difference(a: Seq<RowV>, b: Seq<RowV>) -> Seq<Change> {
    removals(a, b) + arrangement(kept(a, b), b, 0)
}

/// No two rows of a window share a key.
pub open spec fn keyed(s: Seq<RowV>) -> bool {
    forall|i: int, j: int| 0 <= i < j && j < s.len() ==> (#[trigger] s[i]).key != (#[trigger] s[j]).key
}

proof fn lemma_row_place(s: Seq<RowV>, key: Seq<char>, from: int)
    requires
        0 <= from <= s.len(),
    ensures
        ({
            let p = row_place(s, key, from);
            &&& p == -1 || from <= p < s.len()
            &&& p >= 0 ==> s[p].key == key
            &&& p >= 0 ==> forall|j: int| from <= j < p ==> (#[trigger] s[j]).key != key
            &&& p == -1 ==> forall|j: int| from <= j < s.len() ==> (#[trigger] s[j]).key != key
        }),
    decreases s.len() - from,
{
    if from < s.len() && s[from].key != key {
        lemma_row_place(s, key, from + 1);
    }
}

/// In a keyed window a row of a key stands at one place only.
proof fn lemma_row_place_at(s: Seq<RowV>, key: Seq<char>, from: int, p: int)
    requires
        keyed(s),
        0 <= from <= p < s.len(),
        s[p].key == key,
    ensures
        row_place(s, key, from) == p,
{
    lemma_row_place(s, key, from);
    let q = row_place(s, key, from);
    if q >= 0 && q < p {
        assert(s[q].key != s[p].key);
    }
    if q > p {
        assert(s[p].key != s[q].key);
    }
}

proof fn lemma_patched_concat(s: Seq<RowV>, x: Seq<Change>, y: Seq<Change>)
    ensures
        patched(s, x + y) == patched(patched(s, x), y),
    decreases y.len(),
{
    if y.len() == 0 {
        assert(x + y =~= x);
    } else {
        lemma_patched_concat(s, x, y.drop_last());
        assert((x + y).drop_last() =~= x + y.drop_last());
        assert((x + y).last() == y.last());
    }
}

/// What is kept comes from the window it is kept of, in order.
proof fn lemma_kept(a: Seq<RowV>, b: Seq<RowV>)
    requires
        keyed(a),
    ensures
        keyed(kept(a, b)),
        forall|i: int|
            0 <= i < kept(a, b).len() ==> survives(#[trigger] kept(a, b)[i], b) && a.contains(
                kept(a, b)[i],
            ),
    decreases a.len(),
{
    if a.len() > 0 {
        let f = a.drop_last();
        assert(keyed(f)) by {
            assert forall|i: int, j: int| 0 <= i < j && j < f.len() implies (#[trigger] f[i]).key
                != (#[trigger] f[j]).key by {
                assert(a[i].key != a[j].key);
            }
        }
        lemma_kept(f, b);
        let k = kept(a, b);
        let kf = kept(f, b);
        assert forall|i: int| 0 <= i < k.len() implies survives(#[trigger] k[i], b) && a.contains(
            k[i],
        ) by {
            if i < kf.len() {
                assert(k[i] == kf[i]);
                let j = choose|j: int| 0 <= j < f.len() && f[j] == kf[i];
                assert(a[j] == k[i]);
            } else {
                assert(a[a.len() - 1] == k[i]);
            }
        }
        assert forall|i: int, j: int| 0 <= i < j && j < k.len() implies (#[trigger] k[i]).key != (
        #[trigger] k[j]).key by {
            if j < kf.len() {
                assert(kf[i].key != kf[j].key);
            } else {
                assert(k[i] == kf[i]);
                let x = choose|x: int| 0 <= x < f.len() && f[x] == kf[i];
                assert(a[x].key != a[a.len() - 1].key);
            }
        }
    }
}

/// Removing the rows that go leaves the rows that are kept.
proof fn lemma_removals(a: Seq<RowV>, b: Seq<RowV>, tail: Seq<RowV>)
    requires
        keyed(a + tail),
    ensures
        patched(a + tail, removals(a, b)) == kept(a, b) + tail,
    decreases a.len(),
{
    if a.len() == 0 {
        assert(a + tail =~= kept(a, b) + tail);
    } else {
        let f = a.drop_last();
        let t = seq![a.last()] + tail;
        assert(a + tail =~= f + t);
        lemma_removals(f, b, t);
        let kf = kept(f, b);
        assert(keyed(f)) by {
            assert forall|i: int, j: int| 0 <= i < j && j < f.len() implies (#[trigger] f[i]).key
                != (#[trigger] f[j]).key by {
                assert((a + tail)[i].key != (a + tail)[j].key);
            }
        }
        lemma_kept(f, b);
        if survives(a.last(), b) {
            assert(kf + t =~= kept(a, b) + tail);
        } else {
            let ops = removals(a, b);
            assert(ops.drop_last() =~= removals(f, b));
            let s = kf + t;
            let key = a.last().key;
            assert(s[kf.len() as int] == a.last());
            lemma_row_place(s, key, 0);
            let p = row_place(s, key, 0);
            assert(p <= kf.len());
            if p < kf.len() {
                assert(s[p] == kf[p]);
                let x = choose|x: int| 0 <= x < f.len() && f[x] == kf[p];
                assert((a + tail)[x].key != (a + tail)[a.len() - 1].key);
            }
            assert(s.remove(p) =~= kept(a, b) + tail);
        }
    }
}

/// What holds of the window while it is being arranged: its first rows are in place, every other row is
/// one of the new window's, with cells of the same names.
spec fn arranging(cur: Seq<RowV>, b: Seq<RowV>, i: int) -> bool {
    &&& 0 <= i <= b.len()
    &&& i <= cur.len()
    &&& keyed(cur)
    &&& forall|j: int| 0 <= j < i ==> #[trigger] cur[j] == b[j]
    &&& forall|j: int| i <= j < cur.len() ==> survives(#[trigger] cur[j], b)
}

#[verifier::rlimit(60)]
proof fn lemma_step(cur: Seq<RowV>, b: Seq<RowV>, i: int)
    requires
        keyed(b),
        arranging(cur, b, i),
        i < b.len(),
    ensures
        patched(cur, step_ops(cur, b, i)) == step_after(cur, b, i),
        arranging(step_after(cur, b, i), b, i + 1),
{
    reveal_with_fuel(patched, 3);
    let row = b[i];
    let p = row_place(cur, row.key, i);
    let next = step_after(cur, b, i);
    lemma_row_place(cur, row.key, i);
    let anchor = anchor_at(cur, b, i);
    if p < 0 {
        // The row is nowhere in the window.
        if i > 0 {
            assert(cur[i - 1] == b[i - 1]);
            lemma_row_place_at(cur, b[i - 1].key, 0, i - 1);
        } else if cur.len() > 0 {
            lemma_row_place_at(cur, cur[0].key, 0, 0);
        }
        assert(step_ops(cur, b, i).drop_last() =~= Seq::empty());
        assert forall|x: int, y: int| 0 <= x < y && y < next.len() implies (#[trigger] next[x]).key
            != (#[trigger] next[y]).key by {
            let xx = if x < i { x } else { x - 1 };
            let yy = if y < i { y } else { y - 1 };
            if x == i {
                assert(next[y] == cur[yy]);
                assert(cur[yy].key != row.key);
            } else if y == i {
                assert(next[x] == cur[xx]);
                assert(cur[xx] == b[xx]);
                assert(b[xx].key != b[i].key);
            } else {
                assert(next[x] == cur[xx] && next[y] == cur[yy]);
                assert(cur[xx].key != cur[yy].key);
            }
        }
    } else {
        let rest = cur.remove(p);
        let lifted = rest.insert(i, cur[p]);
        assert(keyed(rest)) by {
            assert forall|x: int, y: int| 0 <= x < y && y < rest.len() implies (#[trigger] rest[x]).key
                != (#[trigger] rest[y]).key by {
                let xx = if x < p { x } else { x + 1 };
                let yy = if y < p { y } else { y + 1 };
                assert(rest[x] == cur[xx] && rest[y] == cur[yy]);
                assert(cur[xx].key != cur[yy].key);
            }
        }
        assert forall|x: int| 0 <= x < rest.len() implies (#[trigger] rest[x]).key != row.key by {
            let xx = if x < p { x } else { x + 1 };
            assert(rest[x] == cur[xx]);
            if xx < p {
                assert(cur[xx].key != cur[p].key);
            } else {
                assert(cur[p].key != cur[xx].key);
            }
        }
        assert(keyed(lifted)) by {
            assert forall|x: int, y: int| 0 <= x < y && y < lifted.len() implies (
            #[trigger] lifted[x]).key != (#[trigger] lifted[y]).key by {
                let xx = if x < i { x } else { x - 1 };
                let yy = if y < i { y } else { y - 1 };
                if x == i {
                    assert(lifted[y] == rest[yy]);
                } else if y == i {
                    assert(lifted[x] == rest[xx]);
                } else {
                    assert(lifted[x] == rest[xx] && lifted[y] == rest[yy]);
                }
            }
        }
        assert(keyed(next)) by {
            assert forall|x: int, y: int| 0 <= x < y && y < next.len() implies (#[trigger] next[x]).key
                != (#[trigger] next[y]).key by {
                assert(lifted[x].key == next[x].key);
                assert(lifted[y].key == next[y].key);
            }
        }
        // The move, where there is one.
        if p == i {
            assert(lifted =~= cur);
        } else {
            if i > 0 {
                assert(rest[i - 1] == cur[i - 1]);
                assert(cur[i - 1] == b[i - 1]);
                lemma_row_place_at(rest, b[i - 1].key, 0, i - 1);
            } else {
                assert(rest[0] == cur[0]);
                lemma_row_place_at(rest, cur[0].key, 0, 0);
            }
            lemma_row_place_at(cur, row.key, 0, p);
            assert(changed(cur, Change::Move { key: row.key, anchor }) =~= lifted);
        }
        // The edit, where there is one.
        let cells = moved(cur[p].cells, row.cells);
        assert(survives(cur[p], b));
        let j = choose|j: int|
            0 <= j < b.len() && (#[trigger] b[j]).key == cur[p].key && b[j].cells.dom()
                == cur[p].cells.dom();
        if j < i {
            assert(b[j].key != b[i].key);
        }
        if i < j {
            assert(b[i].key != b[j].key);
        }
        lemma_union_moved(cur[p].cells, row.cells);
        assert(lifted[i] == cur[p]);
        lemma_row_place_at(lifted, row.key, 0, i);
        if cur[p].cells == row.cells {
            assert(cur[p] == row);
            assert(lifted =~= next);
        } else {
            assert(changed(lifted, Change::Update { key: row.key, cells }) =~= next);
        }
        let ops = step_ops(cur, b, i);
        if ops.len() == 2 {
            assert(ops.drop_last().drop_last() =~= Seq::empty());
            assert(ops.drop_last().last() == (Change::Move { key: row.key, anchor }));
        } else if ops.len() == 1 {
            assert(ops.drop_last() =~= Seq::empty());
        }
    }
    assert(next[i] == row);
    assert forall|j: int| 0 <= j < i + 1 implies #[trigger] next[j] == b[j] by {
        if j < i {
            assert(cur[j] == b[j]);
        }
    }
    assert forall|j: int| i + 1 <= j < next.len() implies survives(#[trigger] next[j], b) by {
        if p < 0 {
            assert(next[j] == cur[j - 1]);
        } else if j <= p {
            assert(next[j] == cur[j - 1]);
        } else {
            assert(next[j] == cur[j]);
        }
    }
}

/// Cells of the same names, and the moved ones written over them, are the new cells.
proof fn lemma_union_moved(old_cells: Map<Seq<char>, Seq<char>>, new_cells: Map<Seq<char>, Seq<char>>)
    requires
        old_cells.dom() == new_cells.dom(),
    ensures
        old_cells.union_prefer_right(moved(old_cells, new_cells)) == new_cells,
{
    let u = old_cells.union_prefer_right(moved(old_cells, new_cells));
    assert forall|n: Seq<char>| old_cells.contains_key(n) == new_cells.contains_key(n) by {
        assert(old_cells.dom().contains(n) == new_cells.dom().contains(n));
    }
    assert(u =~= new_cells);
}

proof fn lemma_arrangement(cur: Seq<RowV>, b: Seq<RowV>, i: int)
    requires
        keyed(b),
        arranging(cur, b, i),
    ensures
        patched(cur, arrangement(cur, b, i)) == b,
    decreases b.len() - i,
{
    if i < b.len() {
        lemma_step(cur, b, i);
        let next = step_after(cur, b, i);
        lemma_arrangement(next, b, i + 1);
        lemma_patched_concat(cur, step_ops(cur, b, i), arrangement(next, b, i + 1));
    } else {
        if cur.len() > b.len() {
            let extra = cur[b.len() as int];
            assert(survives(extra, b));
            let j = choose|j: int|
                0 <= j < b.len() && (#[trigger] b[j]).key == extra.key && b[j].cells.dom()
                    == extra.cells.dom();
            assert(cur[j] == b[j]);
            assert(cur[j].key != cur[b.len() as int].key);
        }
        assert(cur =~= b);
    }
}

/// A client that holds one window and applies the difference, in order, holds the other.
pub proof fn a_difference_leads_from_one_window_to_the_other(a: Seq<RowV>, b: Seq<RowV>)
    requires
        keyed(a),
        keyed(b),
    ensures
        patched(a, difference(a, b)) == b,
{
    assert(a + Seq::<RowV>::empty() =~= a);
    assert(kept(a, b) + Seq::<RowV>::empty() =~= kept(a, b));
    lemma_removals(a, b, Seq::empty());
    lemma_kept(a, b);
    lemma_arrangement(kept(a, b), b, 0);
    lemma_patched_concat(a, removals(a, b), arrangement(kept(a, b), b, 0));
}

/// A row of the window has this key.
pub open spec fn has_key(s: Seq<RowV>, key: Seq<char>) -> bool {
    exists|i: int| 0 <= i < s.len() && (#[trigger] s[i]).key == key
}

/// A client that holds the window can make the change: what it removes, moves or updates is there, what it
/// inserts is not, and what it is anchored on is another row that is there. Only into an empty window does
/// a row go without one.
pub open spec fn applicable(s: Seq<RowV>, c: Change) -> bool {
    match c {
        Change::Remove { key } => has_key(s, key),
        Change::Insert { row, anchor } => !has_key(s, row.key) && match anchor {
            AnchorV::After(k) => has_key(s, k),
            AnchorV::Before(k) => has_key(s, k),
            AnchorV::Alone => s.len() == 0,
        },
        Change::Move { key, anchor } => has_key(s, key) && match anchor {
            AnchorV::After(k) => k != key && has_key(s, k),
            AnchorV::Before(k) => k != key && has_key(s, k),
            AnchorV::Alone => false,
        },
        Change::Update { key, .. } => has_key(s, key),
    }
}

proof fn lemma_removals_applicable(a: Seq<RowV>, b: Seq<RowV>, tail: Seq<RowV>, k: int)
    requires
        keyed(a + tail),
        0 <= k < removals(a, b).len(),
    ensures
        applicable(patched(a + tail, removals(a, b).take(k)), removals(a, b)[k]),
    decreases a.len(),
{
    let f = a.drop_last();
    let t = seq![a.last()] + tail;
    assert(a + tail =~= f + t);
    let (ops, front) = (removals(a, b), removals(f, b));
    if k < front.len() {
        lemma_removals_applicable(f, b, t, k);
        assert(ops.take(k) =~= front.take(k));
    } else {
        lemma_removals(f, b, t);
        assert(ops.take(k) =~= front);
        let s = kept(f, b) + t;
        assert(s[kept(f, b).len() as int] == a.last());
    }
}

proof fn lemma_step_applicable(cur: Seq<RowV>, b: Seq<RowV>, i: int, k: int)
    requires
        keyed(b),
        arranging(cur, b, i),
        i < b.len(),
        0 <= k < step_ops(cur, b, i).len(),
    ensures
        applicable(patched(cur, step_ops(cur, b, i).take(k)), step_ops(cur, b, i)[k]),
{
    let ops = step_ops(cur, b, i);
    let row = b[i];
    let p = row_place(cur, row.key, i);
    lemma_row_place(cur, row.key, i);
    assert(ops.take(0) =~= Seq::empty());
    if i > 0 {
        assert(cur[i - 1] == b[i - 1]);
        assert(b[i - 1].key != b[i].key);
    }
    if p < 0 {
        assert forall|j: int| 0 <= j < cur.len() implies (#[trigger] cur[j]).key != row.key by {
            if j < i {
                assert(cur[j] == b[j]);
                assert(b[j].key != b[i].key);
            }
        }
        if i == 0 && cur.len() > 0 {
            assert(cur[0].key == cur[0].key);
        }
    } else {
        assert(has_key(cur, row.key)) by {
            assert(cur[p].key == row.key);
        }
        if i == 0 && p > 0 {
            assert(cur[0].key != cur[p].key);
        }
        if k == 1 {
            let c = Change::Move { key: row.key, anchor: anchor_at(cur, b, i) };
            assert(ops.take(1) =~= seq![c]);
            assert(seq![c].drop_last() =~= Seq::empty());
            reveal_with_fuel(patched, 2);
            lemma_row_place_at(cur, row.key, 0, p);
            let rest = cur.remove(p);
            let at = anchored(rest, anchor_at(cur, b, i));
            if i > 0 {
                lemma_row_place(rest, b[i - 1].key, 0);
            } else {
                assert(rest[0] == cur[0]);
                lemma_row_place(rest, cur[0].key, 0);
            }
            assert(0 <= at <= rest.len());
            assert(rest.insert(at, cur[p])[at] == cur[p]);
        }
    }
}

proof fn lemma_arrangement_applicable(cur: Seq<RowV>, b: Seq<RowV>, i: int, k: int)
    requires
        keyed(b),
        arranging(cur, b, i),
        0 <= k < arrangement(cur, b, i).len(),
    ensures
        applicable(patched(cur, arrangement(cur, b, i).take(k)), arrangement(cur, b, i)[k]),
    decreases b.len() - i,
{
    let ops = step_ops(cur, b, i);
    let next = step_after(cur, b, i);
    let all = arrangement(cur, b, i);
    if k < ops.len() {
        lemma_step_applicable(cur, b, i, k);
        assert(all.take(k) =~= ops.take(k));
    } else {
        lemma_step(cur, b, i);
        let rest = arrangement(next, b, i + 1);
        lemma_arrangement_applicable(next, b, i + 1, k - ops.len());
        assert(all.take(k) =~= ops + rest.take(k - ops.len()));
        lemma_patched_concat(cur, ops, rest.take(k - ops.len()));
    }
}

/// A difference can be applied as it is sent: each change is one that a client can make of the window it
/// holds by then.
pub proof fn a_difference_is_applicable_as_sent(a: Seq<RowV>, b: Seq<RowV>, k: int)
    requires
        keyed(a),
        keyed(b),
        0 <= k < difference(a, b).len(),
    ensures
        applicable(patched(a, difference(a, b).take(k)), difference(a, b)[k]),
{
    let gone = removals(a, b);
    let all = difference(a, b);
    assert(a + Seq::<RowV>::empty() =~= a);
    if k < gone.len() {
        lemma_removals_applicable(a, b, Seq::empty(), k);
        assert(all.take(k) =~= gone.take(k));
    } else {
        assert(kept(a, b) + Seq::<RowV>::empty() =~= kept(a, b));
        lemma_removals(a, b, Seq::empty());
        lemma_kept(a, b);
        let rest = arrangement(kept(a, b), b, 0);
        lemma_arrangement_applicable(kept(a, b), b, 0, k - gone.len());
        assert(all.take(k) =~= gone + rest.take(k - gone.len()));
        lemma_patched_concat(a, gone, rest.take(k - gone.len()));
    }
}

/// Nothing is said where nothing moved.
pub proof fn the_same_window_needs_nothing_said(a: Seq<RowV>)
    requires
        keyed(a),
    ensures
        difference(a, a).len() == 0,
{
    lemma_nothing_goes(a, a);
    lemma_nothing_moves(a, 0);
}

proof fn lemma_nothing_goes(a: Seq<RowV>, b: Seq<RowV>)
    requires
        forall|i: int| 0 <= i < a.len() ==> b.contains(#[trigger] a[i]),
    ensures
        removals(a, b).len() == 0,
        kept(a, b) == a,
    decreases a.len(),
{
    if a.len() > 0 {
        let f = a.drop_last();
        assert forall|i: int| 0 <= i < f.len() implies b.contains(#[trigger] f[i]) by {
            assert(f[i] == a[i]);
        }
        lemma_nothing_goes(f, b);
        assert(b.contains(a[a.len() - 1]));
        let j = choose|j: int| 0 <= j < b.len() && b[j] == a.last();
        assert(b[j].key == a.last().key);
        assert(survives(a.last(), b));
        assert(kept(a, b) =~= a);
    }
}

proof fn lemma_nothing_moves(a: Seq<RowV>, i: int)
    requires
        keyed(a),
        0 <= i <= a.len(),
    ensures
        arrangement(a, a, i).len() == 0,
    decreases a.len() - i,
{
    if i < a.len() {
        lemma_row_place_at(a, a[i].key, i, i);
        assert(step_after(a, a, i) =~= a);
        lemma_nothing_moves(a, i + 1);
    }
}

// ---- saying it -------------------------------------------------------------------------------

/// Whether a row can be kept.
fn row_survives(r: &Row, b: &Vec<Row>) -> (res: bool)
    ensures
        res == survives(r@, row_views(b@)),
{
    let ghost bv = row_views(b@);
    let mut j: usize = 0;
    while j < b.len()
        invariant
            j <= b.len(),
            bv == row_views(b@),
            forall|x: int|
                0 <= x < j ==> !((#[trigger] bv[x]).key == r@.key && bv[x].cells.dom()
                    == r@.cells.dom()),
        decreases b.len() - j,
    {
        assert(bv[j as int] == b@[j as int]@);
        if same(b[j].key.as_str(), r.key.as_str()) && same_names(&b[j].cells, &r.cells) {
            return true;
        }
        j = j + 1;
    }
    false
}

fn find_row(s: &Vec<Row>, key: &str, from: usize) -> (r: Option<usize>)
    requires
        from <= s.len(),
    ensures
        match r {
            Some(p) => from <= p < s.len() && p == row_place(row_views(s@), key@, from as int),
            None => row_place(row_views(s@), key@, from as int) == -1,
        },
{
    let ghost sv = row_views(s@);
    let mut i: usize = from;
    while i < s.len()
        invariant
            from <= i <= s.len(),
            sv == row_views(s@),
            row_place(sv, key@, from as int) == row_place(sv, key@, i as int),
        decreases s.len() - i,
    {
        assert(sv[i as int] == s@[i as int]@);
        if same(s[i].key.as_str(), key) {
            return Some(i);
        }
        i = i + 1;
    }
    None
}

fn anchor_of(cur: &Vec<Row>, b: &Vec<Row>, i: usize) -> (r: Anchor)
    requires
        i < b.len(),
    ensures
        r@ == anchor_at(row_views(cur@), row_views(b@), i as int),
{
    if i > 0 {
        Anchor::After(b[i - 1].key.clone())
    } else if cur.len() > 0 {
        Anchor::Before(cur[0].key.clone())
    } else {
        Anchor::Alone
    }
}

proof fn lemma_moved_is_nothing(
    old_cells: Map<Seq<char>, Seq<char>>,
    new_cells: Map<Seq<char>, Seq<char>>,
)
    requires
        old_cells.dom() == new_cells.dom(),
        forall|n: Seq<char>| !(#[trigger] moved(old_cells, new_cells).contains_key(n)),
    ensures
        old_cells == new_cells,
{
    lemma_union_moved(old_cells, new_cells);
    assert(old_cells.union_prefer_right(moved(old_cells, new_cells)) =~= old_cells);
}

fn same_cells(a: &Cells, b: &Cells) -> (r: bool)
    ensures
        r == (a@.at == b@.at),
{
    if !same_names(a, b) {
        return false;
    }
    let m = moved_cells(a, b);
    if m.len() == 0 {
        proof {
            assert forall|n: Seq<char>| !(#[trigger] moved(a@.at, b@.at).contains_key(n)) by {
                assert(m@.keys.contains(n) <==> m@.at.contains_key(n));
            }
            lemma_moved_is_nothing(a@.at, b@.at);
        }
        true
    } else {
        proof {
            let n = m@.keys[0];
            assert(m@.keys.contains(n));
            assert(m@.at.contains_key(n));
        }
        false
    }
}

/// What has to be said to turn the window a client holds into the one it should: updates of the cells
/// that moved, and inserts and moves anchored on rows the client holds, so that the batch is
/// applicable as sent.
pub fn diff(held: &Vec<Row>, rows: &Vec<Row>) -> (r: Vec<DiffOp>)
    ensures
        changes(r@) == difference(row_views(held@), row_views(rows@)),
{
    let ghost a = row_views(held@);
    let ghost b = row_views(rows@);
    let mut ops: Vec<DiffOp> = Vec::new();
    let mut cur: Vec<Row> = Vec::new();
    let mut h: usize = 0;
    assert(changes(ops@) =~= Seq::empty());
    assert(row_views(cur@) =~= Seq::empty());
    while h < held.len()
        invariant
            h <= held.len(),
            a == row_views(held@),
            b == row_views(rows@),
            changes(ops@) == removals(a.take(h as int), b),
            row_views(cur@) == kept(a.take(h as int), b),
        decreases held.len() - h,
    {
        let ghost ops0 = ops@;
        let ghost cur0 = cur@;
        proof {
            assert(a.take(h + 1).drop_last() =~= a.take(h as int));
            assert(a.take(h + 1).last() == held@[h as int]@);
        }
        if row_survives(&held[h], rows) {
            let copy = held[h].copy();
            cur.push(copy);
            assert(row_views(cur@) =~= row_views(cur0).push(copy@));
        } else {
            let op = DiffOp::RemoveOp { key: held[h].key.clone() };
            ops.push(op);
            assert(changes(ops@) =~= changes(ops0).push(op@));
        }
        h = h + 1;
    }
    assert(a.take(h as int) =~= a);
    let mut i: usize = 0;
    let ghost start = row_views(cur@);
    assert(changes(ops@) + arrangement(start, b, 0) =~= difference(a, b));
    while i < rows.len()
        invariant
            i <= rows.len(),
            i <= cur.len(),
            a == row_views(held@),
            b == row_views(rows@),
            changes(ops@) + arrangement(row_views(cur@), b, i as int) == difference(a, b),
        decreases rows.len() - i,
    {
        let ghost ops0 = ops@;
        let ghost cv = row_views(cur@);
        let row = &rows[i];
        assert(b[i as int] == row@);
        let ghost said = step_ops(cv, b, i as int);
        let ghost next = step_after(cv, b, i as int);
        let anchor = anchor_of(&cur, rows, i);
        match find_row(&cur, row.key.as_str(), i) {
            None => {
                let op = DiffOp::InsertOp { row: row.copy(), anchor };
                ops.push(op);
                assert(changes(ops@) =~= changes(ops0) + said);
                let copy = row.copy();
                cur.insert(i, copy);
                assert(row_views(cur@) =~= next);
            },
            Some(p) => {
                assert(cv[p as int] == cur@[p as int]@);
                let ghost cur0 = cur@;
                let was: Row = cur.remove(p);
                if p != i {
                    ops.push(DiffOp::MoveOp { key: row.key.clone(), anchor });
                }
                if !same_cells(&was.cells, &row.cells) {
                    ops.push(
                        DiffOp::UpdateOp {
                            key: row.key.clone(),
                            cells: moved_cells(&was.cells, &row.cells),
                        },
                    );
                }
                assert(changes(ops@) =~= changes(ops0) + said);
                let copy = row.copy();
                assert(row_views(cur@) =~= cv.remove(p as int));
                let ghost cur1 = cur@;
                cur.insert(i, copy);
                assert(row_views(cur@) =~= row_views(cur1).insert(i as int, copy@));
                assert(row_views(cur@) =~= next);
            },
        }
        proof {
            assert(changes(ops0) + (said + arrangement(next, b, i + 1)) =~= changes(ops0) + said
                + arrangement(next, b, i + 1));
        }
        i = i + 1;
    }
    assert(changes(ops@) + arrangement(row_views(cur@), b, i as int) =~= changes(ops@));
    ops
}

/// A frame that opens a window anew, or one that changes it.
#[derive(Debug, Clone, Copy, PartialEq, Eq, Structural)]
pub enum FrameKind {
    Reset,
    Diff,
}

/// What one source has cost to serve.
pub struct SourceMeter {
    pub source: String,
    pub frames: u64,
    pub resets: u64,
    pub diffs: u64,
    pub rows: u64,
    pub bytes: u64,
    /// The widest single payload.
    pub widest: u64,
    pub latency_mean_us: Option<u64>,
    pub latency_max_us: Option<u64>,
}

/// One interval of the recent history.
#[derive(Debug, Clone, Copy, PartialEq, Eq, Structural)]
pub struct Moment {
    pub at_ms: u64,
    pub span_ms: u64,
    pub frames: u64,
    pub bytes: u64,
    pub worst_us: Option<u64>,
}

/// How many moments the recent history holds.
pub const TIMELINE_CAPACITY: i64 = 300;

/// How long one moment of it is, in milliseconds.
pub const TIMELINE_CADENCE_MS: i64 = 1_000;

/// Where the rows of the sources come from.
pub trait Rows {
    /// The change signal of a source: a counter that moves on any change of its rows.
    spec fn revision_of(&self, source: Seq<char>) -> Option<u64>;

    /// The rows of a source.
    spec fn rows_of(&self, source: Seq<char>) -> Option<Seq<RowV>>;

    fn revision(&self, source: &str) -> (r: Option<u64>)
        ensures
            r == self.revision_of(source@),
    ;

    fn rows(&self, source: &str) -> (r: Option<Vec<Row>>)
        ensures
            match r {
                Some(v) => self.rows_of(source@) == Some(row_views(v@)),
                None => self.rows_of(source@) is None,
            },
    ;
}

/// No rows at all: what a world without a fold serves from.
pub struct NoRows;

impl Rows for NoRows {
    open spec fn revision_of(&self, source: Seq<char>) -> Option<u64> {
        None
    }

    open spec fn rows_of(&self, source: Seq<char>) -> Option<Seq<RowV>> {
        None
    }

    fn revision(&self, source: &str) -> (r: Option<u64>) {
        None
    }

    fn rows(&self, source: &str) -> (r: Option<Vec<Row>>) {
        None
    }
}

/// One source as it reads now.
pub struct SourceReading {
    pub source: String,
    pub revision: u64,
    pub rows: Vec<Row>,
}

/// The sources of a fold, read at one boundary.
pub struct RowTable {
    pub sources: Vec<SourceReading>,
}

/// The place of the first reading of a source, or -1.
pub open spec fn reading_place(s: Seq<SourceReading>, source: Seq<char>, from: int) -> int
    decreases s.len() - from,
{
    if from >= s.len() || from < 0 {
        -1
    } else if s[from].source@ == source {
        from
    } else {
        reading_place(s, source, from + 1)
    }
}

impl RowTable {
    pub fn find(&self, source: &str) -> (r: Option<usize>)
        ensures
            match r {
                Some(i) => i < self.sources@.len() && i == reading_place(
                    self.sources@,
                    source@,
                    0,
                ),
                None => reading_place(self.sources@, source@, 0) == -1,
            },
    {
        let mut i: usize = 0;
        while i < self.sources.len()
            invariant
                i <= self.sources.len(),
                reading_place(self.sources@, source@, 0) == reading_place(
                    self.sources@,
                    source@,
                    i as int,
                ),
            decreases self.sources.len() - i,
        {
            if same(self.sources[i].source.as_str(), source) {
                return Some(i);
            }
            i = i + 1;
        }
        None
    }
}

impl Rows for RowTable {
    open spec fn revision_of(&self, source: Seq<char>) -> Option<u64> {
        let i = reading_place(self.sources@, source, 0);
        if i >= 0 {
            Some(self.sources@[i].revision)
        } else {
            None
        }
    }

    open spec fn rows_of(&self, source: Seq<char>) -> Option<Seq<RowV>> {
        let i = reading_place(self.sources@, source, 0);
        if i >= 0 {
            Some(row_views(self.sources@[i].rows@))
        } else {
            None
        }
    }

    fn revision(&self, source: &str) -> (r: Option<u64>) {
        match self.find(source) {
            Some(i) => Some(self.sources[i].revision),
            None => None,
        }
    }

    fn rows(&self, source: &str) -> (r: Option<Vec<Row>>) {
        match self.find(source) {
            Some(i) => {
                let rows = &self.sources[i].rows;
                let out = copy_rows(rows, 0, rows.len());
                assert(row_views(rows@).subrange(0, rows@.len() as int) =~= row_views(rows@));
                Some(out)
            },
            None => None,
        }
    }
}

} // verus!
