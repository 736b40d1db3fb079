//! What a window is and what is said of its changes: laws of the rows a view shows, of what a client makes
//! of each change, and of how little is said.
use crate::views::{
    arrangement, changed, difference, kept, keyed, moved, reading_place, removals, row_place,
    step_after, step_ops, survives, AnchorV, Change, Cut, RowTable, RowV, Rows, SourceReading, SourceView,
};
use vstd::prelude::*;

verus! {

// ---- the window ------------------------------------------------------------------------------

/// A window shows the rows behind its offset in the order of the source, as many as its limit allows and
/// as there are; and the total counts every row of the source, shown or not.
pub proof fn a_window_is_the_rows_behind_its_offset(v: SourceView, rows: Seq<RowV>)
    ensures
        ({
            let w = v.window(rows);
            &&& v.offset >= rows.len() ==> w.len() == 0
            &&& v.offset <= rows.len() ==> v.offset + w.len() <= rows.len()
            &&& forall|i: int| 0 <= i < w.len() ==> #[trigger] w[i] == rows[v.offset + i]
            &&& v.limit is None ==> v.offset + w.len() >= rows.len()
            &&& v.limit matches Some(l) ==> w.len() <= l && (w.len() == l || v.offset + w.len()
                >= rows.len())
            &&& rows.len() <= i64::MAX ==> v.total(rows) == rows.len()
            &&& v.source_of() == v.source@
        }),
{
}

/// Two windows of which the second begins where the first ends are the one window over both.
pub proof fn windows_that_meet_are_one(
    v: SourceView,
    w: SourceView,
    u: SourceView,
    rows: Seq<RowV>,
    k: usize,
    l: usize,
)
    requires
        v.limit == Some(k),
        w.offset == v.offset + k,
        w.limit == Some(l),
        u.offset == v.offset,
        u.limit matches Some(n) && n == k + l,
    ensures
        v.window(rows) + w.window(rows) == u.window(rows),
{
    assert(v.window(rows) + w.window(rows) =~= u.window(rows));
}

// ---- a table of sources ----------------------------------------------------------------------

proof fn lemma_reading(s: Seq<SourceReading>, source: Seq<char>, from: int)
    requires
        0 <= from <= s.len(),
    ensures
        ({
            let p = reading_place(s, source, from);
            &&& p == -1 || from <= p < s.len()
            &&& p >= 0 ==> s[p].source@ == source
            &&& p >= 0 ==> forall|j: int| from <= j < p ==> (#[trigger] s[j]).source@ != source
            &&& p == -1 ==> forall|j: int| from <= j < s.len() ==> (#[trigger] s[j]).source@ != source
        }),
    decreases s.len() - from,
{
    if from < s.len() && s[from].source@ != source {
        lemma_reading(s, source, from + 1);
    }
}

/// A table answers for the sources that were read and for no other, with the revision and the rows of the
/// first reading of each.
pub proof fn a_table_answers_from_the_first_reading(t: RowTable, source: Seq<char>)
    ensures
        t.revision_of(source) is Some <==> exists|i: int|
            0 <= i < t.sources@.len() && (#[trigger] t.sources@[i]).source@ == source,
        t.rows_of(source) is Some <==> t.revision_of(source) is Some,
        forall|i: int|
            0 <= i < t.sources@.len() && (#[trigger] t.sources@[i]).source@ == source && (forall|j: int|
                0 <= j < i ==> (#[trigger] t.sources@[j]).source@ != source) ==> t.revision_of(source)
                == Some(t.sources@[i].revision) && t.rows_of(source) == Some(
                t.sources@[i].rows@.map_values(|r: crate::views::Row| r@),
            ),
{
    let s = t.sources@;
    lemma_reading(s, source, 0);
    let p = reading_place(s, source, 0);
    assert forall|i: int|
        0 <= i < s.len() && (#[trigger] s[i]).source@ == source && (forall|j: int|
            0 <= j < i ==> (#[trigger] s[j]).source@ != source) implies i == p by {
        if p >= 0 && p < i {
            assert(s[p].source@ != source);
        }
    }
    if p >= 0 {
        assert(s[p].source@ == source);
    }
}

// ---- what a client makes of a change ---------------------------------------------------------

proof fn lemma_place(s: Seq<RowV>, key: Seq<char>, from: int, p: int)
    requires
        0 <= from <= p < s.len(),
        s[p].key == key,
        forall|j: int| from <= j < p ==> (#[trigger] s[j]).key != key,
    ensures
        row_place(s, key, from) == p,
    decreases p - from,
{
    if from < p {
        assert(s[from].key != key);
        lemma_place(s, key, from + 1, p);
    }
}

proof fn lemma_no_place(s: Seq<RowV>, key: Seq<char>, from: int)
    requires
        0 <= from <= s.len(),
    ensures
        ({
            let p = row_place(s, key, from);
            &&& p == -1 || from <= p < s.len()
            &&& p >= 0 ==> s[p].key == key
            &&& p == -1 ==> forall|j: int| from <= j < s.len() ==> (#[trigger] s[j]).key != key
        }),
    decreases s.len() - from,
{
    if from < s.len() && s[from].key != key {
        lemma_no_place(s, key, from + 1);
    }
}

/// A removal takes the row of its key, and leaves the others as they stood.
pub proof fn a_removal_takes_its_row(head: Seq<RowV>, row: RowV, tail: Seq<RowV>)
    requires
        keyed(head.push(row) + tail),
    ensures
        changed(head.push(row) + tail, Change::Remove { key: row.key }) == head + tail,
{
    let s = head.push(row) + tail;
    let p = head.len() as int;
    assert(s[p] == row);
    assert forall|j: int| 0 <= j < p implies (#[trigger] s[j]).key != row.key by {
        assert(s[j].key != s[p].key);
    }
    lemma_place(s, row.key, 0, p);
    assert(s.remove(p) =~= head + tail);
}

/// An insert puts its row behind the row it is anchored after, before the one it is anchored before, or
/// into an empty window, and leaves the others as they stood.
pub proof fn an_insert_stands_by_its_anchor(head: Seq<RowV>, at: RowV, tail: Seq<RowV>, row: RowV)
    requires
        keyed(head.push(at) + tail),
    ensures
        changed(head.push(at) + tail, Change::Insert { row, anchor: AnchorV::After(at.key) }) == head.push(
            at,
        ).push(row) + tail,
        changed(head.push(at) + tail, Change::Insert { row, anchor: AnchorV::Before(at.key) })
            == head.push(row).push(at) + tail,
        changed(Seq::empty(), Change::Insert { row, anchor: AnchorV::Alone }) == seq![row],
{
    let s = head.push(at) + tail;
    let p = head.len() as int;
    assert(s[p] == at);
    assert forall|j: int| 0 <= j < p implies (#[trigger] s[j]).key != at.key by {
        assert(s[j].key != s[p].key);
    }
    lemma_place(s, at.key, 0, p);
    assert(s.insert(p + 1, row) =~= head.push(at).push(row) + tail);
    assert(s.insert(p, row) =~= head.push(row).push(at) + tail);
    assert(Seq::<RowV>::empty().insert(0, row) =~= seq![row]);
}

/// A move is the removal of its row and then its insert by the anchor.
pub proof fn a_move_is_a_removal_and_an_insert(
    head: Seq<RowV>,
    row: RowV,
    tail: Seq<RowV>,
    anchor: AnchorV,
)
    requires
        keyed(head.push(row) + tail),
    ensures
        changed(head.push(row) + tail, Change::Move { key: row.key, anchor }) == changed(
            head + tail,
            Change::Insert { row, anchor },
        ),
{
    let s = head.push(row) + tail;
    let p = head.len() as int;
    assert(s[p] == row);
    assert forall|j: int| 0 <= j < p implies (#[trigger] s[j]).key != row.key by {
        assert(s[j].key != s[p].key);
    }
    lemma_place(s, row.key, 0, p);
    assert(s.remove(p) =~= head + tail);
}

/// An update writes the cells it states over those of its row, keeps the row's others and its place, and
/// leaves every other row as it stood.
pub proof fn an_update_writes_its_cells(
    head: Seq<RowV>,
    row: RowV,
    tail: Seq<RowV>,
    cells: Map<Seq<char>, Seq<char>>,
    name: Seq<char>,
)
    requires
        keyed(head.push(row) + tail),
    ensures
        ({
            let after = changed(head.push(row) + tail, Change::Update { key: row.key, cells });
            let p = head.len() as int;
            &&& after == head.push(after[p]) + tail
            &&& after[p].key == row.key
            &&& cells.contains_key(name) ==> after[p].cells.contains_key(name) && after[p].cells[name]
                == cells[name]
            &&& !cells.contains_key(name) ==> (after[p].cells.contains_key(name)
                <==> row.cells.contains_key(name))
            &&& !cells.contains_key(name) && row.cells.contains_key(name) ==> after[p].cells[name]
                == row.cells[name]
        }),
{
    let s = head.push(row) + tail;
    let p = head.len() as int;
    assert(s[p] == row);
    assert forall|j: int| 0 <= j < p implies (#[trigger] s[j]).key != row.key by {
        assert(s[j].key != s[p].key);
    }
    lemma_place(s, row.key, 0, p);
    let after = changed(s, Change::Update { key: row.key, cells });
    assert(after =~= head.push(after[p]) + tail);
}

// ---- how little is said ----------------------------------------------------------------------

/// The window has a row of this key with cells of these names.
pub open spec fn holds_alike(s: Seq<RowV>, r: RowV) -> bool {
    exists|i: int| 0 <= i < s.len() && (#[trigger] s[i]).key == r.key && s[i].cells.dom() == r.cells.dom()
}

/// The window has this row.
pub open spec fn has_row(s: Seq<RowV>, r: RowV) -> bool {
    exists|i: int| 0 <= i < s.len() && #[trigger] s[i] == r
}

/// One change of those that lead from a window to another, as little as it can be: a removal is of a row
/// that the other does not hold alike; an insert is of a row of the other that the window does not hold
/// alike; a move is of a row that both hold alike; and an update is of one that both hold alike, of exactly
/// the cells in which the two differ, of which there are some.
pub open spec fn is_needed(a: Seq<RowV>, b: Seq<RowV>, c: Change) -> bool {
    match c {
        Change::Remove { key } => exists|i: int|
            0 <= i < a.len() && (#[trigger] a[i]).key == key && !holds_alike(b, a[i]),
        Change::Insert { row, .. } => has_row(b, row) && !holds_alike(a, row),
        Change::Move { key, .. } => exists|i: int|
            0 <= i < a.len() && (#[trigger] a[i]).key == key && holds_alike(b, a[i]),
        Change::Update { key, cells } => exists|i: int, j: int|
            #![trigger a[i], b[j]]
            {
                &&& 0 <= i < a.len() && a[i].key == key
                &&& 0 <= j < b.len() && b[j].key == key
                &&& a[i].cells.dom() == b[j].cells.dom()
                &&& a[i].cells != b[j].cells
                &&& forall|n: Seq<char>|
                    (#[trigger] cells.contains_key(n)) <==> b[j].cells.contains_key(n)
                        && a[i].cells[n] != b[j].cells[n]
                &&& forall|n: Seq<char>| (#[trigger] cells.contains_key(n)) ==> cells[n] == b[j].cells[n]
            },
    }
}

proof fn lemma_removals_needed(a: Seq<RowV>, all: Seq<RowV>, b: Seq<RowV>, k: int)
    requires
        a.len() <= all.len(),
        forall|i: int| 0 <= i < a.len() ==> #[trigger] a[i] == all[i],
        0 <= k < removals(a, b).len(),
    ensures
        is_needed(all, b, removals(a, b)[k]),
    decreases a.len(),
{
    if a.len() > 0 {
        let f = a.drop_last();
        let last = a.last();
        assert(last == all[a.len() - 1]);
        if survives(last, b) {
            lemma_removals_needed(f, all, b, k);
        } else if k < removals(f, b).len() {
            lemma_removals_needed(f, all, b, k);
        } else {
            if holds_alike(b, last) {
                let j = choose|j: int|
                    0 <= j < b.len() && (#[trigger] b[j]).key == last.key && b[j].cells.dom()
                        == last.cells.dom();
                assert(survives(last, b));
            }
            assert(all[a.len() - 1].key == last.key && !holds_alike(b, all[a.len() - 1]));
        }
    }
}

/// What holds while a window is being arranged: every row that is not yet in place is one that was held
/// and that both windows hold alike; and each such row that has no place yet is still there.
spec fn waiting(a: Seq<RowV>, cur: Seq<RowV>, b: Seq<RowV>, i: int) -> bool {
    &&& 0 <= i <= cur.len()
    &&& keyed(cur)
    &&& forall|j: int| 0 <= j < i ==> (#[trigger] cur[j]).key == b[j].key
    &&& forall|j: int| i <= j < cur.len() ==> has_row(a, #[trigger] cur[j]) && holds_alike(b, cur[j])
    &&& forall|x: int|
        0 <= x < a.len() && holds_alike(b, #[trigger] a[x]) && (forall|j: int|
            0 <= j < i ==> (#[trigger] b[j]).key != a[x].key) ==> exists|j: int|
            i <= j < cur.len() && #[trigger] cur[j] == a[x]
}

proof fn lemma_kept_waiting(a: Seq<RowV>, b: Seq<RowV>, x: int)
    requires
        keyed(a),
    ensures
        keyed(kept(a, b)),
        forall|j: int|
            0 <= j < kept(a, b).len() ==> has_row(a, #[trigger] kept(a, b)[j]) && holds_alike(
                b,
                kept(a, b)[j],
            ),
        0 <= x < a.len() && holds_alike(b, a[x]) ==> exists|j: int|
            0 <= j < kept(a, b).len() && #[trigger] kept(a, b)[j] == a[x],
    decreases a.len(),
{
    if a.len() > 0 {
        let f = a.drop_last();
        let last = a.last();
        assert(last == a[a.len() - 1]);
        assert forall|i: int, j: int| 0 <= i < j && j < f.len() implies (#[trigger] f[i]).key != (
        #[trigger] f[j]).key by {
            assert(a[i].key != a[j].key);
        }
        lemma_kept_waiting(f, b, x);
        let (k, kf) = (kept(a, b), kept(f, b));
        assert(survives(last, b) <==> holds_alike(b, last));
        assert forall|j: int| 0 <= j < k.len() implies has_row(a, #[trigger] k[j]) && holds_alike(b, k[j]) by {
            if j < kf.len() {
                assert(k[j] == kf[j]);
                let i = choose|i: int| 0 <= i < f.len() && #[trigger] f[i] == kf[j];
                assert(a[i] == k[j]);
            } else {
                assert(a[a.len() - 1] == k[j]);
            }
        }
        assert forall|i: int, j: int| 0 <= i < j && j < k.len() implies (#[trigger] k[i]).key != (
        #[trigger] k[j]).key by {
            if j < kf.len() {
                assert(kf[i].key != kf[j].key);
            } else {
                assert(k[i] == kf[i]);
                let y = choose|y: int| 0 <= y < f.len() && #[trigger] f[y] == kf[i];
                assert(a[y].key != a[a.len() - 1].key);
            }
        }
        if 0 <= x < a.len() && holds_alike(b, a[x]) {
            if x < f.len() {
                assert(f[x] == a[x]);
                let j = choose|j: int| 0 <= j < kf.len() && #[trigger] kf[j] == f[x];
                assert(k[j] == a[x]);
            } else {
                assert(k[k.len() - 1] == a[x]);
            }
        }
    }
}

#[verifier::rlimit(40)]
proof fn lemma_step_needed(a: Seq<RowV>, cur: Seq<RowV>, b: Seq<RowV>, i: int)
    requires
        keyed(a),
        keyed(b),
        0 <= i < b.len(),
        waiting(a, cur, b, i),
    ensures
        waiting(a, step_after(cur, b, i), b, i + 1),
        forall|k: int|
            0 <= k < step_ops(cur, b, i).len() ==> is_needed(a, b, #[trigger] step_ops(cur, b, i)[k]),
{
    let row = b[i];
    let p = row_place(cur, row.key, i);
    lemma_no_place(cur, row.key, i);
    let next = step_after(cur, b, i);
    let ops = step_ops(cur, b, i);
    assert(has_row(b, row)) by {
        assert(b[i] == row);
    }
    assert forall|j: int| 0 <= j < i implies (#[trigger] cur[j]).key != row.key by {
        assert(cur[j].key == b[j].key);
        assert(b[j].key != b[i].key);
    }
    if p < 0 {
        assert(next == cur.insert(i, row));
        assert(!holds_alike(a, row)) by {
            if holds_alike(a, row) {
                let x = choose|x: int|
                    0 <= x < a.len() && (#[trigger] a[x]).key == row.key && a[x].cells.dom()
                        == row.cells.dom();
                assert(b[i].key == a[x].key);
                assert(holds_alike(b, a[x]));
                assert forall|j: int| 0 <= j < i implies (#[trigger] b[j]).key != a[x].key by {
                    assert(b[j].key != b[i].key);
                }
                let j = choose|j: int| i <= j < cur.len() && #[trigger] cur[j] == a[x];
                assert(cur[j].key == row.key);
            }
        }
        assert forall|x: int, y: int| 0 <= x < y && y < next.len() implies (#[trigger] next[x]).key != (
        #[trigger] next[y]).key by {
            let u = if x < i {
                x
            } else {
                x - 1
            };
            let v = if y < i {
                y
            } else {
                y - 1
            };
            if x != i && y != i {
                assert(cur[u].key != cur[v].key);
            } else if x == i {
                assert(cur[v].key != row.key);
            } else {
                assert(cur[u].key != row.key);
            }
        }
        assert forall|j: int| 0 <= j < i + 1 implies (#[trigger] next[j]).key == b[j].key by {
            if j < i {
                assert(next[j] == cur[j]);
            }
        }
        assert forall|j: int| i + 1 <= j < next.len() implies has_row(a, #[trigger] next[j])
            && holds_alike(b, next[j]) by {
            assert(next[j] == cur[j - 1]);
        }
        assert forall|x: int|
            0 <= x < a.len() && holds_alike(b, #[trigger] a[x]) && (forall|j: int|
                0 <= j < i + 1 ==> (#[trigger] b[j]).key != a[x].key) implies exists|j: int|
            i + 1 <= j < next.len() && #[trigger] next[j] == a[x] by {
            let j = choose|j: int| i <= j < cur.len() && #[trigger] cur[j] == a[x];
            assert(next[j + 1] == a[x]);
        }
    } else {
        let was = cur[p];
        let rest = cur.remove(p);
        assert(next == rest.insert(i, row));
        assert(has_row(a, was) && holds_alike(b, was));
        let x0 = choose|x: int| 0 <= x < a.len() && #[trigger] a[x] == was;
        let j0 = choose|j: int|
            0 <= j < b.len() && (#[trigger] b[j]).key == was.key && b[j].cells.dom() == was.cells.dom();
        assert(j0 == i) by {
            if j0 < i {
                assert(b[j0].key != b[i].key);
            }
            if i < j0 {
                assert(b[i].key != b[j0].key);
            }
        }
        assert(a[x0].key == row.key);
        if was.cells != row.cells {
            let cells = moved(was.cells, row.cells);
            assert forall|n: Seq<char>|
                (#[trigger] cells.contains_key(n)) <==> b[i].cells.contains_key(n) && a[x0].cells[n]
                    != b[i].cells[n] by {
                assert(was.cells.dom().contains(n) <==> row.cells.dom().contains(n));
            }
            assert(is_needed(a, b, Change::Update { key: row.key, cells })) by {
                assert(a[x0] == was && b[i] == row);
            }
        }
        assert forall|k: int| 0 <= k < ops.len() implies is_needed(a, b, #[trigger] ops[k]) by {
            if ops[k] is Move {
                assert(a[x0].key == row.key && holds_alike(b, a[x0]));
            }
        }
        assert forall|x: int, y: int| 0 <= x < y && y < next.len() implies (#[trigger] next[x]).key != (
        #[trigger] next[y]).key by {
            let u = if x <= i {
                x
            } else if x <= p {
                x - 1
            } else {
                x
            };
            let v = if y <= i {
                y
            } else if y <= p {
                y - 1
            } else {
                y
            };
            if x == i {
                assert(next[y] == cur[v] && v != p);
                if v < p {
                    assert(cur[v].key != cur[p].key);
                } else {
                    assert(cur[p].key != cur[v].key);
                }
            } else if y == i {
                assert(next[x] == cur[x]);
                assert(cur[x].key != cur[p].key);
            } else {
                assert(next[x] == cur[u] && next[y] == cur[v] && u < v);
                assert(cur[u].key != cur[v].key);
            }
        }
        assert forall|j: int| 0 <= j < i + 1 implies (#[trigger] next[j]).key == b[j].key by {
            if j < i {
                assert(next[j] == cur[j]);
            }
        }
        assert forall|j: int| i + 1 <= j < next.len() implies has_row(a, #[trigger] next[j])
            && holds_alike(b, next[j]) by {
            if j <= p {
                assert(next[j] == cur[j - 1]);
            } else {
                assert(next[j] == cur[j]);
            }
        }
        assert forall|x: int|
            0 <= x < a.len() && holds_alike(b, #[trigger] a[x]) && (forall|j: int|
                0 <= j < i + 1 ==> (#[trigger] b[j]).key != a[x].key) implies exists|j: int|
            i + 1 <= j < next.len() && #[trigger] next[j] == a[x] by {
            let j = choose|j: int| i <= j < cur.len() && #[trigger] cur[j] == a[x];
            assert(b[i].key != a[x].key);
            assert(j != p);
            if j < p {
                assert(next[j + 1] == a[x]);
            } else {
                assert(next[j] == a[x]);
            }
        }
    }
}

proof fn lemma_arrangement_needed(a: Seq<RowV>, cur: Seq<RowV>, b: Seq<RowV>, i: int, k: int)
    requires
        keyed(a),
        keyed(b),
        0 <= i <= b.len(),
        waiting(a, cur, b, i),
        0 <= k < arrangement(cur, b, i).len(),
    ensures
        is_needed(a, b, arrangement(cur, b, i)[k]),
    decreases b.len() - i,
{
    if i < b.len() {
        lemma_step_needed(a, cur, b, i);
        let ops = step_ops(cur, b, i);
        if k < ops.len() {
            assert(arrangement(cur, b, i)[k] == ops[k]);
        } else {
            lemma_arrangement_needed(a, step_after(cur, b, i), b, i + 1, k - ops.len());
        }
    }
}

/// Nothing is said that a client could do without: every change of the difference is needed, as
/// [`is_needed`] has it.
pub proof fn no_more_is_said_than_is_needed(a: Seq<RowV>, b: Seq<RowV>, k: int)
    requires
        keyed(a),
        keyed(b),
        0 <= k < difference(a, b).len(),
    ensures
        is_needed(a, b, difference(a, b)[k]),
{
    let gone = removals(a, b);
    if k < gone.len() {
        lemma_removals_needed(a, a, b, k);
        assert(difference(a, b)[k] == gone[k]);
    } else {
        lemma_kept_waiting(a, b, 0);
        assert forall|x: int| 0 <= x < a.len() && holds_alike(b, #[trigger] a[x]) implies exists|j: int|
            0 <= j < kept(a, b).len() && #[trigger] kept(a, b)[j] == a[x] by {
            lemma_kept_waiting(a, b, x);
        }
        lemma_arrangement_needed(a, kept(a, b), b, 0, k - gone.len());
        assert(difference(a, b)[k] == arrangement(kept(a, b), b, 0)[k - gone.len()]);
    }
}

/// What a client is told of a row that moved is what moved: a cell is stated exactly where the new row has
/// it and the old one has it otherwise or not at all, and it is stated as the new row has it.
pub proof fn what_moved_is_what_differs(
    before: Map<Seq<char>, Seq<char>>,
    after: Map<Seq<char>, Seq<char>>,
    name: Seq<char>,
)
    ensures
        moved(before, after).contains_key(name) ==> after.contains_key(name) && moved(before, after)[name] == after[name],
        after.contains_key(name) && before.contains_key(name) && before[name] == after[name] ==> !moved(
            before,
            after,
        ).contains_key(name),
        after.contains_key(name) && before.contains_key(name) && before[name] != after[name] ==> moved(
            before,
            after,
        ).contains_key(name),
        after.contains_key(name) && !before.contains_key(name) ==> moved(before, after).contains_key(name),
{
}

} // verus!
