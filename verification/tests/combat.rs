//! A live window over a source whose rows edit: what a client is sent, and what it makes of it.

use eqfold::sorted::TextMap;
use eqfold::views::{
    diff, same_names, Anchor, Cut, DiffOp, Row, RowTable, SourceReading, SourceView,
};
use eqfold::wire::{DiffMessage, EngineMessage, ResetMessage};
use eqfold::world::{CombatAnswer, FoldMark, ListenerId, Reply, World};

const A_LOG: &str = "C:/nowhere/eqlog_Primitive_freeport.txt";

fn row(key: &str, cells: &[(&str, &str)]) -> Row {
    let mut c = TextMap::new();
    for (name, value) in cells {
        c.insert(name.to_string(), value.to_string());
    }
    Row {
        key: key.to_string(),
        cells: c,
    }
}

fn meter_row(key: &str, name: &str, kind: &str, tag: &str, n: [&str; 4]) -> Row {
    row(
        key,
        &[
            ("rank", n[0]),
            ("name", name),
            ("kind", kind),
            ("tag", tag),
            ("total", n[1]),
            ("dps", n[2]),
            ("pct", n[3]),
        ],
    )
}

fn table(revision: u64, rows: Vec<Row>) -> RowTable {
    RowTable {
        sources: vec![SourceReading {
            source: "combat.live".to_string(),
            revision,
            rows,
        }],
    }
}

fn a_fight() -> Vec<Row> {
    vec![
        meter_row("you", "You", "you", "null", ["1", "500", "62", "100"]),
        meter_row(
            "member:rowel",
            "Rowel",
            "other",
            "other",
            ["2", "60", "7", "12"],
        ),
    ]
}

fn whole() -> SourceView {
    SourceView {
        source: "combat.live".to_string(),
        offset: 0,
        limit: None,
    }
}

fn mark() -> FoldMark {
    FoldMark {
        checkpoint: 10,
        events: 2,
        pct_bits: 100.0_f64.to_bits(),
        total: 10,
        last_ts: None,
        skew_ms: None,
        live: false,
    }
}

fn next_reset(heard: &mut Vec<EngineMessage>) -> ResetMessage {
    while !heard.is_empty() {
        if let EngineMessage::ResetMessage(reset) = heard.remove(0) {
            return reset;
        }
    }
    panic!("no reset");
}

fn next_diff(heard: &mut Vec<EngineMessage>) -> DiffMessage {
    while !heard.is_empty() {
        if let EngineMessage::DiffMessage(diff) = heard.remove(0) {
            return diff;
        }
    }
    panic!("no diff");
}

fn names(cells: &TextMap<String>) -> Vec<String> {
    (0..cells.len()).map(|i| cells.key_at(i).to_string()).collect()
}

/// A world with one subscription over the meter, which a landing fold has filled.
fn landed() -> (World, ListenerId, u64, ResetMessage, ResetMessage) {
    let mut world = World::new();
    let client = world.join();
    world.open_subscription(client, 7, whole());
    world.serve_views(0, &table(0, Vec::new()));
    let turn = world.attach(A_LOG, None).generation;
    world.report_fold_landed(turn, mark(), &table(1, a_fight()));
    let mut heard = world.collect(client);
    let opening = next_reset(&mut heard);
    let full = next_reset(&mut heard);
    (world, client, turn, opening, full)
}

#[test]
fn a_world_with_no_fold_has_no_meter_and_says_so() {
    let world = World::new();
    let CombatAnswer::Unavailable(_) = world.combat_snapshot::<i64>(Reply::Ended) else {
        panic!("a world with nothing attached has no meter to read");
    };
    let CombatAnswer::Unavailable(_) = world.search_fights::<i64>(Reply::Ended) else {
        panic!("and neither has it a history to search");
    };
}

#[test]
fn a_live_meter_window_updates_the_cells_that_moved_and_no_others() {
    let (mut world, client, turn, opening, landed) = landed();
    assert_eq!(opening.epoch, 1);
    assert!(opening.rows.is_empty());
    assert_eq!(landed.epoch, 2);
    let keys: Vec<&str> = landed.rows.iter().map(|r| r.key.as_str()).collect();
    assert_eq!(keys, ["you", "member:rowel"]);
    assert_eq!(landed.total, 2);
    assert_eq!(
        landed.rows[0].cells.get("total").map(String::as_str),
        Some("500")
    );

    // Another hit into the same fight: the key set does not move.
    world.serve_views(
        turn,
        &table(
            2,
            vec![
                meter_row("you", "You", "you", "null", ["1", "1.0k", "111", "100"]),
                meter_row(
                    "member:rowel",
                    "Rowel",
                    "other",
                    "other",
                    ["2", "60", "6", "6"],
                ),
            ],
        ),
    );
    let diff = next_diff(&mut world.collect(client));
    assert_eq!(diff.epoch, 2, "no generation changed");
    assert_eq!(diff.ops.len(), 2);
    let mut updates = Vec::new();
    for op in &diff.ops {
        let DiffOp::UpdateOp { key, cells } = op else {
            panic!("a hit into an open fight is an edit");
        };
        updates.push((key.as_str(), cells));
    }
    let you = updates.iter().find(|u| u.0 == "you").expect("your row");
    assert_eq!(names(you.1), ["dps", "total"]);
    assert_eq!(you.1.get("total").map(String::as_str), Some("1.0k"));
    let them = updates
        .iter()
        .find(|u| u.0 == "member:rowel")
        .expect("their row");
    assert_eq!(names(them.1), ["dps", "pct"]);
    assert!(them.1.get("total").is_none());
    for update in &updates {
        for unchanged in ["name", "kind", "tag", "rank"] {
            assert!(update.1.get(unchanged).is_none());
        }
    }
    assert!(diff.total.is_none(), "the row count did not move");
}

#[test]
fn a_new_row_enters_the_meter_as_an_insert_anchored_on_one_the_client_holds() {
    let (mut world, client, turn, _, landed) = landed();
    assert_eq!(landed.rows.len(), 2);

    let mut rows = a_fight();
    rows.insert(
        1,
        meter_row(
            "member:dranix",
            "Dranix",
            "other",
            "other",
            ["2", "300", "33", "60"],
        ),
    );
    world.serve_views(turn, &table(2, rows));

    let diff = next_diff(&mut world.collect(client));
    assert_eq!(diff.total, Some(3), "the view grew, so total is present");
    let insert = diff
        .ops
        .iter()
        .find_map(|op| match op {
            DiffOp::InsertOp { row, anchor } => Some((row, anchor)),
            _ => None,
        })
        .expect("a new combatant is an insert");
    assert_eq!(insert.0.key, "member:dranix");
    // 300 sits between your 500 and Rowel's 60, so it lands after you.
    assert!(matches!(insert.1, Anchor::After(k) if k == "you"));
    assert_eq!(insert.0.cells.get("total").map(String::as_str), Some("300"));
}

/// What a client holds once it has taken the changes in order.
fn applied(held: &[Row], ops: &[DiffOp]) -> Vec<Row> {
    let mut out: Vec<Row> = held.iter().map(|r| r.copy()).collect();
    let seat = |out: &Vec<Row>, anchor: &Anchor| match anchor {
        Anchor::After(k) => 1 + out.iter().position(|r| &r.key == k).expect("a held row"),
        Anchor::Before(k) => out.iter().position(|r| &r.key == k).expect("a held row"),
        Anchor::Alone => out.len(),
    };
    for op in ops {
        match op {
            DiffOp::RemoveOp { key } => out.retain(|r| &r.key != key),
            DiffOp::InsertOp { row, anchor } => {
                let at = seat(&out, anchor);
                out.insert(at, row.copy());
            }
            DiffOp::MoveOp { key, anchor } => {
                let from = out.iter().position(|r| &r.key == key).expect("a held row");
                let moved = out.remove(from);
                let at = seat(&out, anchor);
                out.insert(at, moved);
            }
            DiffOp::UpdateOp { key, cells } => {
                let at = out.iter().position(|r| &r.key == key).expect("a held row");
                for i in 0..cells.len() {
                    out[at]
                        .cells
                        .insert(cells.key_at(i).to_string(), cells.value_at(i).clone());
                }
            }
        }
    }
    out
}

fn shown(rows: &[Row]) -> Vec<(String, Vec<(String, String)>)> {
    rows.iter()
        .map(|r| {
            (
                r.key.clone(),
                (0..r.cells.len())
                    .map(|i| (r.cells.key_at(i).to_string(), r.cells.value_at(i).clone()))
                    .collect(),
            )
        })
        .collect()
}

#[test]
fn a_client_that_takes_the_changes_holds_the_window() {
    let windows: Vec<Vec<Row>> = vec![
        vec![],
        vec![row("a", &[("n", "1")])],
        vec![row("a", &[("n", "1")]), row("b", &[("n", "2")])],
        vec![row("b", &[("n", "2")]), row("a", &[("n", "3")])],
        vec![
            row("c", &[]),
            row("b", &[("n", "9")]),
            row("d", &[("n", "1"), ("m", "2")]),
        ],
        vec![
            row("d", &[("n", "1")]),
            row("a", &[]),
            row("c", &[("x", "y")]),
            row("b", &[("n", "9")]),
        ],
    ];
    for from in &windows {
        for to in &windows {
            let ops = diff(from, to);
            assert_eq!(shown(&applied(from, &ops)), shown(to));
        }
    }
}

#[test]
fn the_same_window_needs_no_change() {
    assert!(diff(&a_fight(), &a_fight()).is_empty());
    assert!(diff(&Vec::new(), &Vec::new()).is_empty());
}

#[test]
fn a_window_is_cut_from_the_rows_and_the_total_is_not() {
    let rows = vec![row("a", &[]), row("b", &[]), row("c", &[])];
    let view = |offset: usize, limit: Option<usize>| SourceView {
        source: "x".to_string(),
        offset,
        limit,
    };
    let keys = |v: &SourceView| -> (Vec<String>, i64) {
        let (w, total) = v.cut(&rows);
        (w.iter().map(|r| r.key.clone()).collect(), total)
    };
    assert_eq!(
        keys(&view(0, None)),
        (vec!["a".to_string(), "b".to_string(), "c".to_string()], 3)
    );
    assert_eq!(keys(&view(1, Some(1))), (vec!["b".to_string()], 3));
    assert_eq!(keys(&view(2, Some(9))), (vec!["c".to_string()], 3));
    assert_eq!(keys(&view(9, Some(9))), (vec![], 3));
    assert_eq!(keys(&view(0, Some(0))), (vec![], 3));
    assert_eq!(
        keys(&view(1, Some(usize::MAX))),
        (vec!["b".to_string(), "c".to_string()], 3)
    );
}

#[test]
fn a_reset_that_is_owed_comes_before_any_change() {
    let (mut world, client, turn, _, _) = landed();
    // Opening the same id again owes a reset anew.
    world.open_subscription(client, 7, whole());
    world.serve_views(turn, &table(1, a_fight()));
    let heard = world.collect(client);
    assert_eq!(heard.len(), 1);
    assert!(matches!(&heard[0], EngineMessage::ResetMessage(r) if r.rows.len() == 2));
}

#[test]
fn an_unmoved_signal_keeps_the_window_silent() {
    let (mut world, client, turn, _, _) = landed();
    // The rows would differ, but the source's signal says that nothing changed.
    let (ours, frames) = world.serve_views(turn, &table(1, Vec::new()));
    assert!(ours);
    assert!(frames.is_empty());
    assert!(world.collect(client).is_empty());
}

#[test]
fn a_row_map_keeps_its_keys_in_order() {
    let mut m: TextMap<String> = TextMap::new();
    for k in ["pct", "dps", "total", "dps", "", "Z"] {
        m.insert(k.to_string(), format!("v{k}"));
    }
    assert_eq!(names(&m), ["", "Z", "dps", "pct", "total"]);
    assert_eq!(m.get("dps").map(String::as_str), Some("vdps"));
    assert!(m.get("dpsx").is_none());
    let mut other: TextMap<String> = TextMap::new();
    for k in ["", "Z", "dps", "pct", "total"] {
        other.insert(k.to_string(), "?".to_string());
    }
    assert!(same_names(&m, &other));
    other.insert("more".to_string(), "?".to_string());
    assert!(!same_names(&m, &other));
}
