//! The epoch, the generation and the subscription bookkeeping.

use eqfold::sorted::TextMap;
use eqfold::translate::HealthResultStatus;
use eqfold::views::{NoRows, Row, RowTable, SourceReading, SourceView};
use eqfold::wire::{EngineMessage, EpochReason, Fire};
use eqfold::world::{
    budgets_answer, build_needed, confirmed, fights_answer, fold_answer, loot_answer, meter_answer,
    module_answer, timeline_answer, CombatAnswer, EnginePerf, FoldMark, IngestCost, ListenerId, Miss,
    PerfAnswer, Reply, SnapshotAnswer, World,
};

/// The smallest view there is; `NoRows` below is what makes every window it cuts empty.
fn a_view() -> SourceView {
    SourceView {
        source: "loot.ledger".to_string(),
        offset: 0,
        limit: None,
    }
}

/// Serve every subscription off a world with no fold behind it, which is what makes the reset arrive.
fn land(world: &mut World, generation: u64, mark: FoldMark) -> bool {
    world.report_fold_landed(generation, mark, &NoRows).0
}

/// A path standing in for a log. Nothing here opens it.
const A_LOG: &str = "C:/nowhere/eqlog_Nobody_freeport.txt";

fn mark(events: i64, pct: f64) -> FoldMark {
    FoldMark {
        checkpoint: 4096,
        events,
        pct_bits: pct.to_bits(),
        total: 8192,
        last_ts: Some(1_787_181_707_000),
        skew_ms: None,
        live: false,
    }
}

/// A turn that a fresh world gave out, which has not attached.
const FIRST_TURN: u64 = 0;

#[test]
fn a_scan_frame_carries_no_live_flag_and_a_tail_frame_carries_it() {
    let mut world = World::new();
    let membership = world.join();
    let turn = FIRST_TURN;
    assert!(world.owns(turn));

    assert!(world.report_progress(turn, mark(10, 12.5)));
    assert!(world.report_progress(
        turn,
        FoldMark {
            live: true,
            ..mark(11, 100.0)
        }
    ));

    let mut flags = Vec::new();
    for message in world.collect(membership) {
        let EngineMessage::EpochMessage(epoch) = message else {
            panic!("a progress announcement is an epoch message");
        };
        flags.push(
            epoch
                .progress
                .expect("a progress frame carries progress")
                .live,
        );
    }
    assert_eq!(flags, vec![None, Some(true)]);
}

#[test]
fn a_fresh_world_is_idle_in_the_first_generation() {
    let world = World::new();
    let health = world.health(0, None);
    assert!(matches!(health.status, HealthResultStatus::Idle));
    assert_eq!(health.epoch, 1);
    assert_eq!(world.mark().checkpoint, 0);
    assert!(world.mark().log.is_none());
}

#[test]
fn an_attach_bumps_the_generation_and_tells_everyone() {
    let mut world = World::new();
    let one = world.join();
    let two = world.join();

    let result = world.attach(A_LOG, None);
    assert!(result.accepted);
    assert_eq!(result.epoch, 2);

    for membership in [one, two] {
        let mut heard = world.collect(membership);
        assert_eq!(heard.len(), 1);
        let EngineMessage::EpochMessage(epoch) = heard.remove(0) else {
            panic!("a connection-wide announcement is an epoch message");
        };
        assert_eq!(epoch.epoch, 2);
        assert!(matches!(epoch.reason, EpochReason::Attach));
        assert!(epoch.progress.is_none());
    }
}

#[test]
fn a_connection_that_left_hears_nothing_further() {
    let mut world = World::new();
    let stayed = world.join();
    let left = world.join();
    world.leave(left);

    world.attach(A_LOG, None);

    assert!(!world.collect(stayed).is_empty());
    assert!(world.collect(left).is_empty());
}

#[test]
fn the_generation_is_process_global_and_monotonic() {
    let mut world = World::new();
    assert_eq!(world.attach(A_LOG, None).epoch, 2);
    let mirror = &mut world;
    assert_eq!(mirror.attach(A_LOG, None).epoch, 3);
    assert_eq!(mirror.health(0, None).epoch, 3);
    assert_eq!(world.health(0, None).epoch, 3);
}

#[test]
fn an_attach_strips_the_turn_before_it_of_every_way_to_speak() {
    let mut world = World::new();
    let loser = world.attach(A_LOG, None).generation;
    world.attach(A_LOG, None);

    assert!(!world.owns(loser));
    assert!(!world.report_status(loser, HealthResultStatus::Live));
    assert!(!world.report_progress(loser, mark(10, 50.0)));
    assert!(!land(&mut world, loser, mark(10, 100.0)));
    assert!(!world.report_idle(loser));
}

#[test]
fn a_progress_frame_carries_the_measurement_to_every_connection() {
    let mut world = World::new();
    let listener = world.join();
    let generation = world.attach(A_LOG, None).generation;
    // Drain the attach announcement.
    assert_eq!(world.collect(listener).len(), 1);

    assert!(world.report_progress(generation, mark(1571, 62.4)));
    let mut heard = world.collect(listener);
    assert_eq!(heard.len(), 1);
    let EngineMessage::EpochMessage(frame) = heard.remove(0) else {
        panic!("progress rides an epoch message");
    };
    assert!(matches!(frame.reason, EpochReason::Progress));
    let progress = frame.progress.expect("a progress frame carries progress");
    assert!((f64::from_bits(progress.pct_bits) - 62.4).abs() < f64::EPSILON);
    assert_eq!(progress.events, 1571);
    assert_eq!(progress.offset, 4096);
    assert_eq!(progress.log_size, 8192);
    assert_eq!(world.mark().events, 1571);
    assert_eq!(world.mark().checkpoint, 4096);
}

#[test]
fn a_landing_fold_resets_every_open_subscription_and_goes_live() {
    let mut world = World::new();
    let listener = world.join();
    let bystander = world.join();
    world.open_subscription(listener, 7, a_view());
    world.open_subscription(listener, 9, a_view());
    let generation = world.attach(A_LOG, None).generation;

    assert!(land(&mut world, generation, mark(3, 100.0)));
    assert!(matches!(
        world.health(0, None).status,
        HealthResultStatus::Live
    ));

    let mut reset_ids = Vec::new();
    for message in world.collect(listener) {
        if let EngineMessage::ResetMessage(reset) = message {
            assert_eq!(reset.epoch, 2, "a reset names the generation that landed");
            assert!(reset.rows.is_empty());
            assert_eq!(reset.total, 0);
            reset_ids.push(reset.id);
        }
    }
    assert_eq!(reset_ids, vec![7, 9]);

    // A connection with no subscriptions is told about the epoch and nothing else.
    let mut bystander_resets = 0;
    for message in world.collect(bystander) {
        if matches!(message, EngineMessage::ResetMessage(_)) {
            bystander_resets += 1;
        }
    }
    assert_eq!(bystander_resets, 0);
}

#[test]
fn a_subscription_belongs_to_its_own_connection() {
    let mut world = World::new();
    let mine = world.join();
    let theirs = world.join();
    world.open_subscription(mine, 7, a_view());

    assert!(!world.close_subscription(theirs, 7));
    assert!(world.close_subscription(mine, 7));
    assert!(!world.close_subscription(mine, 7));
}

#[test]
fn an_ingest_that_ends_leaves_the_world_idle_with_its_generation_intact() {
    let mut world = World::new();
    let generation = world.attach(A_LOG, None).generation;
    assert!(world.report_idle(generation));
    assert!(matches!(
        world.health(0, None).status,
        HealthResultStatus::Idle
    ));
    assert_eq!(world.health(0, None).epoch, 2, "a dead fold bumps nothing");
}

#[test]
fn a_turn_that_lost_leaves_everything_as_it_was() {
    let mut world = World::new();
    let listener = world.join();
    let loser = world.attach(A_LOG, None).generation;
    let owner = world.attach("C:/nowhere/eqlog_Other_bertox.txt", None).generation;
    world.report_progress(owner, mark(5, 1.0));
    world.collect(listener);

    assert!(!world.report_progress(loser, mark(99, 99.0)));
    assert!(!world.serve_asks(loser));
    assert!(!world.serve_writes(loser));
    assert!(!world.report_con_card(loser, "{}"));
    assert!(!world.report_modules_changed(loser, &vec![("kills".to_string(), 3)]));
    assert!(!world.serve_views(loser, &NoRows).0);

    assert_eq!(world.mark().events, 5);
    assert_eq!(
        world.mark().log.as_deref(),
        Some("C:/nowhere/eqlog_Other_bertox.txt")
    );
    assert!(!world.takes_asks());
    assert!(!world.takes_writes());
    assert!(world.collect(listener).is_empty());
}

#[test]
fn an_attach_closes_both_doors_and_clears_the_count() {
    let mut world = World::new();
    let first = world.attach(A_LOG, Some("C:/EQ/spells_us.txt".to_string()));
    assert!(world.serve_asks(first.generation));
    assert!(world.serve_writes(first.generation));
    assert!(world.report_progress(first.generation, mark(8, 10.0)));
    assert_eq!(world.client_spells().as_deref(), Some("C:/EQ/spells_us.txt"));

    world.attach(A_LOG, None);
    assert!(!world.takes_asks());
    assert!(!world.takes_writes());
    assert_eq!(world.mark().events, 0);
    assert_eq!(world.mark().last_ts, None);
    assert_eq!(world.client_spells(), None);
    assert!(matches!(
        world.health(0, None).status,
        HealthResultStatus::Starting
    ));
}

#[test]
fn health_says_nothing_of_a_log_before_the_first_attach() {
    let mut world = World::new();
    let before = world.health(u64::MAX, Some(77));
    assert_eq!(before.uptime_ms, i64::MAX);
    assert_eq!(before.events, None);
    assert_eq!(before.log_mtime_ms, None);
    assert!(before.mark.is_none());

    let turn = world.attach(A_LOG, None).generation;
    world.report_progress(
        turn,
        FoldMark {
            checkpoint: u64::MAX,
            ..mark(4, 50.0)
        },
    );
    let after = world.health(1234, Some(77));
    assert_eq!(after.uptime_ms, 1234);
    assert_eq!(after.events, Some(4));
    assert_eq!(after.last_event_ts, Some(1_787_181_707_000));
    assert_eq!(after.log_mtime_ms, Some(77));
    let mark = after.mark.expect("an attached log has a mark");
    assert_eq!(mark.log, A_LOG);
    assert_eq!(mark.offset, i64::MAX);
}

#[test]
fn the_three_ways_of_not_being_answered_read_differently() {
    let mut world = World::new();
    let why = |a: SnapshotAnswer<i64>| match a {
        SnapshotAnswer::Unavailable(s) => s,
        _ => panic!("nobody answered"),
    };
    assert_eq!(
        why(world.module_snapshot(Reply::Answered(Some(1)))),
        "no log is attached, so there is no fold to ask"
    );
    let turn = world.attach(A_LOG, None).generation;
    world.serve_asks(turn);
    assert_eq!(
        why(world.module_snapshot(Reply::Ended)),
        "the fold that was answering has ended"
    );
    assert_eq!(
        why(world.module_snapshot(Reply::TimedOut)),
        "the fold did not answer within 5000 ms"
    );
    assert!(matches!(
        world.module_snapshot(Reply::Answered(Some(5))),
        SnapshotAnswer::Snapshot(5)
    ));
    assert!(matches!(
        world.module_snapshot::<i64>(Reply::Answered(None)),
        SnapshotAnswer::NotFound
    ));
    assert!(matches!(
        world.combat_snapshot(Reply::Answered(Some(5))),
        CombatAnswer::Answer(5)
    ));
    let CombatAnswer::Unavailable(none) = world.combat_snapshot::<i64>(Reply::Answered(None)) else {
        panic!("a fold without an engine has no meter");
    };
    assert_eq!(
        none,
        "this fold carries no combat engine, so there is no meter to read"
    );
    let CombatAnswer::Unavailable(none) = world.search_fights::<i64>(Reply::Answered(None)) else {
        panic!("a fold without an engine has no history");
    };
    assert_eq!(
        none,
        "this fold carries no combat engine, so there is no fight history to search"
    );
    assert_eq!(
        world.resist_levels(Reply::Answered(vec![3])),
        Ok(vec![3])
    );
    assert_eq!(
        world.resist_levels::<i64>(Reply::Ended),
        Err("the fold that was answering has ended".to_string())
    );
}

#[test]
fn a_write_reaches_the_fold_only_where_there_is_one() {
    let mut world = World::new();
    let (marked, status) = world.session_mark(Reply::Answered(true));
    assert!(!marked);
    assert_eq!(status, HealthResultStatus::Idle);
    assert!(!world.confirm_sighting(Reply::Answered(true)));
    let turn = world.attach(A_LOG, None).generation;
    world.serve_asks(turn);
    world.serve_writes(turn);
    // A scan is not split.
    assert_eq!(
        world.session_mark(Reply::Answered(true)),
        (false, HealthResultStatus::Starting)
    );
    world.report_status(turn, HealthResultStatus::Live);
    assert_eq!(
        world.session_mark(Reply::Answered(true)),
        (true, HealthResultStatus::Live)
    );
    assert!(!world.session_mark(Reply::Answered(false)).0);
    assert!(!world.session_mark(Reply::TimedOut).0);
    assert!(world.confirm_sighting(Reply::Answered(true)));
    assert!(!world.confirm_sighting(Reply::Ended));
    let spellings = vec!["Cloak of Flames".to_string()];
    assert_eq!(
        world.own_loot(&spellings, Reply::Answered(vec![1, 2])),
        vec![1, 2]
    );
    assert!(world
        .own_loot(&spellings, Reply::<Vec<i64>>::Ended)
        .is_empty());
}

#[test]
fn what_the_app_said_is_held_across_an_attach() {
    let mut world = World::new();
    assert!(!world.define("alerts", "[1]"));
    world.define("trackers", "[2]");
    world.define("alerts", "[3]");
    let turn = world.attach(A_LOG, None).generation;
    assert_eq!(
        world.held_defines(),
        vec![
            ("alerts".to_string(), "[3]".to_string()),
            ("trackers".to_string(), "[2]".to_string()),
        ]
    );
    world.serve_writes(turn);
    assert!(world.define("alerts", "[4]"));
}

#[test]
fn the_log_directory_is_named_once_it_is_set() {
    let mut world = World::new();
    assert!(world.list_logs().is_err());
    world.set_log_dir("C:/EQ/Logs");
    assert_eq!(world.list_logs(), Ok("C:/EQ/Logs".to_string()));
}

#[test]
fn an_announcement_reaches_everyone_who_has_not_hung_up() {
    let mut world = World::new();
    let here = world.join();
    let gone = world.join();
    world.hang_up(gone);
    let turn = world.attach(A_LOG, None).generation;
    let fire = Fire {
        at: 5,
        rule: "tell".to_string(),
        sound: None,
        message: Some("hello".to_string()),
        captures: None,
        spell: None,
        due_at: None,
    };
    assert!(world.report_fire(turn, &fire));
    assert!(world.report_con_card(turn, "{\"name\":\"a rat\"}"));
    assert!(world.report_modules_changed(
        turn,
        &vec![("kills".to_string(), 3), ("loot".to_string(), 4)]
    ));
    world.announce_knowledge_misses(
        &vec![
            Miss {
                domain: "item".to_string(),
                name: "Odd Thing".to_string(),
            },
            Miss {
                domain: "planet".to_string(),
                name: "Saturn".to_string(),
            },
        ],
        &vec!["item".to_string(), "spell".to_string()],
    );
    let heard = world.collect(here);
    assert_eq!(heard.len(), 6);
    assert!(matches!(&heard[0], EngineMessage::EpochMessage(_)));
    assert!(matches!(&heard[1], EngineMessage::FireMessage(f)
        if f.at == 5 && f.rule == "tell" && f.message.as_deref() == Some("hello")));
    assert!(matches!(&heard[2], EngineMessage::ConCardMessage(c)
        if c == "{\"name\":\"a rat\"}"));
    assert!(matches!(&heard[3], EngineMessage::ModuleChangedMessage { module, seq }
        if module == "kills" && *seq == 3));
    assert!(matches!(&heard[4], EngineMessage::ModuleChangedMessage { module, seq }
        if module == "loot" && *seq == 4));
    // A domain that the wire has no word for is passed over.
    assert!(matches!(&heard[5], EngineMessage::KnowledgeMissMessage { domain, name }
        if domain == "item" && name == "Odd Thing"));
    assert!(world.collect(gone).is_empty());
    assert!(world.collect(here).is_empty());
}

#[test]
fn names_of_connections_are_never_handed_out_twice() {
    let mut world = World::new();
    let one = world.join();
    world.leave(one);
    let two = world.join();
    assert_ne!(one, two);
    world.open_subscription(one, 1, a_view());
    assert!(!world.close_subscription(one, 1));
    assert_eq!(two, ListenerId { n: 1 });
}

#[test]
fn generations_are_heard_in_their_turn() {
    let mut world = World::new();
    let listener = world.join();
    world.open_subscription(listener, 7, a_view());
    world.serve_views(FIRST_TURN, &NoRows);
    let first = world.attach(A_LOG, None).generation;
    world.report_progress(first, mark(1, 1.0));
    land(&mut world, first, mark(2, 100.0));
    let second = world.attach(A_LOG, None).generation;
    world.report_progress(first, mark(9, 9.0));
    world.report_progress(second, mark(1, 1.0));
    land(&mut world, second, mark(2, 100.0));
    let mut named = Vec::new();
    for message in world.collect(listener) {
        match message {
            EngineMessage::EpochMessage(m) => named.push(m.epoch),
            EngineMessage::ResetMessage(m) => named.push(m.epoch),
            EngineMessage::DiffMessage(m) => named.push(m.epoch),
            _ => {}
        }
    }
    assert_eq!(named, vec![1, 2, 2, 2, 3, 3, 3]);
}

fn one_loot(revision: u64) -> RowTable {
    RowTable {
        sources: vec![SourceReading {
            source: "loot.ledger".to_string(),
            revision,
            rows: vec![Row {
                key: "a loot".to_string(),
                cells: TextMap::new(),
            }],
        }],
    }
}

#[test]
fn what_was_built_is_pushed_by_whoever_still_owns_the_world() {
    let mut world = World::new();
    let listener = world.join();
    let turn = world.attach(A_LOG, None).generation;
    world.open_subscription(listener, 7, a_view());
    world.collect(listener);

    let needs = world.needs();
    assert_eq!(needs.len(), 1);
    assert_eq!(needs[0].source, "loot.ledger");
    assert!(needs[0].owed);
    assert_eq!(needs[0].held, vec![None]);
    let prepared = build_needed(&needs, &one_loot(4), false);
    assert_eq!(prepared.len(), 1);
    assert_eq!(prepared[0].revision, 4);

    let (ours, frames) = world.serve_prepared(turn, &prepared, false);
    assert!(ours);
    assert_eq!(frames.len(), 1);
    let heard = world.collect(listener);
    assert_eq!(heard.len(), 1);
    let EngineMessage::ResetMessage(reset) = &heard[0] else {
        panic!("a subscription that owes one is reset");
    };
    assert_eq!(reset.rows[0].key, "a loot");

    // The same revision needs nothing built, but for a landing.
    let needs = world.needs();
    assert!(!needs[0].owed);
    assert_eq!(needs[0].held, vec![Some(4)]);
    assert!(!needs[0].is_needed(4, false));
    assert!(needs[0].is_needed(4, true));
    assert!(needs[0].is_needed(5, false));
    assert!(build_needed(&needs, &one_loot(4), false).is_empty());
    assert_eq!(build_needed(&needs, &one_loot(4), true).len(), 1);
    assert_eq!(build_needed(&needs, &one_loot(5), false).len(), 1);
}

#[test]
fn a_turn_that_loses_the_world_while_it_builds_pushes_nothing() {
    let mut world = World::new();
    let listener = world.join();
    let turn = world.attach(A_LOG, None).generation;
    world.open_subscription(listener, 7, a_view());
    let prepared = build_needed(&world.needs(), &one_loot(4), true);
    assert_eq!(prepared.len(), 1);

    let winner = world.attach(A_LOG, None).generation;
    world.collect(listener);
    let (ours, frames) = world.serve_prepared(turn, &prepared, false);
    assert!(!ours);
    assert!(frames.is_empty());
    let (ours, frames) = world.land_prepared(turn, mark(9, 100.0), &prepared);
    assert!(!ours);
    assert!(frames.is_empty());
    assert!(world.collect(listener).is_empty());
    assert_eq!(world.mark().events, 0);
    assert_eq!(
        world.health(0, None).status,
        HealthResultStatus::Starting,
        "a loser does not go live"
    );

    let (ours, frames) = world.land_prepared(winner, mark(9, 100.0), &prepared);
    assert!(ours);
    assert_eq!(frames.len(), 1);
    assert_eq!(world.health(0, None).status, HealthResultStatus::Live);
}

fn a_cost(scan_ms: u64) -> Reply<EnginePerf> {
    Reply::Answered(EnginePerf {
        ingest: IngestCost {
            spell_db_ms: None,
            scan_ms: Some(scan_ms),
            scan_bytes: None,
        },
        serve: Vec::new(),
        timeline: Vec::new(),
    })
}

#[test]
fn an_answer_goes_by_the_door_that_was_found_when_it_was_asked() {
    // The fold was found, and answered; that the world has none any more changes nothing.
    assert!(matches!(
        module_answer(true, Reply::Answered(Some(5))),
        SnapshotAnswer::Snapshot(5)
    ));
    assert!(matches!(
        module_answer::<i64>(true, Reply::Answered(None)),
        SnapshotAnswer::NotFound
    ));
    // No fold was found, whatever has been attached since.
    assert_eq!(
        fold_answer(false, Reply::Answered(5)),
        Err("no log is attached, so there is no fold to ask".to_string())
    );
    assert_eq!(fold_answer(true, Reply::Answered(5)), Ok(5));
    assert!(matches!(
        meter_answer(true, Reply::Answered(Some(5))),
        CombatAnswer::Answer(5)
    ));
    assert!(matches!(
        fights_answer(true, Reply::Answered(Some(5))),
        CombatAnswer::Answer(5)
    ));
    assert!(matches!(
        fights_answer::<i64>(true, Reply::TimedOut),
        CombatAnswer::Unavailable(_)
    ));
    let names = vec!["a rat".to_string()];
    assert_eq!(loot_answer(true, &names, Reply::Answered(vec![1])), vec![1]);
    assert!(loot_answer(false, &names, Reply::Answered(vec![1])).is_empty());
    assert!(loot_answer(true, &Vec::new(), Reply::Answered(vec![1])).is_empty());
    assert!(confirmed(true, Reply::Answered(true)));
    assert!(!confirmed(true, Reply::Answered(false)));
    assert!(!confirmed(true, Reply::TimedOut));
    assert!(!confirmed(false, Reply::Answered(true)));
    let PerfAnswer::Perf(budgets) = budgets_answer(3, true, a_cost(40)) else {
        panic!("the fold answered");
    };
    assert_eq!(budgets.epoch, 3);
    assert_eq!(budgets.readings.scan_ms, Some(40));
    let PerfAnswer::Perf(idle) = timeline_answer(3, false, Reply::Ended) else {
        panic!("an idle engine still answers");
    };
    assert_eq!(idle.epoch, 3);
    assert!(idle.timeline.is_empty());
}

#[test]
fn a_standing_is_of_the_instant_it_was_read() {
    let mut world = World::new();
    let listener = world.join();
    let turn = world.attach(A_LOG, None).generation;
    world.serve_asks(turn);
    world.open_subscription(listener, 7, a_view());
    let standing = world.standing();
    let next = world.attach("elsewhere", None).generation;
    world.report_idle(next);

    assert_eq!(standing.log().as_deref(), Some(A_LOG));
    let health = standing.health(8, Some(77));
    assert_eq!(health.status, HealthResultStatus::Starting);
    assert_eq!(health.epoch, 2);
    assert_eq!(health.log_mtime_ms, Some(77));
    let PerfAnswer::Perf(perf) = standing.perf_snapshot(9, a_cost(40)) else {
        panic!("the fold that was found answered");
    };
    assert_eq!(perf.epoch, 2);
    assert_eq!(perf.uptime_ms, 9);
    assert_eq!(perf.ingest.scan_ms, Some(40));
    assert_eq!(perf.serve.len(), 1);
    assert_eq!(perf.serve[0].counts.subscribers, 1);
    assert!(matches!(
        standing.perf_snapshot(9, Reply::TimedOut),
        PerfAnswer::Unavailable(_)
    ));
}

fn loots(revision: u64, keys: &[&str]) -> RowTable {
    RowTable {
        sources: vec![SourceReading {
            source: "loot.ledger".to_string(),
            revision,
            rows: keys
                .iter()
                .map(|key| Row {
                    key: key.to_string(),
                    cells: TextMap::new(),
                })
                .collect(),
        }],
    }
}

#[test]
fn a_total_that_moves_on_its_own_is_said() {
    let mut world = World::new();
    let listener = world.join();
    let turn = world.attach(A_LOG, None).generation;
    world.open_subscription(
        listener,
        7,
        SourceView {
            limit: Some(1),
            ..a_view()
        },
    );
    world.collect(listener);
    world.serve_views(turn, &loots(1, &["a", "b"]));
    let heard = world.collect(listener);
    let EngineMessage::ResetMessage(reset) = &heard[0] else {
        panic!("a fresh subscription is reset");
    };
    assert_eq!(reset.rows.len(), 1);
    assert_eq!(reset.rows[0].key, "a");
    assert_eq!(reset.total, 2);

    // The window stands, and what is behind it does not.
    world.serve_views(turn, &loots(2, &["a", "b", "c"]));
    let heard = world.collect(listener);
    let EngineMessage::DiffMessage(diff) = &heard[0] else {
        panic!("a total that moved is something to say");
    };
    assert!(diff.ops.is_empty());
    assert_eq!(diff.total, Some(3));

    // A row that the window does not reach is nothing to say while the total stands.
    let (ours, frames) = world.serve_views(turn, &loots(3, &["a", "c", "d"]));
    assert!(ours);
    assert!(frames.is_empty());
    assert_eq!(world.needs()[0].held, vec![Some(3)]);
}
