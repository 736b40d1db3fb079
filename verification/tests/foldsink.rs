//! One attach's fold, as far as the ingest's decisions go.

use eqfold::foldsink::{
    character_on, character_ref, folding_sinks, server_named, server_of, snapshot_opts, source_key,
    source_key_on, Beat, CombatOpts, FoldSink, ModuleSignals, RowsFrom, SinkInputs, SinkReport,
    SourceId, WRITE_EVERY_BEATS,
};

fn inputs(log: &str) -> SinkInputs {
    SinkInputs {
        log: log.to_string(),
        character: Some("Primitive".to_string()),
        state_dir: None,
        combat: true,
    }
}

const A_LOG: &str = "C:/nowhere/eqlog_Primitive_freeport.txt";

#[test]
fn the_source_key_is_the_apps_own_character_id() {
    assert_eq!(
        source_key(&inputs("C:/EQ/Logs/eqlog_Primitive_freeport.txt")),
        "primitive_freeport"
    );
    // A log whose name states no character falls back to the module's constructed default.
    let nameless = SinkInputs {
        character: None,
        ..inputs("C:/EQ/Logs/notalog.txt")
    };
    assert_eq!(source_key(&nameless), "log");
}

#[test]
fn the_server_comes_off_the_products_own_file_name() {
    assert_eq!(
        server_of("C:/EQ/Logs/eqlog_Primitive_freeport.txt").as_deref(),
        Some("freeport")
    );
    assert_eq!(
        server_of("eqlog_Primitive_freeport.patch-week.txt").as_deref(),
        Some("freeport")
    );
    // A character name may hold an underscore; the server may not, so the last one splits.
    assert_eq!(
        server_of("eqlog_Two_Names_freeport.txt").as_deref(),
        Some("freeport")
    );
    assert!(server_of("notalog.txt").is_none());
    assert!(server_of("eqlog_Primitive_.txt").is_none());
}

#[test]
fn a_file_name_is_read_in_either_case() {
    assert_eq!(
        server_named("EQLOG_Primitive_Freeport.TXT").as_deref(),
        Some("Freeport")
    );
    assert_eq!(
        server_of("C:/EQ/Logs/EQLOG_Primitive_Freeport.TXT").as_deref(),
        Some("Freeport")
    );
    assert!(server_named("Logs/eqlog_Primitive_freeport.txt").is_none());
}

#[test]
fn a_path_is_parted_as_the_host_parts_it() {
    let by_backslash = server_of("C:\\EQ\\Logs\\eqlog_Primitive_freeport.txt");
    if std::path::is_separator('\\') {
        assert_eq!(by_backslash.as_deref(), Some("freeport"));
    } else {
        assert!(by_backslash.is_none());
    }
    assert_eq!(
        server_of("Logs/eqlog_A\\B_freeport.txt").is_some(),
        !std::path::is_separator('\\')
    );
    // A part that is a single dot names what stands before it.
    assert_eq!(
        server_of("C:/EQ/Logs/eqlog_Primitive_freeport.txt/.").as_deref(),
        Some("freeport")
    );
    assert_eq!(
        server_of("eqlog_Primitive_freeport.txt/././/").as_deref(),
        Some("freeport")
    );
    assert!(server_of("eqlog_Primitive_freeport.txt/..").is_none());
    assert!(server_of(".").is_none());
    assert!(server_of("/.").is_none());
    assert!(server_of("").is_none());
    assert!(server_of("eqlog_.txt").is_none());
    assert!(server_of("eqlog__freeport.txt").is_none());
    assert!(server_of("eqlog_Primitive_freeport.log").is_none());
}

#[test]
fn the_character_carries_the_server_its_log_states() {
    let who = character_ref(&inputs(A_LOG)).expect("a named character");
    assert_eq!(who.name, "Primitive");
    assert_eq!(who.server, "freeport");
    assert_eq!(who.log_path, A_LOG);
    let unplaced = character_ref(&inputs("notalog.txt")).expect("a named character");
    assert_eq!(unplaced.server, "");
    assert!(character_ref(&SinkInputs {
        character: None,
        ..inputs(A_LOG)
    })
    .is_none());
}

#[test]
fn a_bucket_is_the_character_on_the_server_that_was_read() {
    let name = Some("Primitive".to_string());
    let server = Some("Freeport".to_string());
    assert_eq!(source_key_on(&name, &server), "primitive_freeport");
    assert_eq!(source_key_on(&name, &None), "primitive_");
    assert_eq!(source_key_on(&None, &server), "log");
    let who = character_on(&inputs("anything"), &server).expect("a named character");
    assert_eq!(who.server, "Freeport");
    assert_eq!(who.log_path, "anything");
    assert_eq!(
        character_on(&inputs("anything"), &None)
            .expect("a named character")
            .server,
        ""
    );
}

#[test]
fn every_attach_gets_a_fresh_sink() {
    let factory = folding_sinks();
    let mut first = factory.build(&inputs(A_LOG));
    first.tick();
    let second = factory.build(&inputs(A_LOG));
    assert_eq!(first.combat_now(5, 9), 5);
    assert_eq!(second.combat_now(5, 9), 9);
}

#[test]
fn the_sixtieth_beat_writes_and_fifty_nine_do_not() {
    let mut sink = FoldSink::new(&SinkInputs {
        state_dir: Some("C:/profile".to_string()),
        ..inputs(A_LOG)
    });
    for round in 0..2 {
        for beat in 1..WRITE_EVERY_BEATS {
            assert_eq!(
                sink.tick(),
                Beat {
                    go_live: round == 0 && beat == 1,
                    write: false
                }
            );
        }
        assert_eq!(
            sink.tick(),
            Beat {
                go_live: false,
                write: true
            }
        );
    }
}

#[test]
fn without_a_profile_directory_no_beat_writes() {
    let mut sink = FoldSink::new(&inputs(A_LOG));
    for _ in 0..(WRITE_EVERY_BEATS * 2) {
        assert!(!sink.tick().write);
    }
}

#[test]
fn a_replay_answers_at_the_logs_clock_and_a_live_world_at_the_walls() {
    let mut sink = FoldSink::new(&inputs(A_LOG));
    assert_eq!(sink.combat_snapshot(100, 7), Some(7));
    assert!(sink.tick().go_live);
    assert_eq!(sink.combat_snapshot(100, 7), Some(100));
    let bare = FoldSink::new(&SinkInputs {
        combat: false,
        ..inputs(A_LOG)
    });
    assert_eq!(bare.combat_snapshot(100, 7), None);
    assert!(!bare.session_mark(true));
    assert!(sink.session_mark(true));
    assert!(!sink.session_mark(false));
}

#[test]
fn half_a_published_pair_answers_nothing() {
    let sink = FoldSink::new(&inputs(A_LOG));
    let whole = sink.snapshot(Some(4), Some("state")).expect("a pair");
    assert_eq!((whole.seq, whole.state), (4, "state"));
    assert!(sink.snapshot::<&str>(Some(4), None).is_none());
    assert!(sink.snapshot(None, Some("state")).is_none());
    assert!(sink.confirm_sighting(Some(true)));
    assert!(!sink.confirm_sighting(Some(false)));
    assert!(!sink.confirm_sighting(None));
}

#[test]
fn a_report_counts_what_was_folded() {
    let sink = FoldSink::new(&inputs(A_LOG));
    assert_eq!(
        sink.report(2, 1_787_181_707_000),
        SinkReport {
            events: 2,
            last_ts: Some(1_787_181_707_000)
        }
    );
    assert_eq!(sink.report(u64::MAX, 5).events, i64::MAX);
    assert_eq!(sink.report(0, 0).last_ts, Some(0));
}

fn signals() -> ModuleSignals {
    ModuleSignals {
        loot: Some(3),
        buffs: Some(8),
        buff_timers: Some(11),
        respawn: Some(-4),
        progression: None,
        event_feed: Some(2),
        events: 40,
    }
}

#[test]
fn every_source_has_its_own_signal() {
    let mut sink = FoldSink::new(&inputs(A_LOG));
    let m = signals();
    assert_eq!(sink.source_revision(SourceId::LootLedger, &m), Some(3));
    assert_eq!(sink.source_revision(SourceId::BuffsActive, &m), Some(8));
    assert_eq!(sink.source_revision(SourceId::TimersRows, &m), Some(11));
    assert_eq!(sink.source_revision(SourceId::RespawnWatches, &m), Some(0));
    assert_eq!(sink.source_revision(SourceId::KillsRecent, &m), None);
    assert_eq!(sink.source_revision(SourceId::ProgressionRecent, &m), None);
    assert_eq!(sink.source_revision(SourceId::EventFeedRecent, &m), Some(2));
    assert_eq!(sink.source_revision(SourceId::Other, &m), None);
    // The meter's moves on an event and on a beat.
    assert_eq!(sink.source_revision(SourceId::CombatLive, &m), Some(40));
    sink.tick();
    assert_eq!(sink.source_revision(SourceId::CombatLive, &m), Some(41));
}

#[test]
fn a_source_reads_the_modules_it_names() {
    let sink = FoldSink::new(&inputs(A_LOG));
    let m = signals();
    let from = |s: SourceId| sink.source_rows(s, &m, 50, 6);
    assert_eq!(from(SourceId::LootLedger), Some(RowsFrom::Loot));
    assert_eq!(from(SourceId::BuffsActive), Some(RowsFrom::Buffs));
    assert_eq!(from(SourceId::TimersRows), Some(RowsFrom::BuffsAndTimers));
    assert_eq!(from(SourceId::RespawnWatches), Some(RowsFrom::Respawn));
    assert_eq!(from(SourceId::KillsRecent), None);
    assert_eq!(from(SourceId::ProgressionRecent), None);
    assert_eq!(from(SourceId::EventFeedRecent), Some(RowsFrom::EventFeed));
    assert_eq!(
        from(SourceId::CombatLive),
        Some(RowsFrom::CombatSelected { now: 6 })
    );
    assert_eq!(from(SourceId::Other), None);
    let one = ModuleSignals {
        buff_timers: None,
        ..m
    };
    assert_eq!(sink.source_rows(SourceId::TimersRows, &one, 50, 6), None);
}

#[test]
fn a_creature_without_a_level_has_no_row() {
    let sink = FoldSink::new(&inputs(A_LOG));
    let names = vec!["a rat".to_string(), "a bat".to_string(), "a gnoll".to_string()];
    assert_eq!(
        sink.mob_levels(&names, Some(vec![Some(3), None, Some(9)])),
        vec![("a rat".to_string(), 3), ("a gnoll".to_string(), 9)]
    );
    // Whatever the module knows of a creature is handed on as it is.
    assert_eq!(
        sink.mob_levels(
            &names,
            Some(vec![None, Some(("con".to_string(), 2..5)), None])
        ),
        vec![("a bat".to_string(), ("con".to_string(), 2..5))]
    );
    assert!(sink.mob_levels::<i64>(&names, None).is_empty());
}

#[test]
fn a_search_counts_the_fights_whatever_it_found() {
    let sink = FoldSink::new(&inputs(A_LOG));
    let found = sink
        .search_fights::<&str>(1428, Vec::new())
        .expect("a combat engine");
    assert_eq!(found.corpus, 1428);
    assert!(found.hits.is_empty());
    let bare = FoldSink::new(&SinkInputs {
        combat: false,
        ..inputs(A_LOG)
    });
    assert!(bare.search_fights(3, vec!["a fight"]).is_none());
    assert_eq!(sink.own_loot_drops(Some(vec![7])), vec![7]);
    assert!(sink.own_loot_drops::<i64>(None).is_empty());
}

#[test]
fn the_options_are_carried_over_as_they_are() {
    let o = snapshot_opts(&CombatOpts {
        selected_id: Some("fight-3".to_string()),
        show_unparsed: true,
        max_segments: 4,
        timeline: false,
    });
    assert_eq!(o.selected_id.as_deref(), Some("fight-3"));
    assert!(o.show_unparsed);
    assert_eq!(o.max_segments, 4);
    assert!(!o.timeline);
}
