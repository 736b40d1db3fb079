//! What the engine says of itself: its numbers, its history, and the clock it is on.

use eqfold::clock::{
    clock_source, resolve_and_report, skew_of, zone_hint, ClockHint, PerfSnapshotResultClockSource,
    Skew, SKEW_ALARM_MS,
};
use eqfold::sorted::TextMap;
use eqfold::timestamp::{platform_timezone, Clock, IanaZone, Zone, ZoneHint, ZoneSource};
use eqfold::translate::{
    clamp_i64, clamp_opt, moment_row, perf_status, serve_rows, HealthResultStatus, PerfMoment,
    PerfSnapshotResultStatus, ServeCounts,
};
use eqfold::views::{
    FrameKind, Moment, NoRows, Row, RowTable, SourceMeter, SourceReading, SourceView,
};
use eqfold::world::{
    EnginePerf, FoldMark, IngestCost, PerfAnswer, PerfBudgetsResult, PerfSnapshotResult,
    PerfTimelineResult, Readings, Reply, World,
};

const A_LOG: &str = "C:/nowhere/eqlog_Primitive_freeport.txt";

/// The source the serve table is proved over.
const SOURCE: &str = "loot.ledger";

fn ask_perf(world: &World, uptime_ms: u64, reply: Reply<EnginePerf>) -> PerfSnapshotResult {
    match world.perf_snapshot(uptime_ms, reply) {
        PerfAnswer::Perf(p) => p,
        PerfAnswer::Unavailable(why) => panic!("perf.snapshot was unavailable: {why}"),
    }
}

fn ask_budgets(world: &World, reply: Reply<EnginePerf>) -> PerfBudgetsResult {
    match world.perf_budgets(reply) {
        PerfAnswer::Perf(p) => p,
        PerfAnswer::Unavailable(why) => panic!("perf.budgets was refused: {why}"),
    }
}

fn ask_timeline(world: &World, reply: Reply<EnginePerf>) -> PerfTimelineResult {
    match world.perf_timeline(reply) {
        PerfAnswer::Perf(p) => p,
        PerfAnswer::Unavailable(why) => panic!("perf.timeline was refused: {why}"),
    }
}

fn meter(source: &str, frames: u64) -> SourceMeter {
    SourceMeter {
        source: source.to_string(),
        frames,
        resets: 1,
        diffs: frames - 1,
        rows: 4,
        bytes: 900,
        widest: 600,
        latency_mean_us: None,
        latency_max_us: None,
    }
}

fn measured(serve: Vec<SourceMeter>) -> Reply<EnginePerf> {
    Reply::Answered(EnginePerf {
        ingest: IngestCost {
            spell_db_ms: Some(12),
            scan_ms: Some(340),
            scan_bytes: Some(u64::MAX),
        },
        serve,
        timeline: vec![Moment {
            at_ms: 2000,
            span_ms: 1001,
            frames: 3,
            bytes: 77,
            worst_us: Some(u64::MAX),
        }],
    })
}

#[test]
fn an_engine_with_nothing_attached_answers_rather_than_refusing() {
    let world = World::new();
    let perf = ask_perf(&world, 5, Reply::Ended);

    assert_eq!(perf.status, PerfSnapshotResultStatus::Idle);
    assert_eq!(perf.epoch, 1, "a launch is generation 1");
    assert!(perf.serve.is_empty());
    // Not zeros: nothing has been measured, so nothing is claimed.
    assert_eq!(perf.ingest.spell_db_ms, None);
    assert_eq!(perf.ingest.scan_ms, None);
    assert_eq!(perf.ingest.scan_bytes, None);
    assert!(perf.mark.is_none(), "no attach, so no coordinate");
    assert_eq!(perf.events, None);
}

#[test]
fn an_idle_engine_states_the_timelines_horizon_over_an_empty_ring() {
    let world = World::new();
    let answer = ask_timeline(&world, Reply::TimedOut);

    assert_eq!(answer.epoch, 1);
    assert!(answer.timeline.is_empty());
    assert!(answer.capacity > 0);
    assert!(answer.cadence_ms > 0);
}

#[test]
fn the_three_perf_ops_answer_on_one_connection_and_none_disturbs_the_others() {
    let world = World::new();

    let first = ask_perf(&world, 10, Reply::Ended);
    let budgets = ask_budgets(&world, Reply::Ended);
    let timeline = ask_timeline(&world, Reply::Ended);
    let second = ask_perf(&world, 11, Reply::Ended);

    assert_eq!(first.epoch, budgets.epoch, "one generation, three answers");
    assert_eq!(first.epoch, timeline.epoch);
    assert_eq!(second.status, first.status);
    assert!(second.uptime_ms >= first.uptime_ms);
    assert_eq!(second.serve.len(), first.serve.len());
}

#[test]
fn an_idle_engine_has_no_reading_to_judge() {
    let world = World::new();
    assert_eq!(
        ask_budgets(&world, Reply::Ended).readings,
        Readings {
            scan_ms: None,
            scan_bytes: None,
            worst_serve_us: None
        }
    );
}

#[test]
fn a_fold_that_does_not_answer_is_a_refusal() {
    let mut world = World::new();
    let turn = world.attach(A_LOG, None).generation;
    world.serve_asks(turn);
    let PerfAnswer::Unavailable(why) = world.perf_snapshot(1, Reply::TimedOut) else {
        panic!("a fold with a door did not answer through it");
    };
    assert_eq!(why, "the fold did not answer within 5000 ms");
    assert!(matches!(
        world.perf_budgets(Reply::Ended),
        PerfAnswer::Unavailable(_)
    ));
    assert!(matches!(
        world.perf_timeline(Reply::Ended),
        PerfAnswer::Unavailable(_)
    ));
}

#[test]
fn what_the_scan_cost_is_stated_beside_where_it_reached() {
    let mut world = World::new();
    let turn = world.attach(A_LOG, None).generation;
    world.serve_asks(turn);
    world.report_fold_landed(
        turn,
        FoldMark {
            checkpoint: 450_000,
            events: 9000,
            pct_bits: 100.0_f64.to_bits(),
            total: 450_000,
            last_ts: None,
            skew_ms: None,
            live: false,
        },
        &NoRows,
    );
    let perf = ask_perf(&world, 700, measured(Vec::new()));
    assert_eq!(perf.status, PerfSnapshotResultStatus::Live);
    assert_eq!(perf.uptime_ms, 700);
    assert_eq!(perf.events, Some(9000));
    assert_eq!(perf.mark.as_ref().expect("a mark").offset, 450_000);
    assert_eq!(perf.ingest.spell_db_ms, Some(12));
    assert_eq!(perf.ingest.scan_ms, Some(340));
    assert_eq!(perf.ingest.scan_bytes, Some(i64::MAX));
    assert!(perf.serve.is_empty());

    let mut slow = meter(SOURCE, 2);
    slow.latency_max_us = Some(900);
    let mut quick = meter("combat.live", 2);
    quick.latency_max_us = Some(40);
    let budgets = ask_budgets(&world, measured(vec![quick, slow, meter("x", 1)]));
    assert_eq!(budgets.readings.scan_ms, Some(340));
    assert_eq!(budgets.readings.scan_bytes, Some(u64::MAX));
    assert_eq!(budgets.readings.worst_serve_us, Some(900));

    let timeline = ask_timeline(&world, measured(Vec::new()));
    assert_eq!(
        timeline.timeline,
        vec![PerfMoment {
            at_ms: 2000,
            span_ms: 1001,
            frames: 3,
            payload_weight: 77,
            fold_to_frame_us_max: Some(i64::MAX),
        }]
    );
}

fn ledger(revision: u64, keys: &[&str]) -> RowTable {
    let rows = keys
        .iter()
        .map(|k| Row {
            key: k.to_string(),
            cells: TextMap::new(),
        })
        .collect();
    RowTable {
        sources: vec![SourceReading {
            source: SOURCE.to_string(),
            revision,
            rows,
        }],
    }
}

#[test]
fn a_subscribe_and_an_append_fill_the_serve_table() {
    let mut world = World::new();
    let client = world.join();
    let turn = world.attach(A_LOG, None).generation;
    world.serve_asks(turn);
    world.report_status(turn, HealthResultStatus::Live);

    // The opening reset is a frame with no fold behind it: counted and not timed.
    world.open_subscription(
        client,
        2,
        SourceView {
            source: SOURCE.to_string(),
            offset: 0,
            limit: None,
        },
    );
    let (ours, frames) = world.serve_views(turn, &ledger(1, &[]));
    assert!(ours);
    assert_eq!(frames.len(), 1);
    assert_eq!(frames[0].source, SOURCE);
    assert_eq!(frames[0].kind, FrameKind::Reset);
    let opened = ask_perf(&world, 1, measured(vec![meter(SOURCE, 1)]));
    assert_eq!(opened.serve.len(), 1);
    let opening = opened.serve[0].counts;
    assert_eq!(opening.subscribers, 1, "one connection is watching");
    assert_eq!(opening.resets, 1);
    assert_eq!(opening.payload_weight, 900);
    assert_eq!(opening.widest_payload_weight, 600);

    // A live line, which the next frame reports.
    let (_, frames) = world.serve_views(turn, &ledger(2, &["a loot"]));
    assert_eq!(frames.len(), 1);
    assert_eq!(frames[0].kind, FrameKind::Diff);
    assert_eq!(frames[0].ops, 1);
    let mut now = meter(SOURCE, 2);
    now.latency_mean_us = Some(30);
    now.latency_max_us = Some(50);
    let served = ask_perf(&world, 2, measured(vec![now]));
    let row_now = served.serve[0].counts;
    assert_eq!(row_now.diffs, 1, "the appended loot arrived as a diff");
    assert_eq!(row_now.fold_to_frame_us_mean, Some(30));
    assert_eq!(row_now.fold_to_frame_us_max, Some(50));

    // Nothing moved, so nothing is said.
    let (_, frames) = world.serve_views(turn, &ledger(2, &["a loot"]));
    assert!(frames.is_empty());

    // The subscriber count is live and the frame counts are not.
    assert!(world.close_subscription(client, 2));
    let closed = ask_perf(&world, 3, measured(vec![meter(SOURCE, 2)]));
    assert_eq!(closed.serve[0].counts.subscribers, 0);
    assert_eq!(closed.serve[0].counts.frames, 2, "the bill stands");
}

#[test]
fn a_source_that_is_only_watched_has_a_row_too() {
    let mut watched: TextMap<i64> = TextMap::new();
    watched.insert("zebra".to_string(), 2);
    watched.insert(SOURCE.to_string(), 1);
    let rows = serve_rows(&vec![meter(SOURCE, 3), meter("alpha", 1)], &watched);
    let names: Vec<&str> = rows.iter().map(|r| r.source.as_str()).collect();
    assert_eq!(names, ["alpha", SOURCE, "zebra"]);
    assert_eq!(rows[0].counts.subscribers, 0);
    assert_eq!(rows[1].counts.subscribers, 1);
    assert_eq!(rows[1].counts.frames, 3);
    assert_eq!(
        rows[2].counts,
        ServeCounts {
            frames: 0,
            resets: 0,
            diffs: 0,
            rows: 0,
            payload_weight: 0,
            widest_payload_weight: 0,
            fold_to_frame_us_mean: None,
            fold_to_frame_us_max: None,
            subscribers: 2,
        }
    );
}

#[test]
fn every_status_has_its_word_and_every_count_fits() {
    for (from, to) in [
        (HealthResultStatus::Idle, PerfSnapshotResultStatus::Idle),
        (
            HealthResultStatus::Starting,
            PerfSnapshotResultStatus::Starting,
        ),
        (HealthResultStatus::Live, PerfSnapshotResultStatus::Live),
    ] {
        assert_eq!(perf_status(from), to);
    }
    assert_eq!(clamp_i64(7), 7);
    assert_eq!(clamp_i64(u64::MAX), i64::MAX);
    assert_eq!(clamp_opt(None), None);
    assert_eq!(clamp_opt(Some(u64::MAX)), Some(i64::MAX));
    assert_eq!(
        moment_row(&Moment {
            at_ms: 1,
            span_ms: 2,
            frames: 3,
            bytes: 4,
            worst_us: None
        }),
        PerfMoment {
            at_ms: 1,
            span_ms: 2,
            frames: 3,
            payload_weight: 4,
            fold_to_frame_us_max: None
        }
    );
}

// ---- the clock the fold is on ------------------------------------------------------------------

fn wall_clock_ms() -> i64 {
    i64::try_from(
        std::time::SystemTime::now()
            .duration_since(std::time::UNIX_EPOCH)
            .expect("a clock after 1970")
            .as_millis(),
    )
    .expect("an instant that fits")
}

/// An offset this machine is provably NOT on, so the platform probe cannot claim agreement with it.
fn a_foreign_offset_min() -> i32 {
    let candidates: [i32; 2] = [330, 210];
    let here = platform_timezone().map(|tz| Zone::Iana(tz).offset_min_at_ms(wall_clock_ms()));
    candidates
        .into_iter()
        .find(|c| here != Some(*c))
        .expect("this machine cannot be on both offsets at once")
}

fn attach_with_clock(clock: ClockHint) -> (World, u64) {
    let mut world = World::new();
    let turn = world.attach(A_LOG, None).generation;
    resolve_and_report(&mut world, turn, &zone_hint(Some(&clock)));
    (world, turn)
}

#[test]
fn an_attach_whose_zone_name_disagrees_with_its_offset_resolves_the_offset() {
    let offset_min = a_foreign_offset_min();
    let (world, _) = attach_with_clock(ClockHint {
        tz: Some("Europe/Berlin".to_string()),
        utc_offset_min: Some(i64::from(offset_min)),
    });
    let perf = ask_perf(&world, 1, Reply::Ended);
    assert_eq!(
        perf.clock_source,
        Some(PerfSnapshotResultClockSource::Offset)
    );
    assert_eq!(
        perf.clock_zone,
        Some(
            Zone::fixed(offset_min)
                .expect("a representable offset")
                .name()
        )
    );
}

#[test]
fn an_attach_whose_zone_name_agrees_is_taken_at_its_word() {
    let (mut world, turn) = attach_with_clock(ClockHint {
        tz: Some("UTC".to_string()),
        utc_offset_min: Some(0),
    });
    world.report_fold_landed(
        turn,
        FoldMark {
            checkpoint: 1,
            events: 1,
            pct_bits: 100.0_f64.to_bits(),
            total: 1,
            last_ts: Some(1_787_181_707_000),
            skew_ms: None,
            live: false,
        },
        &NoRows,
    );
    let perf = ask_perf(&world, 1, Reply::Ended);
    assert_eq!(perf.clock_source, Some(PerfSnapshotResultClockSource::Host));
    assert_eq!(perf.clock_zone.as_deref(), Some("UTC"));
    assert_eq!(perf.clock_skew_ms, None);
}

/// One stamp, written in a stated zone. The weekday is not parsed, so `Xxx` is honest.
fn stamped(zone: Zone, ms: i64) -> String {
    let months = [
        "Jan", "Feb", "Mar", "Apr", "May", "Jun", "Jul", "Aug", "Sep", "Oct", "Nov", "Dec",
    ];
    let civil = Clock::new(zone).civil(ms).expect("a representable instant");
    let month = months[(civil.month as usize).saturating_sub(1).min(11)];
    format!(
        "Xxx {month} {day:02} {hour:02}:{minute:02}:{second:02} {year}",
        day = civil.day,
        hour = civil.hour,
        minute = civil.minute,
        second = civil.second,
        year = civil.year
    )
}

#[test]
fn a_live_line_stamped_now_reports_a_skew_of_about_nothing() {
    let (mut world, turn) = attach_with_clock(ClockHint {
        tz: Some("UTC".to_string()),
        utc_offset_min: Some(0),
    });
    let utc = Zone::Iana(IanaZone::utc());
    let line = stamped(utc.copy(), wall_clock_ms());
    let last_ts = Clock::new(utc).parse_eq_timestamp(&line);
    let mut said = false;
    let skew = skew_of(wall_clock_ms(), Some(last_ts), &mut said);
    world.report_progress(
        turn,
        FoldMark {
            checkpoint: 1,
            events: 1,
            pct_bits: 100.0_f64.to_bits(),
            total: 1,
            last_ts: Some(last_ts),
            skew_ms: skew.ms,
            live: true,
        },
    );
    let perf = ask_perf(&world, 1, Reply::Ended);
    let skew = perf.clock_skew_ms.expect("the tail measured one");
    assert!(
        skew.abs() < 60_000,
        "a line stamped in the resolved zone is seconds old, not {skew} ms"
    );
    assert!(!said);
}

#[test]
fn the_alarm_is_said_once() {
    let mut said = false;
    assert_eq!(
        skew_of(1_000, None, &mut said),
        Skew {
            ms: None,
            alarm_min: None
        }
    );
    assert_eq!(
        skew_of(SKEW_ALARM_MS - 1, Some(0), &mut said),
        Skew {
            ms: Some(SKEW_ALARM_MS - 1),
            alarm_min: None
        }
    );
    assert!(!said);
    let late = SKEW_ALARM_MS + 59_999;
    assert_eq!(
        skew_of(0, Some(late), &mut said),
        Skew {
            ms: Some(-late),
            alarm_min: Some(-(SKEW_ALARM_MS / 60_000))
        }
    );
    assert!(said);
    assert_eq!(
        skew_of(0, Some(late), &mut said),
        Skew {
            ms: Some(-late),
            alarm_min: None
        }
    );
}

#[test]
fn a_hint_that_does_not_fit_is_no_hint() {
    assert_eq!(
        zone_hint(None),
        ZoneHint {
            tz: None,
            utc_offset_min: None
        }
    );
    let wide = zone_hint(Some(&ClockHint {
        tz: Some("UTC".to_string()),
        utc_offset_min: Some(i64::from(i32::MAX) + 1),
    }));
    assert_eq!(wide.tz.as_deref(), Some("UTC"));
    assert_eq!(wide.utc_offset_min, None);
    assert_eq!(
        clock_source(ZoneSource::Platform),
        PerfSnapshotResultClockSource::Platform
    );
    assert_eq!(
        clock_source(ZoneSource::Utc),
        PerfSnapshotResultClockSource::Utc
    );
}
