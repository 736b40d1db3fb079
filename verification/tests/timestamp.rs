//! Stamps, zones and the order zones are resolved in.

use eqfold::calendar::{reading_of, secs_of, Civil};
use eqfold::timestamp::{
    host_timezone, instant_of_seconds, now_utc, platform_timezone, probed_zone, read_stamp,
    resolve_zone, resolve_zone_at, zone_or_utc, Clock, FixedZone, IanaZone, UtcInstant, Zone,
    ZoneHint, ZoneSource,
};

fn zone(name: &str) -> IanaZone {
    IanaZone::parse(name).expect("a listed zone")
}

fn la() -> Clock {
    Clock::new(Zone::Iana(zone("America/Los_Angeles")))
}

#[test]
fn reads_the_slice_corpus_shape() {
    assert_eq!(
        la().parse_eq_timestamp("Wed Aug 19 16:21:47 2026"),
        1787181707000
    );
}

#[test]
fn the_wall_clock_reads_back_out_of_the_instant_it_resolved_to() {
    let ms = la().parse_eq_timestamp("Wed Aug 19 16:21:47 2026");
    let civil = la().civil(ms).expect("a representable instant");
    assert_eq!(
        (
            civil.year,
            civil.month,
            civil.day,
            civil.hour,
            civil.minute,
            civil.second
        ),
        (2026, 8, 19, 16, 21, 47)
    );
    // A UTC clock reads the same instant seven hours later.
    let utc = Clock::new(Zone::Iana(IanaZone::utc()))
        .civil(ms)
        .expect("an instant");
    assert_eq!((utc.day, utc.hour), (19, 23));
}

#[test]
fn a_stamp_that_is_not_one_is_zero() {
    assert_eq!(la().parse_eq_timestamp("not a timestamp"), 0);
    assert_eq!(la().parse_eq_timestamp("Sat Zzz 01 13:00:28 2026"), 0);
}

#[test]
fn the_skipped_hour_reads_at_the_offset_before_the_transition() {
    let ms = la().parse_eq_timestamp("Sun Mar 08 02:30:00 2026");
    assert_eq!(ms, 1772965800000);
}

#[test]
fn the_repeated_hour_reads_at_the_offset_before_the_transition() {
    let ms = la().parse_eq_timestamp("Sun Nov 01 01:30:00 2026");
    assert_eq!(ms, 1793521800000);
}

/// A September 2026 instant: PDT is in force in Los Angeles and CEST in Berlin.
fn september() -> UtcInstant {
    UtcInstant::from_timestamp_millis(1_789_000_000_000).expect("a representable instant")
}

fn hint(tz: Option<&str>, offset: Option<i32>) -> ZoneHint {
    ZoneHint {
        tz: tz.map(str::to_owned),
        utc_offset_min: offset,
    }
}

/// The probe answers nothing.
const NO_PROBE: Option<IanaZone> = None;

#[test]
fn the_hosts_name_is_the_first_rung() {
    let resolved = resolve_zone_at(
        &hint(Some("America/Los_Angeles"), Some(-420)),
        september(),
        NO_PROBE,
    );
    assert_eq!(resolved.source, ZoneSource::Host);
    assert_eq!(resolved.zone, Zone::Iana(zone("America/Los_Angeles")));
}

#[test]
fn the_platform_probe_is_the_second() {
    let resolved = resolve_zone_at(
        &hint(None, None),
        september(),
        Some(zone("America/Los_Angeles")),
    );
    assert_eq!(resolved.source, ZoneSource::Platform);
    assert_eq!(resolved.zone, Zone::Iana(zone("America/Los_Angeles")));
}

#[test]
fn a_host_name_that_disagrees_with_the_host_offset_falls_through_to_the_offset() {
    let resolved = resolve_zone_at(
        &hint(Some("Europe/Berlin"), Some(-420)),
        september(),
        Some(zone("Europe/Berlin")),
    );
    assert_eq!(resolved.source, ZoneSource::Offset);
    assert_eq!(
        resolved.zone,
        Zone::Fixed(FixedZone::east(-420 * 60).unwrap())
    );
}

#[test]
fn a_garbage_zone_name_is_skipped() {
    let resolved = resolve_zone_at(
        &hint(Some("Middle/Earth"), Some(-420)),
        september(),
        NO_PROBE,
    );
    assert_eq!(resolved.source, ZoneSource::Offset);
    assert_eq!(resolved.zone.name(), "-07:00");
}

#[test]
fn nothing_usable_is_utc_and_says_so() {
    let resolved = resolve_zone_at(&hint(Some("Middle/Earth"), None), september(), NO_PROBE);
    assert_eq!(resolved.source, ZoneSource::Utc);
    assert_eq!(resolved.zone, Zone::Iana(IanaZone::utc()));
}

#[test]
fn an_agreeing_probe_outranks_a_bare_offset() {
    let resolved = resolve_zone_at(
        &hint(None, Some(-420)),
        september(),
        Some(zone("America/Los_Angeles")),
    );
    assert_eq!(resolved.source, ZoneSource::Platform);
}

#[test]
fn the_live_probe_and_the_live_order_agree_with_each_other() {
    let hinted = hint(None, None);
    assert_eq!(
        resolve_zone(&hinted).source,
        resolve_zone_at(&hinted, now_utc(), platform_timezone()).source
    );
}

#[test]
fn a_fixed_offset_clock_parses_and_reads_back_the_same_wall_clock() {
    let fixed = Clock::new(Zone::Fixed(FixedZone::east(-420 * 60).unwrap()));
    let ms = fixed.parse_eq_timestamp("Wed Aug 19 16:21:47 2026");
    assert_eq!(ms, 1787181707000);
    let civil = fixed.civil(ms).expect("a representable instant");
    assert_eq!((civil.day, civil.hour, civil.minute), (19, 16, 21));
}

#[test]
fn month_names_are_read_in_either_case_and_white_space_is_loose() {
    let utc = Clock::new(Zone::Iana(IanaZone::utc()));
    assert_eq!(
        utc.parse_eq_timestamp("  Wed\taUG   19 16:21:47  2026 "),
        1787156507000
    );
    assert_eq!(utc.parse_eq_timestamp("Thu Jan 1 00:00:01 1970"), 1000);
}

#[test]
fn a_date_the_calendar_does_not_have_is_zero() {
    let utc = Clock::new(Zone::Iana(IanaZone::utc()));
    assert_eq!(utc.parse_eq_timestamp("Sun Feb 29 10:00:00 2026"), 0);
    assert_eq!(utc.parse_eq_timestamp("Sun Feb 28 24:00:00 2026"), 0);
    assert_eq!(utc.parse_eq_timestamp("Sun Feb 28 10:60:00 2026"), 0);
    assert_eq!(utc.parse_eq_timestamp("Sun Feb 28 10:00:60 2026"), 0);
    assert_eq!(utc.parse_eq_timestamp("Sun Feb 0 10:00:00 2026"), 0);
    // A leap day is a date like any other.
    assert_eq!(
        utc.parse_eq_timestamp("Tue Feb 29 00:00:00 2000"),
        951_782_400_000
    );
}

#[test]
fn a_text_of_another_shape_is_zero() {
    let utc = Clock::new(Zone::Iana(IanaZone::utc()));
    for text in [
        "",
        "Wed Aug 19 16:21:47",
        "Wed Aug 19 16:21:47 2026 x",
        "Weds Aug 19 16:21:47 2026",
        "W-d Aug 19 16:21:47 2026",
        "Wed August 19 16:21:47 2026",
        "Wed Aug 119 16:21:47 2026",
        "Wed Aug 19 6:21:47 2026",
        "Wed Aug 19 16-21-47 2026",
        "Wed Aug 19 16:21:47 26",
    ] {
        assert_eq!(utc.parse_eq_timestamp(text), 0, "{text}");
    }
}

#[test]
fn an_offset_names_itself_with_its_sign() {
    assert_eq!(Zone::fixed(330).unwrap().name(), "+05:30");
    assert_eq!(Zone::fixed(-210).unwrap().name(), "-03:30");
    assert_eq!(Zone::fixed(0).unwrap().name(), "+00:00");
    assert_eq!(Zone::Fixed(FixedZone::east(-61).unwrap()).name(), "-00:01:01");
    assert_eq!(Zone::Iana(zone("Europe/Berlin")).name(), "Europe/Berlin");
    assert!(Zone::fixed(1440).is_none());
    assert!(Zone::fixed(-1440).is_none());
    assert!(Zone::fixed(1439).is_some());
    assert!(Zone::fixed(i32::MAX).is_none());
}

#[test]
fn an_offset_is_cut_off_at_whole_minutes() {
    assert_eq!(
        Zone::Fixed(FixedZone::east(-90).unwrap()).offset_min_at_ms(0),
        -1
    );
    assert_eq!(
        Zone::Fixed(FixedZone::east(90).unwrap()).offset_min_at_ms(0),
        1
    );
    assert_eq!(
        Zone::Iana(zone("America/Los_Angeles")).offset_min_at_ms(1_789_000_000_000),
        -420
    );
    // An instant that is not representable has no offset.
    assert_eq!(
        Zone::Fixed(FixedZone::east(3600).unwrap()).offset_min_at_ms(i64::MAX),
        0
    );
    let at = UtcInstant::from_timestamp_millis(1_772_965_800_000).unwrap();
    assert_eq!(Zone::Iana(zone("America/Los_Angeles")).offset_min(at), -420);
}

#[test]
fn an_unrepresentable_instant_shows_no_wall_clock() {
    assert!(la().civil(i64::MAX).is_none());
    assert!(la().civil(i64::MIN).is_none());
    assert!(UtcInstant::from_timestamp_millis(i64::MAX).is_none());
    // The last second there is, which a zone east of it cannot show.
    let last = 8_210_266_876_799_000_i64;
    let utc = Clock::new(Zone::Iana(IanaZone::utc()));
    let civil = utc.civil(last).expect("the last second");
    assert_eq!((civil.year, civil.month, civil.day, civil.hour), (262142, 12, 31, 23));
    assert!(utc.civil(last + 1000).is_none());
    assert!(Clock::new(Zone::fixed(60).unwrap()).civil(last).is_none());
}

#[test]
fn instants_before_the_epoch_read_back_too() {
    let utc = Clock::new(Zone::Iana(IanaZone::utc()));
    let civil = utc.civil(-1).expect("an instant");
    assert_eq!(
        civil,
        Civil {
            year: 1969,
            month: 12,
            day: 31,
            hour: 23,
            minute: 59,
            second: 59
        }
    );
    assert_eq!(
        utc.parse_eq_timestamp("Wed Dec 31 23:59:59 1969"),
        -1000
    );
}

#[test]
fn seconds_and_readings_are_inverses() {
    for secs in [0_i64, -1, 951_782_400, 1_787_181_707, -62_135_596_800, 253_402_300_799] {
        let c = reading_of(secs).expect("a dated second");
        assert_eq!(
            secs_of(c.year, c.month, c.day, c.hour, c.minute, c.second),
            Some(secs)
        );
    }
    assert_eq!(secs_of(2026, 2, 29, 0, 0, 0), None);
    assert_eq!(secs_of(2026, 13, 1, 0, 0, 0), None);
    assert_eq!(secs_of(2026, 1, 1, 0, 0, 60), None);
}

#[test]
fn a_source_spells_itself() {
    assert_eq!(ZoneSource::Host.as_str(), "host");
    assert_eq!(ZoneSource::Platform.as_str(), "platform");
    assert_eq!(ZoneSource::Offset.as_str(), "offset");
    assert_eq!(ZoneSource::Utc.as_str(), "utc");
}

#[test]
fn a_zone_that_is_not_listed_is_none() {
    assert!(IanaZone::parse("Middle/Earth").is_none());
    assert!(IanaZone::parse("").is_none());
    assert!(IanaZone::parse("america/los_angeles").is_none());
    assert_eq!(zone("UTC").name(), "UTC");
}

#[test]
fn the_clock_hands_out_the_zone_it_was_made_with() {
    assert_eq!(la().zone(), Zone::Iana(zone("America/Los_Angeles")));
    assert_eq!(Zone::from(zone("UTC")), Zone::Iana(IanaZone::utc()));
}

#[test]
fn the_probe_is_read_and_a_miss_is_utc() {
    assert_eq!(
        probed_zone(Some("Europe/Berlin".to_string())),
        Some(zone("Europe/Berlin"))
    );
    assert_eq!(probed_zone(Some("Middle/Earth".to_string())), None);
    assert_eq!(probed_zone(None), None);
    assert_eq!(zone_or_utc(None), IanaZone::utc());
    assert_eq!(zone_or_utc(Some(zone("Europe/Berlin"))).name(), "Europe/Berlin");
    assert!(IanaZone::parse(host_timezone().name()).is_some());
    assert_eq!(instant_of_seconds(None), UtcInstant::epoch());
    assert_eq!(instant_of_seconds(Some(u64::MAX)), UtcInstant::epoch());
    assert_eq!(instant_of_seconds(Some(1_789_000_000)), september());
    assert!(now_utc().ms() > 0);
}

#[test]
fn a_stamp_is_taken_apart() {
    let civil = read_stamp("Sun Mar 08 02:30:00 2026").expect("a stamp");
    assert_eq!(
        (civil.year, civil.month, civil.day, civil.hour, civil.minute, civil.second),
        (2026, 3, 8, 2, 30, 0)
    );
    assert!(read_stamp("not a timestamp").is_none());
}
