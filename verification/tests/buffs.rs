//! The instance store and the estimator, on their own terms.

use eqfold::buff_rounds::HoldGroup;
use eqfold::buffs_entities::PetEntities;
use eqfold::buffs_instance_rules::{
    hygiene_cap, is_article_named, landing_is_permanent, unwitnessed_cull_cap,
};
use eqfold::buffs_instances::{BuffInstances, LandingSpec};
use eqfold::buffs_shapes::{
    corroborated_max, hygiene_cap_ms, id_key, instance_entity_key, instance_key,
    instance_spell_key, learn_key, learning_record_cap_ms, parse_spell_rank, percentile,
    scaled_floor_ms, spell_key, tier_of, unwitnessed_timeout_ms, BuffClass, Disposition,
    DurationCategory, DurationSample, EstimatorSource, HYGIENE_ABSOLUTE_MS, LAND_TIMEOUT_MS,
    MAX_SAMPLE_MS, SELF_CASTER, SELF_KEY, UNKNOWN_HOSTILE,
};
use eqfold::buffs_stats::{preferred_display_name, SpellStats};
use eqfold::jsmap::JsMap;
use eqfold::spell_facts::{Nature, SpellFacts, SpellRow};

fn row(name: &str, ms: Option<i64>, nature: Nature) -> SpellRow {
    SpellRow {
        name: name.to_string(),
        duration_ms: ms,
        duration_text: None,
        category: DurationCategory::PercentPerTier(10),
        illusion: false,
        nature,
        calms_target: false,
    }
}

fn catalog() -> SpellFacts {
    let mut facts = SpellFacts::new();
    let mut put = |r: SpellRow| {
        let k = spell_key(&r.name);
        facts.insert(k, r);
    };
    put(row("Alacrity", Some(600_000), Nature::Beneficial));
    put(row("Haste", Some(300_000), Nature::Beneficial));
    put(row("Odium", Some(30_000), Nature::Detrimental));
    put(row("Mystery", None, Nature::Unstated));
    put(SpellRow {
        illusion: true,
        ..row("Illusion: Dark Elf", Some(2_160_000), Nature::Beneficial)
    });
    put(SpellRow {
        illusion: true,
        ..row("Illusion: Troll", Some(2_160_000), Nature::Beneficial)
    });
    put(SpellRow {
        duration_text: Some("Permanent".to_string()),
        ..row("Yaulp Forever", None, Nature::Beneficial)
    });
    put(SpellRow {
        calms_target: true,
        ..row("Pacify", Some(60_000), Nature::Detrimental)
    });
    facts
}

struct Store {
    inst: BuffInstances,
    stats: SpellStats,
    pets: PetEntities,
}

fn store() -> Store {
    Store {
        inst: BuffInstances::new(),
        stats: SpellStats::new(catalog()),
        pets: PetEntities::new(),
    }
}

fn spec(target: &str, ts: i64, ms: Option<i64>) -> LandingSpec {
    LandingSpec {
        target: target.to_string(),
        ts,
        illusion: false,
        duration_ms: ms,
        caster: None,
        line_key: None,
        cast_name: None,
        candidates: None,
        permanent_illusion_owned_ts: None,
    }
}

impl Store {
    fn land(&mut self, spell: &str, target: &str, ts: i64) {
        let key = spell_key(spell);
        let s = LandingSpec {
            illusion: self.stats.is_illusion(&key),
            ..spec(target, ts, self.stats.db_duration_for(&key))
        };
        self.inst
            .apply_message_buff(spell, &s, &mut self.stats, &mut self.pets);
    }

    fn fade(&mut self, spell: &str, entity: &str, ts: i64) {
        self.inst
            .record_fade(&spell_key(spell), entity, spell, ts, &mut self.stats, &self.pets);
    }

    fn live(&self, spell: &str, entity: &str) -> bool {
        self.inst
            .active
            .contains_key(&instance_key(&spell_key(spell), entity))
    }

    fn record(&self, spell: &str, entity: &str) -> bool {
        self.inst
            .open
            .contains_key(&instance_key(&spell_key(spell), entity))
    }
}

#[test]
fn a_key_reads_back() {
    let ik = instance_key("shiftless deeds", "a rat|b");
    assert_eq!(instance_spell_key(&ik), "shiftless deeds");
    assert_eq!(instance_entity_key(&ik), "a rat|b");
    assert_eq!(instance_entity_key("no bar"), "");
    assert_ne!(learn_key("a", "b"), learn_key("a", "c"));
    assert_ne!(learn_key("a|b", "c"), learn_key("a", "b|c"));
    assert_ne!(learn_key("a", "bc"), learn_key("ab", "c"));
    assert_ne!(learn_key("", "|.a"), learn_key("|", ".a"));
    assert_eq!(learn_key("a", "b"), learn_key("a", "b"));
    assert_eq!(id_key("  A Rat\u{feff} "), "a rat");
}

#[test]
fn a_rank_is_the_numeral_after_the_last_space() {
    let r = parse_spell_rank("Shiftless Deeds IV");
    assert_eq!((r.base.as_str(), r.rank), ("Shiftless Deeds", 4));
    let r = parse_spell_rank(" Torpor ");
    assert_eq!((r.base.as_str(), r.rank), ("Torpor", 0));
    assert_eq!(tier_of("Odium XXXIX"), 39);
    assert_eq!(tier_of("Odium XL"), 0);
    assert_eq!(tier_of("IV"), 0);
    assert_eq!(spell_key("ODIUM ix"), "odium ix");
    assert_eq!(spell_key("ODIUM IX"), "odium");
}

#[test]
fn the_floor_grows_with_the_tier() {
    let cat = DurationCategory::PercentPerTier(10);
    assert_eq!(scaled_floor_ms(150_000, cat, 4), 210_000);
    assert_eq!(scaled_floor_ms(150_000, cat, 0), 150_000);
    assert_eq!(
        scaled_floor_ms(150_000, DurationCategory::Unstated, 9),
        150_000
    );
    assert_eq!(scaled_floor_ms(i64::MAX, cat, 4), i64::MAX);
}

#[test]
fn a_quartile_is_exact_to_a_quarter() {
    let s = vec![10, 20, 31];
    assert_eq!(percentile(&s, 1).get(), 60);
    assert_eq!(percentile(&s, 2).get(), 80);
    assert_eq!(percentile(&s, 3).get(), 102);
    assert_eq!(percentile(&vec![7], 3).get(), 28);
    let two = percentile(&vec![0, 1], 1);
    assert_eq!(two.get(), 1);
}

#[test]
fn the_caps_and_the_graces() {
    assert_eq!(hygiene_cap_ms(None, 0), 4 * i128::from(HYGIENE_ABSOLUTE_MS));
    let long = percentile(&vec![9_000_000], 3);
    assert_eq!(hygiene_cap_ms(Some(long.copy()), 1), 72_000_000);
    assert_eq!(
        hygiene_cap_ms(Some(long), 0),
        4 * i128::from(HYGIENE_ABSOLUTE_MS)
    );
    assert_eq!(learning_record_cap_ms(None, 100), 100);
    assert_eq!(learning_record_cap_ms(Some(60), 100), 120);
    assert_eq!(learning_record_cap_ms(Some(40), 100), 100);
    assert_eq!(unwitnessed_timeout_ms(None), 60_000);
    assert_eq!(unwitnessed_timeout_ms(Some(EstimatorSource::Db)), 60_000);
    assert_eq!(
        unwitnessed_timeout_ms(Some(EstimatorSource::Observed)),
        30_000
    );
}

#[test]
fn a_cluster_is_three_that_agree() {
    assert_eq!(corroborated_max(&vec![100, 100]), None);
    assert_eq!(corroborated_max(&vec![90, 100, 95]), Some(100));
    assert_eq!(corroborated_max(&vec![89, 100, 95]), None);
}

#[test]
fn the_fuller_name_of_a_line_is_shown() {
    assert_eq!(
        preferred_display_name("Odium", "Odium III"),
        "Odium III"
    );
    assert_eq!(preferred_display_name("Odium III", "Odium"), "Odium III");
    assert_eq!(preferred_display_name("Odium III", "Odium V"), "Odium V");
    assert_eq!(preferred_display_name("Odium V", "Odium III"), "Odium V");
    assert_eq!(preferred_display_name("Odium", "  "), "Odium");
    assert_eq!(preferred_display_name("Odium", " Odium "), "Odium");
}

fn sample(ms: i64, ts: i64) -> DurationSample {
    DurationSample {
        ms,
        ts,
        censored: false,
        death_bound: false,
    }
}

#[test]
fn the_estimate_is_the_longest_of_the_last_five() {
    let mut stats = SpellStats::new(catalog());
    for (i, ms) in [900_000, 650_000, 640_000, 630_000, 620_000]
        .iter()
        .enumerate()
    {
        stats.push_sample("alacrity", SELF_CASTER, "Alacrity", sample(*ms, i as i64));
    }
    assert_eq!(stats.estimate_for("alacrity", SELF_CASTER).ms, Some(900_000));
    // The sixth pushes the longest out of the window.
    stats.push_sample("alacrity", SELF_CASTER, "Alacrity", sample(610_000, 9));
    let est = stats.estimate_for("alacrity", SELF_CASTER);
    assert_eq!(est.ms, Some(650_000));
    assert_eq!(est.source, Some(EstimatorSource::Observed));
    assert_eq!(
        stats.clean_window_for("alacrity", SELF_CASTER),
        vec![610_000, 620_000, 630_000, 640_000, 650_000]
    );
    // Somebody else's casts are another pool.
    assert_eq!(
        stats.estimate_for("alacrity", "Rowel").source,
        Some(EstimatorSource::Db)
    );
}

#[test]
fn only_a_cluster_goes_below_the_catalog() {
    let mut stats = SpellStats::new(catalog());
    stats.push_sample("haste", SELF_CASTER, "Haste", sample(200_000, 1));
    stats.push_sample("haste", SELF_CASTER, "Haste", sample(199_000, 2));
    assert_eq!(stats.estimate_for("haste", SELF_CASTER).ms, Some(300_000));
    stats.push_sample("haste", SELF_CASTER, "Haste", sample(198_000, 3));
    assert_eq!(stats.estimate_for("haste", SELF_CASTER).ms, Some(200_000));
}

#[test]
fn a_spell_nobody_knows_has_no_estimate_until_it_is_seen() {
    let mut stats = SpellStats::new(catalog());
    assert_eq!(stats.estimate_for("mystery", SELF_CASTER).ms, None);
    stats.push_sample("mystery", SELF_CASTER, "Mystery", sample(5_000, 1));
    assert_eq!(stats.estimate_for("mystery", SELF_CASTER).ms, Some(5_000));
    stats.push_sample("a|b", "c", "A", sample(7_000, 1));
    assert_eq!(stats.estimate_for("a|b", "c").ms, Some(7_000));
    assert_eq!(stats.estimate_for("a", "b|c").ms, None);
    assert_eq!(stats.db_duration_for("mystery"), None);
    assert_eq!(stats.db_duration_for("nothing"), None);
}

#[test]
fn a_record_states_its_quartiles() {
    let mut stats = SpellStats::new(catalog());
    stats.note_ever_faded("haste");
    stats.note_ever_faded("haste");
    stats.note_ever_faded("odium");
    for (i, ms) in [10_000, 30_000, 20_000].iter().enumerate() {
        stats.push_sample("haste", SELF_CASTER, "Haste II", sample(*ms, i as i64));
    }
    let st = stats.stat_for("haste", SELF_CASTER).expect("samples");
    assert_eq!(st.n, 3);
    assert_eq!(st.median_ms.expect("a median").get(), 80_000);
    assert!(stats.stat_for("haste", "Rowel").is_none());
    assert_eq!(stats.sample_spell_name("haste", SELF_CASTER), Some("Haste II"));
    let all = stats.build_stats();
    assert_eq!(all.len(), 2);
    assert_eq!(all.key_at(0), "haste");
    assert_eq!(all.value_at(0).n, 3);
    assert_eq!(all.key_at(1), "odium");
    assert_eq!(all.value_at(1).n, 0);
}

#[test]
fn the_tier_never_falls_and_the_newest_sighting_stands() {
    let mut stats = SpellStats::new(catalog());
    stats.note_cast_tier("odium", SELF_CASTER, "Odium IV");
    stats.note_cast_tier("odium", SELF_CASTER, "Odium II");
    stats.note_cast_tier("odium", SELF_CASTER, "Odium");
    assert_eq!(stats.cast_tier("odium", SELF_CASTER), 4);
    assert_eq!(stats.floor_for("odium", SELF_CASTER), Some(42_000));
    assert_eq!(stats.floor_for("odium", "Rowel"), Some(30_000));
    stats.note_cast_tier("odium", "Rowel", "Odium II");
    stats.note_cast_tier("haste", SELF_CASTER, "Haste VI");
    // Two pairs that read alike when they are written side by side are two pairs still.
    stats.note_cast_tier("a|b", "c", "A III");
    assert_eq!(stats.cast_tier("a|b", "c"), 3);
    assert_eq!(stats.cast_tier("a", "b|c"), 0);
    assert_eq!(stats.cast_tier("odium", SELF_CASTER), 4);
    assert_eq!(stats.cast_tier("odium", "Rowel"), 2);
    assert_eq!(stats.cast_tier("haste", SELF_CASTER), 6);
    stats.reset();
    assert_eq!(stats.cast_tier("odium", SELF_CASTER), 0);
}

#[test]
fn a_late_line_takes_back_the_sample_it_explains() {
    let mut stats = SpellStats::new(catalog());
    stats.push_sample("haste", SELF_CASTER, "Haste", sample(400_000, 50));
    assert!(!stats.censor_sample_at("haste", SELF_CASTER, 51));
    assert!(stats.censor_sample_at("haste", SELF_CASTER, 50));
    assert!(!stats.censor_sample_at("haste", SELF_CASTER, 50));
}

#[test]
fn the_catalog_says_what_a_spell_is() {
    let stats = SpellStats::new(catalog());
    assert_eq!(stats.class_of("odium"), BuffClass::Debuff);
    assert_eq!(stats.class_of("haste"), BuffClass::Buff);
    assert_eq!(stats.class_of("mystery"), BuffClass::Buff);
    assert_eq!(stats.class_of("nothing"), BuffClass::Buff);
    assert!(stats.is_permanent("yaulp forever"));
    assert!(!stats.is_permanent("mystery"));
    assert!(stats.is_illusion("illusion: troll"));
    assert!(stats.calms_target("pacify"));
}

#[test]
fn a_landing_opens_a_row_and_a_fade_measures_it() {
    let mut s = store();
    s.land("Haste", "self", 1_000);
    assert!(s.live("Haste", SELF_KEY));
    assert!(s.record("Haste", SELF_KEY));
    assert!(s.inst.has_active_spell("haste"));
    s.fade("Haste", SELF_KEY, 401_000);
    assert!(!s.live("Haste", SELF_KEY));
    assert!(!s.record("Haste", SELF_KEY));
    assert_eq!(
        s.stats.clean_window_for("haste", SELF_CASTER),
        vec![400_000]
    );
    // A fade of what was never tracked mints nothing.
    s.fade("Haste", SELF_KEY, 900_000);
    assert_eq!(
        s.stats.clean_window_for("haste", SELF_CASTER),
        vec![400_000]
    );
}

#[test]
fn a_span_that_is_no_duration_is_not_kept() {
    let mut s = store();
    s.land("Haste", "self", 0);
    s.fade("Haste", SELF_KEY, MAX_SAMPLE_MS + 1);
    assert!(s.stats.clean_window_for("haste", SELF_CASTER).is_empty());
    s.land("Haste", "self", 20_000_000);
    s.fade("Haste", SELF_KEY, 20_000_000);
    assert!(s.stats.clean_window_for("haste", SELF_CASTER).is_empty());
}

#[test]
fn what_has_no_duration_opens_nothing() {
    let mut s = store();
    s.land("Mystery", "self", 0);
    assert_eq!(s.inst.active.len(), 0);
    assert_eq!(s.inst.open.len(), 0);
}

#[test]
fn one_illusion_at_a_time() {
    let mut s = store();
    s.land("Illusion: Dark Elf", "self", 0);
    s.land("Illusion: Troll", "self", 5_000);
    assert!(!s.live("Illusion: Dark Elf", SELF_KEY));
    assert!(s.live("Illusion: Troll", SELF_KEY));
    s.inst.clear_self_illusion(&s.stats);
    assert!(!s.live("Illusion: Troll", SELF_KEY));
    let told: Vec<&str> = s.inst.expired.iter().map(|e| e.spell.as_str()).collect();
    assert!(told.contains(&"Illusion: Troll"));
}

#[test]
fn a_culled_illusion_is_replaced_with_its_record() {
    let mut s = store();
    s.pets.summoned_key = Some("gobober".to_string());
    s.land("Illusion: Dark Elf", "Gobober", 0);
    s.land("Haste", "Gobober", 0);
    s.land("Illusion: Dark Elf", "Rowel", 0);
    // The countdown and its grace run out: the rows go and the records stay.
    s.inst.sweep_hygiene(2_220_001, 0, &s.stats, &s.pets);
    assert!(!s.live("Illusion: Dark Elf", "gobober"));
    assert!(s.record("Illusion: Dark Elf", "gobober"));
    assert!(s.record("Illusion: Dark Elf", "rowel"));
    assert!(s.record("Haste", "gobober"));

    s.land("Illusion: Troll", "Gobober", 2_230_000);
    assert!(s.live("Illusion: Troll", "gobober"));
    assert!(s.record("Illusion: Troll", "gobober"));
    assert!(!s.record("Illusion: Dark Elf", "gobober"));
    // Another entity's illusion and another spell's record stand.
    assert!(s.record("Illusion: Dark Elf", "rowel"));
    assert!(s.record("Haste", "gobober"));

    // A late line of the replaced illusion pairs with nothing.
    s.fade("Illusion: Dark Elf", "gobober", 2_240_000);
    assert!(s
        .stats
        .clean_window_for("illusion: dark elf", SELF_CASTER)
        .is_empty());
}

#[test]
fn a_death_adds_a_bound_and_no_cycle() {
    let mut s = store();
    s.stats.witness_wear_off_channel("odium");
    s.land("Odium", "a rat", 0);
    s.fade("Odium", "a rat", 31_000);
    s.land("Odium", "Lord Nagafen", 100_000);
    s.inst
        .on_entity_death("lord nagafen", 140_000, &mut s.stats, &s.pets);
    assert_eq!(s.stats.clean_window_for("odium", SELF_CASTER), vec![31_000]);
    assert_eq!(s.stats.stat_for("odium", SELF_CASTER).expect("samples").n, 1);
    assert_eq!(s.stats.estimate_for("odium", SELF_CASTER).ms, Some(31_000));
}

#[test]
fn a_permanent_row_is_never_swept() {
    let mut s = store();
    let forever = spec("self", 0, None);
    s.inst
        .apply_message_buff("Yaulp Forever", &forever, &mut s.stats, &mut s.pets);
    assert!(s.live("Yaulp Forever", SELF_KEY));
    assert!(!s
        .inst
        .sweep_hygiene(i64::MAX, 0, &s.stats, &s.pets));
    assert!(s.live("Yaulp Forever", SELF_KEY));
    assert!(landing_is_permanent(true, true, false, 0, None));
    assert!(landing_is_permanent(true, false, true, 5, Some(5)));
    assert!(!landing_is_permanent(true, false, true, 4, Some(5)));
    assert!(!landing_is_permanent(false, true, true, 9, Some(5)));
}

#[test]
fn the_players_own_buff_waits_for_the_long_stop() {
    let mut s = store();
    s.land("Haste", "self", 0);
    assert!(!s.inst.sweep_hygiene(HYGIENE_ABSOLUTE_MS, 0, &s.stats, &s.pets));
    assert!(s.live("Haste", SELF_KEY));
    assert!(s
        .inst
        .sweep_hygiene(HYGIENE_ABSOLUTE_MS + 1, 0, &s.stats, &s.pets));
    assert!(!s.live("Haste", SELF_KEY));
    assert!(!s.record("Haste", SELF_KEY));
}

#[test]
fn a_debuff_is_culled_and_its_record_is_left() {
    let mut s = store();
    s.land("Odium", "a rat", 0);
    let a = s
        .inst
        .active
        .get(&instance_key("odium", "a rat"))
        .expect("a row");
    assert_eq!(unwitnessed_cull_cap(a), Some(90_000));
    assert_eq!(hygiene_cap(a, Some(30_000)), 21_600_000);
    assert_eq!(a.disposition, Some(Disposition::Hostile));
    assert!(!s.inst.sweep_hygiene(90_000, 0, &s.stats, &s.pets));
    assert!(s.inst.sweep_hygiene(90_001, 0, &s.stats, &s.pets));
    assert!(!s.live("Odium", "a rat"));
    assert!(s.record("Odium", "a rat"));
    // The record's own retention is the long one.
    s.inst
        .sweep_hygiene(HYGIENE_ABSOLUTE_MS + 1, 0, &s.stats, &s.pets);
    assert!(!s.record("Odium", "a rat"));
}

#[test]
fn two_in_one_second_are_two_mobs() {
    let mut s = store();
    s.land("Odium", "a rat", 1_000);
    s.land("Odium", "a rat", 1_500);
    let ik = instance_key("odium", "a rat");
    assert_eq!(s.inst.open.get(&ik).expect("a record").group.count(), 2);
    assert_eq!(s.inst.active.get(&ik).expect("a row").count, Some(2));
    s.inst
        .on_entity_death("a rat", 20_000, &mut s.stats, &s.pets);
    assert!(s.live("Odium", "a rat"));
    assert_eq!(s.inst.open.get(&ik).expect("a record").group.count(), 1);
    s.inst
        .on_entity_death("a bat", 21_000, &mut s.stats, &s.pets);
    assert!(s.live("Odium", "a rat"));
    s.inst
        .on_entity_death("a rat", 22_000, &mut s.stats, &s.pets);
    assert!(!s.live("Odium", "a rat"));
}

#[test]
fn an_absence_stops_a_buff_and_not_a_debuff() {
    let mut s = store();
    s.land("Haste", "self", 1_000);
    s.land("Odium", "Lord Nagafen", 2_000);
    s.inst.on_offline_pause(5_000, 60_000, &s.stats, &s.pets);
    let haste = s.inst.active.get(&instance_key("haste", SELF_KEY)).unwrap();
    assert_eq!(haste.started_ts, 61_000);
    let odium = s
        .inst
        .active
        .get(&instance_key("odium", "lord nagafen"))
        .unwrap();
    assert_eq!(odium.started_ts, 2_000);
    // A span that crossed an absence mints nothing.
    s.fade("Haste", SELF_KEY, 400_000);
    assert!(s.stats.clean_window_for("haste", SELF_CASTER).is_empty());
}

#[test]
fn what_predates_a_hole_goes() {
    let mut s = store();
    s.land("Haste", "self", 1_000);
    s.land("Alacrity", "self", 9_000);
    s.inst.begin_cast("odium".to_string(), 4_000);
    s.inst.drop_predating(5_000);
    assert!(!s.live("Haste", SELF_KEY));
    assert!(s.live("Alacrity", SELF_KEY));
    assert!(s.inst.pending.is_none());
    s.inst.clear_for_gap();
    assert_eq!(s.inst.active.len(), 0);
    assert_eq!(s.inst.open.len(), 0);
}

#[test]
fn a_cast_in_flight_opens_nothing() {
    let mut s = store();
    s.inst.begin_cast("odium".to_string(), 0);
    assert_eq!(s.inst.active.len(), 0);
    s.inst.clear_pending_cast("haste");
    assert!(s.inst.pending.is_some());
    s.inst.drop_unconfirmed_pending(LAND_TIMEOUT_MS - 1);
    assert!(s.inst.pending.is_some());
    s.inst.drop_unconfirmed_pending(LAND_TIMEOUT_MS);
    assert!(s.inst.pending.is_none());
    s.inst.begin_cast("odium".to_string(), 0);
    s.inst.clear_pending_cast("odium");
    assert!(s.inst.pending.is_none());
}

#[test]
fn a_death_strips_the_player_and_leaves_the_mob() {
    let mut s = store();
    s.land("Haste", "self", 0);
    s.land("Odium", "a rat", 0);
    s.inst.begin_cast("alacrity".to_string(), 0);
    s.inst.on_player_death(&s.stats, &s.pets);
    assert!(!s.live("Haste", SELF_KEY));
    assert!(s.live("Odium", "a rat"));
    assert!(s.inst.pending.is_none());
}

#[test]
fn a_zone_keeps_the_player_and_the_summoned_pet() {
    let mut s = store();
    s.pets.summoned_key = Some("gobober".to_string());
    s.pets.charmed_key = Some("a gnoll".to_string());
    s.land("Haste", "self", 0);
    s.land("Haste", "Gobober", 0);
    s.land("Haste", "a gnoll", 0);
    s.land("Odium", "a rat", 0);
    s.inst.on_zone(&s.stats, &mut s.pets);
    assert!(s.live("Haste", SELF_KEY));
    assert!(s.live("Haste", "gobober"));
    assert!(!s.live("Haste", "a gnoll"));
    assert!(!s.live("Odium", "a rat"));
    assert_eq!(s.pets.charmed_key, None);
    assert_eq!(s.pets.summoned_key.as_deref(), Some("gobober"));
    // The row shows the name as the log printed it.
    let a = s.inst.active.get(&instance_key("haste", "gobober")).unwrap();
    assert_eq!(a.target, "Gobober");

    s.inst.retire_entity("gobober", &mut s.pets);
    assert!(!s.live("Haste", "gobober"));
    assert_eq!(s.pets.summoned_key, None);
}

#[test]
fn a_shared_line_takes_every_candidate_that_is_live() {
    let mut s = store();
    s.land("Haste", "self", 0);
    s.land("Alacrity", "self", 0);
    s.inst.remove_shared_wear_off(
        &vec!["Odium".to_string()],
        SELF_KEY,
        10_000,
        &mut s.stats,
        &s.pets,
    );
    assert_eq!(s.inst.active.len(), 2);
    assert!(s.inst.expired.is_empty());
    s.inst.remove_shared_wear_off(
        &vec!["Haste III".to_string(), "Odium".to_string()],
        SELF_KEY,
        10_000,
        &mut s.stats,
        &s.pets,
    );
    assert!(!s.live("Haste", SELF_KEY));
    assert!(s.live("Alacrity", SELF_KEY));
    assert_eq!(s.inst.expired.len(), 1);
    assert_eq!(s.inst.expired[0].spell, "Haste");
    assert_eq!(
        s.stats.ever_faded,
        vec!["haste".to_string(), "alacrity".to_string()]
    );
}

#[test]
fn articles_begin_the_names_that_many_bear() {
    assert!(is_article_named("a rat"));
    assert!(is_article_named("an orc"));
    assert!(is_article_named("the fabled rat"));
    assert!(!is_article_named("anthony"));
    assert!(!is_article_named("lord nagafen"));
    assert_eq!(UNKNOWN_HOSTILE, "unknown-hostile");
}

#[test]
fn a_group_closes_its_oldest_first() {
    let mut g = HoldGroup::new(false);
    assert!(g.is_empty());
    assert!(g.close_oldest(5).is_none());
    g.land(1_000, false);
    g.land(1_900, false);
    g.land(2_500, false);
    // The third is in another second: it refreshes the newest.
    assert_eq!(g.count(), 2);
    assert_eq!(g.oldest_ts(), 1_000);
    assert_eq!(g.close_oldest(4_000).expect("a landing").sample_ms, Some(3_000));
    assert_eq!(g.oldest_ts(), 2_500);
    g.contaminate_all();
    assert_eq!(g.close_oldest(9_000).expect("a landing").sample_ms, None);
    let mut one = HoldGroup::new(true);
    one.land(1_000, false);
    one.land(1_001, false);
    assert_eq!(one.count(), 1);
    assert!(!one.shift_by(10, 1_000));
    assert!(one.shift_by(10, 1_001));
    assert_eq!(one.oldest_ts(), 1_011);
    one.drop_expired(1_010);
    assert_eq!(one.count(), 1);
    one.drop_expired(1_011);
    assert!(one.is_empty());
}

#[test]
fn a_map_keeps_the_order_keys_came_in() {
    let mut m: JsMap<String> = JsMap::new();
    m.insert("b".to_string(), "1".to_string());
    m.insert("a".to_string(), "2".to_string());
    m.insert("b".to_string(), "3".to_string());
    assert_eq!(m.keys(), vec!["b".to_string(), "a".to_string()]);
    assert_eq!(m.get("b").map(String::as_str), Some("3"));
    assert!(m.remove("b"));
    assert!(!m.remove("b"));
    m.insert("b".to_string(), "4".to_string());
    assert_eq!(m.keys(), vec!["a".to_string(), "b".to_string()]);
    *m.get_mut("a").expect("held") = "5".to_string();
    assert_eq!(m.value_at(0), "5");
    assert!(m.get_mut("z").is_none());
    m.clear();
    assert_eq!(m.len(), 0);
}
