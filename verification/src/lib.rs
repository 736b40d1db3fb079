//! Folding an adventure log: buff and debuff timers, the zones a log's stamps are read in, and the
//! state an engine serves its windows from.
pub mod answer_laws;
pub mod buff_laws;
pub mod buff_rounds;
pub mod buffs_entities;
pub mod buffs_instance_rules;
pub mod buffs_instances;
pub mod buffs_shapes;
pub mod buffs_view;
pub mod buffs_stats;
pub mod calendar;
pub mod clock;
pub mod foldsink;
pub mod jsmap;
pub mod learner_laws;
pub mod name_laws;
pub mod sink_laws;
pub mod spell_facts;
pub mod sorted;
pub mod stamp_laws;
pub mod text;
pub mod timestamp;
pub mod translate;
pub mod view_laws;
pub mod views;
pub mod wire;
pub mod world;
pub mod world_laws;
