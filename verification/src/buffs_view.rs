//! The published row of a live instance, and its projection from what the fold knows.
use crate::buffs_entities::{PetEntities, Pets};
use crate::buffs_shapes::{
    opt_quarters, BuffClass, Disposition, EstimatorSource, QuarterMs, SELF_CASTER, SELF_KEY,
    UNKNOWN_HOSTILE,
};
use crate::buffs_stats::{Estimate, Learned, SpellStats};
use crate::text::{copy_list, copy_opt, opt_text, same, texts};
use vstd::prelude::*;

verus! {

/// One live instance, as it is shown.
pub struct ActiveBuff {
    pub spell: String,
    /// The ranked text the cast line spelled. Display only.
    pub cast_name: Option<String>,
    /// The entity it is on, as the log prints its name.
    pub target: String,
    pub started_ts: i64,
    pub is_self: bool,
    pub cls: BuffClass,
    pub disposition: Option<Disposition>,
    /// The target was never named.
    pub inferred_target: Option<bool>,
    /// The third quartile of the measured cycles.
    pub p75: Option<QuarterMs>,
    /// How many cycles were measured.
    pub n: usize,
    /// What the row counts down from; absent, it counts up.
    pub overlay_duration_ms: Option<i64>,
    pub overlay_source: Option<EstimatorSource>,
    pub permanent: Option<bool>,
    pub caster: Option<String>,
    pub count: Option<usize>,
    pub candidates: Option<Vec<String>>,
    pub message_driven: Option<bool>,
}

/// What an [`ActiveBuff`] states.
#[verifier::ext_equal]
pub struct Active {
    pub spell: Seq<char>,
    pub cast_name: Option<Seq<char>>,
    pub target: Seq<char>,
    pub started_ts: i64,
    pub is_self: bool,
    pub cls: BuffClass,
    pub disposition: Option<Disposition>,
    pub inferred_target: Option<bool>,
    pub p75: Option<int>,
    pub n: int,
    pub overlay_duration_ms: Option<i64>,
    pub overlay_source: Option<EstimatorSource>,
    pub permanent: Option<bool>,
    pub caster: Option<Seq<char>>,
    pub count: Option<int>,
    pub candidates: Option<Seq<Seq<char>>>,
    pub message_driven: Option<bool>,
}

pub open spec fn opt_texts(o: Option<Vec<String>>) -> Option<Seq<Seq<char>>> {
    match o {
        Some(v) => Some(texts(v@)),
        None => None,
    }
}

pub open spec fn opt_count(o: Option<usize>) -> Option<int> {
    match o {
        Some(n) => Some(n as int),
        None => None,
    }
}

impl View for ActiveBuff {
    type V = Active;

    open spec fn view(&self) -> Active {
        Active {
            spell: self.spell@,
            cast_name: opt_text(self.cast_name),
            target: self.target@,
            started_ts: self.started_ts,
            is_self: self.is_self,
            cls: self.cls,
            disposition: self.disposition,
            inferred_target: self.inferred_target,
            p75: opt_quarters(self.p75),
            n: self.n as int,
            overlay_duration_ms: self.overlay_duration_ms,
            overlay_source: self.overlay_source,
            permanent: self.permanent,
            caster: opt_text(self.caster),
            count: opt_count(self.count),
            candidates: opt_texts(self.candidates),
            message_driven: self.message_driven,
        }
    }
}

/// What a row is projected from.
pub struct ActiveSpec {
    pub spell: String,
    pub cast_name: Option<String>,
    pub key: String,
    pub entity_key: String,
    pub started_ts: i64,
    pub disp_override: Option<Disposition>,
    pub caster: Option<String>,
    pub count: Option<usize>,
    pub candidates: Option<Vec<String>>,
    pub message_driven: bool,
    pub permanent: bool,
}

/// What an [`ActiveSpec`] states.
#[verifier::ext_equal]
pub struct RowSpec {
    pub spell: Seq<char>,
    pub cast_name: Option<Seq<char>>,
    pub key: Seq<char>,
    pub entity_key: Seq<char>,
    pub started_ts: i64,
    pub disp_override: Option<Disposition>,
    pub caster: Option<Seq<char>>,
    pub count: Option<int>,
    pub candidates: Option<Seq<Seq<char>>>,
    pub message_driven: bool,
    pub permanent: bool,
}

impl View for ActiveSpec {
    type V = RowSpec;

    open spec fn view(&self) -> RowSpec {
        RowSpec {
            spell: self.spell@,
            cast_name: opt_text(self.cast_name),
            key: self.key@,
            entity_key: self.entity_key@,
            started_ts: self.started_ts,
            disp_override: self.disp_override,
            caster: opt_text(self.caster),
            count: opt_count(self.count),
            candidates: opt_texts(self.candidates),
            message_driven: self.message_driven,
            permanent: self.permanent,
        }
    }
}

pub open spec fn flag(b: bool) -> Option<bool> {
    if b {
        Some(true)
    } else {
        None
    }
}

impl RowSpec {
    pub open spec fn caster_key(self) -> Seq<char> {
        match self.caster {
            Some(c) => c,
            None => SELF_CASTER@,
        }
    }

    pub open spec fn disposition(self, pets: Pets) -> Disposition {
        match self.disp_override {
            Some(d) => d,
            None => if self.entity_key == SELF_KEY@ {
                Disposition::Zelf
            } else {
                pets.disp_of_key(self.entity_key)
            },
        }
    }

    /// The row: the instance as it is described, with the class, the distribution and the estimate
    /// that the learner holds for its line and caster. A permanent row has nothing to count down.
    pub open spec fn project(self, stats: Learned, pets: Pets) -> Active {
        let st = stats.stat(self.key, self.caster_key());
        let est = stats.estimate(self.key, self.caster_key());
        Active {
            spell: self.spell,
            cast_name: self.cast_name,
            target: pets.display(self.entity_key),
            started_ts: self.started_ts,
            is_self: self.entity_key == SELF_KEY@,
            cls: stats.class(self.key),
            disposition: Some(self.disposition(pets)),
            inferred_target: flag(self.entity_key == UNKNOWN_HOSTILE@),
            p75: match st {
                Some(s) => s.p75,
                None => None,
            },
            n: match st {
                Some(s) => s.n,
                None => 0,
            },
            overlay_duration_ms: if self.permanent {
                None
            } else {
                est.ms
            },
            overlay_source: if self.permanent {
                None
            } else {
                est.source
            },
            permanent: flag(self.permanent),
            caster: self.caster,
            count: self.count,
            candidates: self.candidates,
            message_driven: flag(self.message_driven),
        }
    }
}

fn flag_of(b: bool) -> (r: Option<bool>)
    ensures
        r == flag(b),
{
    if b {
        Some(true)
    } else {
        None
    }
}

/// A copy of an optional list of texts.
pub fn copy_opt_list(o: &Option<Vec<String>>) -> (r: Option<Vec<String>>)
    ensures
        opt_texts(r) == opt_texts(*o),
{
    match o {
        Some(v) => Some(copy_list(v)),
        None => None,
    }
}

/// The row an instance is shown as.
pub fn build_active(spec: &ActiveSpec, stats: &SpellStats, pets: &PetEntities) -> (r: ActiveBuff)
    ensures
        r@ == spec@.project(stats@, pets@),
{
    let caster: String = match &spec.caster {
        Some(c) => c.clone(),
        None => SELF_CASTER.to_owned(),
    };
    let is_self: bool = same(spec.entity_key.as_str(), SELF_KEY);
    let disposition: Disposition = match spec.disp_override {
        Some(d) => d,
        None => if is_self {
            Disposition::Zelf
        } else {
            pets.disp_for_key(spec.entity_key.as_str())
        },
    };
    let st = stats.stat_for(spec.key.as_str(), caster.as_str());
    let est: Estimate = stats.estimate_for(spec.key.as_str(), caster.as_str());
    let (p75, n): (Option<QuarterMs>, usize) = match &st {
        Some(s) => (s.p75, s.n),
        None => (None, 0),
    };
    ActiveBuff {
        spell: spec.spell.clone(),
        cast_name: copy_opt(&spec.cast_name),
        target: pets.target_display_for(spec.entity_key.as_str()),
        started_ts: spec.started_ts,
        is_self,
        cls: stats.class_of(spec.key.as_str()),
        disposition: Some(disposition),
        inferred_target: flag_of(same(spec.entity_key.as_str(), UNKNOWN_HOSTILE)),
        p75,
        n,
        overlay_duration_ms: if spec.permanent {
            None
        } else {
            est.ms
        },
        overlay_source: if spec.permanent {
            None
        } else {
            est.source
        },
        permanent: flag_of(spec.permanent),
        caster: copy_opt(&spec.caster),
        count: spec.count,
        candidates: copy_opt_list(&spec.candidates),
        message_driven: flag_of(spec.message_driven),
    }
}

} // verus!
