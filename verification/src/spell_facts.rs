//! The projected spell catalog: what the fold knows of a spell line before the log says anything.
use crate::buffs_shapes::DurationCategory;
use crate::jsmap::{Dict, JsMap};
use crate::text::opt_text;
use vstd::prelude::*;

verus! {

/// Whether a spell is good for the one it lands on.
#[derive(Clone, Copy, Debug, PartialEq, Eq, Structural)]
pub enum Nature {
    Beneficial,
    Detrimental,
    /// Nobody states it.
    Unstated,
}

/// One spell line of the catalog.
pub struct SpellRow {
    pub name: String,
    /// The duration the catalog states, in milliseconds.
    pub duration_ms: Option<i64>,
    /// The words the catalog states it in.
    pub duration_text: Option<String>,
    pub category: DurationCategory,
    pub illusion: bool,
    pub nature: Nature,
    /// The spell calms an enemy.
    pub calms_target: bool,
}

/// What a [`SpellRow`] states.
#[verifier::ext_equal]
pub struct Row {
    pub name: Seq<char>,
    pub duration_ms: Option<i64>,
    pub duration_text: Option<Seq<char>>,
    pub category: DurationCategory,
    pub illusion: bool,
    pub nature: Nature,
    pub calms_target: bool,
}

impl View for SpellRow {
    type V = Row;

    open spec fn view(&self) -> Row {
        Row {
            name: self.name@,
            duration_ms: self.duration_ms,
            duration_text: opt_text(self.duration_text),
            category: self.category,
            illusion: self.illusion,
            nature: self.nature,
            calms_target: self.calms_target,
        }
    }
}

/// The catalog, by spell line. An empty one means that there is no catalog at all.
pub struct SpellFacts {
    rows: JsMap<SpellRow>,
}

impl View for SpellFacts {
    type V = Dict<Row>;

    closed spec fn view(&self) -> Dict<Row> {
        self.rows@
    }
}

impl SpellFacts {
    pub fn new() -> (r: Self)
        ensures
            r@ == Dict::<Row>::empty(),
    {
        SpellFacts { rows: JsMap::new() }
    }

    pub fn insert(&mut self, key: String, row: SpellRow)
        ensures
            final(self)@ == old(self)@.put(key@, row@),
    {
        self.rows.insert(key, row);
    }

    pub fn get(&self, key: &str) -> (r: Option<&SpellRow>)
        ensures
            match r {
                Some(row) => self@.get(key@) == Some(row@),
                None => self@.get(key@) is None,
            },
    {
        self.rows.get(key)
    }
}

} // verus!
