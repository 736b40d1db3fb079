//! The entities the buff fold can tell apart by more than a name: the player's pets, and the casing a
//! name was last printed in.
use crate::buffs_shapes::{id_key, name_key, Disposition};
use crate::jsmap::{Dict, JsMap};
use crate::text::{opt_text, same};
use vstd::prelude::*;

verus! {

/// What a [`PetEntities`] knows.
#[verifier::ext_equal]
pub struct Pets {
    pub charmed_key: Option<Seq<char>>,
    pub summoned_key: Option<Seq<char>>,
    pub named_entity_display: Dict<Seq<char>>,
}

impl Pets {
    /// What the entity of a key is to the player.
    pub open spec fn disp_of_key(self, key: Seq<char>) -> Disposition {
        if self.charmed_key == Some(key) {
            Disposition::Charmed
        } else if self.summoned_key == Some(key) {
            Disposition::Summoned
        } else {
            Disposition::Hostile
        }
    }

    pub open spec fn disp_of_name(self, target: Seq<char>) -> Disposition {
        self.disp_of_key(name_key(target))
    }

    /// The casing a key was last printed in, or the key.
    pub open spec fn display(self, key: Seq<char>) -> Seq<char> {
        match self.named_entity_display.get(key) {
            Some(name) => name,
            None => key,
        }
    }

    pub open spec fn named(self, key: Seq<char>, name: Seq<char>) -> Pets {
        Pets { named_entity_display: self.named_entity_display.put(key, name), ..self }
    }

    /// An entity that is gone is nobody's pet.
    pub open spec fn retire_slots(self, key: Seq<char>) -> Pets {
        Pets {
            charmed_key: if self.charmed_key == Some(key) {
                None
            } else {
                self.charmed_key
            },
            summoned_key: if self.summoned_key == Some(key) {
                None
            } else {
                self.summoned_key
            },
            ..self
        }
    }

    /// A charmed pet stays behind; a summoned one follows.
    pub open spec fn clear_on_zone(self) -> Pets {
        Pets { charmed_key: None, ..self }
    }
}

/// The pets, and the names the log has printed.
pub struct PetEntities {
    pub charmed_key: Option<String>,
    pub summoned_key: Option<String>,
    /// The casing a canonical name key was last printed in.
    pub named_entity_display: JsMap<String>,
}

impl View for PetEntities {
    type V = Pets;

    open spec fn view(&self) -> Pets {
        Pets {
            charmed_key: opt_text(self.charmed_key),
            summoned_key: opt_text(self.summoned_key),
            named_entity_display: self.named_entity_display@,
        }
    }
}

/// Whether an optional key is this one.
pub fn is_key(slot: &Option<String>, key: &str) -> (r: bool)
    ensures
        r == (opt_text(*slot) == Some(key@)),
{
    match slot {
        Some(s) => same(s.as_str(), key),
        None => false,
    }
}

impl PetEntities {
    pub fn new() -> (r: Self)
        ensures
            r@ == (Pets {
                charmed_key: None,
                summoned_key: None,
                named_entity_display: Dict::empty(),
            }),
    {
        PetEntities { charmed_key: None, summoned_key: None, named_entity_display: JsMap::new() }
    }

    pub fn disp_for_key(&self, key: &str) -> (r: Disposition)
        ensures
            r == self@.disp_of_key(key@),
    {
        if is_key(&self.charmed_key, key) {
            Disposition::Charmed
        } else if is_key(&self.summoned_key, key) {
            Disposition::Summoned
        } else {
            Disposition::Hostile
        }
    }

    pub fn disp_for_named_target(&self, target: &str) -> (r: Disposition)
        ensures
            r == self@.disp_of_name(target@),
    {
        let key = id_key(target);
        self.disp_for_key(key.as_str())
    }

    pub fn target_display_for(&self, key: &str) -> (r: String)
        ensures
            r@ == self@.display(key@),
    {
        match self.named_entity_display.get(key) {
            Some(name) => name.clone(),
            None => key.to_owned(),
        }
    }

    pub fn retire_slots(&mut self, key: &str)
        ensures
            final(self)@ == old(self)@.retire_slots(key@),
    {
        if is_key(&self.charmed_key, key) {
            self.charmed_key = None;
        }
        if is_key(&self.summoned_key, key) {
            self.summoned_key = None;
        }
    }

    pub fn clear_on_zone(&mut self)
        ensures
            final(self)@ == old(self)@.clear_on_zone(),
    {
        self.charmed_key = None;
    }
}

} // verus!
