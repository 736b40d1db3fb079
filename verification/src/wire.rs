//! What the engine says to a connection.
use crate::text::{copy_opt, opt_text};
use crate::views::{changes, copy_rows, row_views, Change, DiffOp, Row, RowV};
use vstd::prelude::*;

verus! {

/// Why an epoch is announced.
#[derive(Debug, Clone, Copy, PartialEq, Eq, Structural)]
pub enum EpochReason {
    /// A new generation begins.
    Attach,
    /// The fold of this generation has moved.
    Progress,
}

/// How far a fold has got.
#[derive(Debug, Clone, Copy, PartialEq, Eq, Structural)]
pub struct FoldProgress {
    /// The percentage, as the bits of the floating-point number that was measured.
    pub pct_bits: u64,
    pub events: i64,
    /// The mark itself.
    pub offset: i64,
    /// What the percentage was divided by.
    pub log_size: i64,
    /// Present only when true: the tail took this measurement, and not the scan.
    pub live: Option<bool>,
}

/// A generation, announced to every connection.
#[derive(Debug, Clone, Copy, PartialEq, Eq, Structural)]
pub struct EpochMessage {
    pub epoch: i64,
    pub reason: EpochReason,
    pub progress: Option<FoldProgress>,
}

/// A whole window, anew.
pub struct ResetMessage {
    pub id: i64,
    pub epoch: i64,
    pub total: i64,
    pub rows: Vec<Row>,
}

/// What changed of a window.
pub struct DiffMessage {
    pub id: i64,
    pub epoch: i64,
    /// Present only when it moved.
    pub total: Option<i64>,
    pub ops: Vec<DiffOp>,
}

/// An alert that fired, and what it says. An absent field says that there is nothing true to say
/// there.
pub struct Fire {
    pub at: i64,
    pub rule: String,
    pub sound: Option<String>,
    pub message: Option<String>,
    /// The named captures, as they are written on the wire.
    pub captures: Option<String>,
    pub spell: Option<String>,
    pub due_at: Option<i64>,
}

/// What a [`Fire`] states.
#[verifier::ext_equal]
pub struct Fired {
    pub at: i64,
    pub rule: Seq<char>,
    pub sound: Option<Seq<char>>,
    pub message: Option<Seq<char>>,
    pub captures: Option<Seq<char>>,
    pub spell: Option<Seq<char>>,
    pub due_at: Option<i64>,
}

impl View for Fire {
    type V = Fired;

    open spec fn view(&self) -> Fired {
        Fired {
            at: self.at,
            rule: self.rule@,
            sound: opt_text(self.sound),
            message: opt_text(self.message),
            captures: opt_text(self.captures),
            spell: opt_text(self.spell),
            due_at: self.due_at,
        }
    }
}

impl Fire {
    pub fn copy(&self) -> (r: Fire)
        ensures
            r@ == self@,
    {
        Fire {
            at: self.at,
            rule: self.rule.clone(),
            sound: copy_opt(&self.sound),
            message: copy_opt(&self.message),
            captures: copy_opt(&self.captures),
            spell: copy_opt(&self.spell),
            due_at: self.due_at,
        }
    }
}

/// Everything the engine says.
pub enum EngineMessage {
    EpochMessage(EpochMessage),
    ResetMessage(ResetMessage),
    DiffMessage(DiffMessage),
    FireMessage(Fire),
    /// A card, as it is written on the wire.
    ConCardMessage(String),
    /// A module moved, and the cursor it moved to.
    ModuleChangedMessage { module: String, seq: i64 },
    /// A name of a domain that the corpus could not answer.
    KnowledgeMissMessage { domain: String, name: String },
}

/// What an [`EngineMessage`] states.
#[verifier::ext_equal]
pub enum Said {
    Epoch(EpochMessage),
    Reset { id: i64, epoch: i64, total: i64, rows: Seq<RowV> },
    Diff { id: i64, epoch: i64, total_moved: Option<i64>, ops: Seq<Change> },
    Fire(Fired),
    ConCard(Seq<char>),
    ModuleChanged { module: Seq<char>, seq: i64 },
    KnowledgeMiss { domain: Seq<char>, name: Seq<char> },
}

impl View for EngineMessage {
    type V = Said;

    open spec fn view(&self) -> Said {
        match self {
            EngineMessage::EpochMessage(e) => Said::Epoch(*e),
            EngineMessage::ResetMessage(m) => Said::Reset {
                id: m.id,
                epoch: m.epoch,
                total: m.total,
                rows: row_views(m.rows@),
            },
            EngineMessage::DiffMessage(m) => Said::Diff {
                id: m.id,
                epoch: m.epoch,
                total_moved: m.total,
                ops: changes(m.ops@),
            },
            EngineMessage::FireMessage(f) => Said::Fire(f@),
            EngineMessage::ConCardMessage(card) => Said::ConCard(card@),
            EngineMessage::ModuleChangedMessage { module, seq } => Said::ModuleChanged {
                module: module@,
                seq: *seq,
            },
            EngineMessage::KnowledgeMissMessage { domain, name } => Said::KnowledgeMiss {
                domain: domain@,
                name: name@,
            },
        }
    }
}

fn copy_ops(v: &Vec<DiffOp>) -> (r: Vec<DiffOp>)
    ensures
        changes(r@) == changes(v@),
{
    let mut out: Vec<DiffOp> = Vec::new();
    let mut i: usize = 0;
    while i < v.len()
        invariant
            i <= v.len(),
            out.len() == i,
            forall|j: int| 0 <= j < i ==> (#[trigger] out@[j])@ == v@[j]@,
        decreases v.len() - i,
    {
        out.push(v[i].copy());
        i = i + 1;
    }
    assert(changes(out@) =~= changes(v@));
    out
}

impl EngineMessage {
    pub fn copy(&self) -> (r: EngineMessage)
        ensures
            r@ == self@,
    {
        match self {
            EngineMessage::EpochMessage(e) => EngineMessage::EpochMessage(*e),
            EngineMessage::ResetMessage(m) => {
                let rows = copy_rows(&m.rows, 0, m.rows.len());
                assert(row_views(m.rows@).subrange(0, m.rows@.len() as int) =~= row_views(m.rows@));
                EngineMessage::ResetMessage(
                    ResetMessage { id: m.id, epoch: m.epoch, total: m.total, rows },
                )
            },
            EngineMessage::DiffMessage(m) => EngineMessage::DiffMessage(
                DiffMessage {
                    id: m.id,
                    epoch: m.epoch,
                    total: m.total,
                    ops: copy_ops(&m.ops),
                },
            ),
            EngineMessage::FireMessage(f) => EngineMessage::FireMessage(f.copy()),
            EngineMessage::ConCardMessage(card) => EngineMessage::ConCardMessage(card.clone()),
            EngineMessage::ModuleChangedMessage { module, seq } => {
                EngineMessage::ModuleChangedMessage { module: module.clone(), seq: *seq }
            },
            EngineMessage::KnowledgeMissMessage { domain, name } => {
                EngineMessage::KnowledgeMissMessage { domain: domain.clone(), name: name.clone() }
            },
        }
    }
}

pub open spec fn said(v: Seq<EngineMessage>) -> Seq<Said> {
    v.map_values(|m: EngineMessage| m@)
}

} // verus!
