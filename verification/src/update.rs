//! An update as one transaction.
//!
//! Whatever fails on the way, everything that was changed is brought back: the
//! pinned sources from where they were set aside, the other packages to the
//! versions that were noted before. What was installed is recorded only once
//! all of it is in place and a line was spoken with it. What could not be
//! brought back is tried again before the next update.
//!
//! The steps are decided here; what each of them asks for (running pip, moving
//! files, asking Python) happens outside, and what came of it is handed back.
use vstd::prelude::*;

use crate::gate::{gate_verdict, GateOutcome, GateVerdict};
use crate::gate;
use crate::names::NameMap;
use crate::names;
use crate::plan::UpdatePlan;
use crate::text::{has_name, join, owned, push_text};
use crate::text;
use crate::versions::{
    cuda_torch_replaced, import_regressions, left_behind, split_by_index, versions_to_restore,
    ImportCheck,
};
use crate::versions;

verus! {

/// Why an update was given up before anything was changed.
#[derive(Clone, Copy, Debug, PartialEq, Eq, Structural)]
pub enum Failure {
    /// What an earlier update had set aside could not be brought back.
    OldBackups,
    /// The versions could not be asked for to clean up after an earlier update.
    OldVersions,
    /// What an earlier update had changed could not all be brought back.
    OldLeft,
    /// The versions before the update could not be noted.
    NoVersions,
    /// The note of the versions could not be written.
    NoSnapshot,
}

/// Why an update is undone.
#[derive(Clone, Copy, Debug, PartialEq, Eq, Structural)]
pub enum Cause {
    TorchInstall,
    OtherInstall,
    Versions,
    TorchLost,
    Regressed,
    Aside,
    Mark,
    PinInstall(usize),
    Models,
    /// There was not enough memory on the GPU for the check.
    Vram,
    /// The check failed.
    Broken,
}

/// How an update ended.
#[derive(Clone, Copy, Debug, PartialEq, Eq, Structural)]
pub enum Ending {
    /// Everything was installed and recorded.
    Updated,
    /// Everything was installed, but could not be recorded.
    NotRecorded,
    /// Nothing was changed.
    Refused(Failure),
    /// It was undone; `clean` says whether everything was brought back.
    Undone { cause: Cause, clean: bool },
}

/// Where an update stands: what has been asked for and not been answered yet.
#[derive(Clone, Copy, Debug, PartialEq, Eq, Structural)]
pub enum Stage {
    LookOld,
    RestoreOld,
    DropOld,
    ReadOld,
    AskOld,
    TorchOld { other: bool },
    OtherOld,
    AskOldAgain,
    ForgetOld,
    Imports,
    Cuda,
    Versions,
    Snapshot,
    Torch,
    AskHold,
    Other,
    AskAfter,
    ImportsAfter,
    Aside(usize),
    UndoAside(usize),
    Mark(usize),
    Pin(usize),
    PinImports(usize),
    Models,
    Gate,
    Look(Cause),
    Restore(Cause),
    Drop(Cause),
    AskUndo(Cause),
    TorchUndo { cause: Cause, other: bool },
    OtherUndo(Cause),
    AskUndoAgain(Cause),
    Forget(Cause),
    Recheck { cause: Cause, clean: bool },
    CloseBackups,
    CloseSnapshot,
    Record,
    Done(Ending),
}

/// What is to be done.
#[derive(Clone, Copy, Debug, PartialEq, Eq, Structural)]
pub enum UpdateAction {
    /// See whether anything is set aside.
    LookForBackups,
    /// Bring back everything that is set aside.
    RestoreBackups,
    /// Throw away what was set aside.
    DropBackups,
    /// See whether versions are noted.
    ReadSnapshot,
    /// Note the versions.
    WriteSnapshot,
    /// Throw away the note.
    RemoveSnapshot,
    /// Ask for the versions of everything.
    AskVersions,
    /// Bring PyTorch back to the versions noted.
    RestoreTorch,
    /// Bring the other packages back to the versions noted.
    RestoreOther,
    /// See which modules can be imported.
    CheckImports,
    /// See whether CUDA can be used.
    ProbeCuda,
    /// Install PyTorch anew.
    InstallTorch,
    /// Install the other packages anew, PyTorch held to its version.
    InstallOther,
    /// Set a pinned source aside.
    SetAside(usize),
    /// Bring a pinned source back that was set aside in part.
    UndoAside(usize),
    /// Mark a pinned source as set aside completely.
    MarkAside(usize),
    /// Install a pinned source anew.
    InstallPin(usize),
    /// Fetch the models.
    FetchModels,
    /// Speak a line with what was installed.
    Speak,
    /// Speak a line with what was brought back.
    SpeakAgain,
    /// Record what was installed.
    Record,
    /// Nothing: the update has ended.
    Finish(Ending),
}

/// What came of it.
#[derive(Clone, Copy, Debug, PartialEq, Eq, Structural)]
pub enum UpdateEvent {
    Done,
    Failed,
    Found,
    Missing,
    /// Nothing has to be brought back to the versions noted.
    Unchanged,
    /// Something has: of PyTorch, of the other packages, or of both.
    Changed { torch: bool, other: bool },
    /// Everything is back in the versions noted.
    Restored,
    /// Something is not.
    LeftBehind,
    /// PyTorch with CUDA is still there, or never was.
    TorchKept,
    TorchLost,
    /// Everything that could be imported before can be now.
    StillImports,
    Regressed,
    /// The check says to keep the update.
    Kept,
    /// The check says that there was not enough memory on the GPU.
    NoVram,
    /// The check says to undo the update.
    Broken,
}

/// An update under way: what is planned, where it stands, and what is true of
/// the environment so far.
#[derive(Clone, Copy, Debug, PartialEq, Eq, Structural)]
pub struct Update {
    pub torch: bool,
    pub other: bool,
    pub pins: usize,
    pub models: bool,
    /// Anything at all is installed anew.
    pub any: bool,
    pub stage: Stage,
    /// The versions before this update are noted.
    pub noted: bool,
    /// Something may have been changed.
    pub touched: bool,
    /// Something could not be brought back.
    pub left: bool,
    /// The check said to keep the update, or there was nothing to check.
    pub approved: bool,
}

/// The plan changes packages.
pub open spec fn changes(u: Update) -> bool {
    u.torch || u.other || u.pins > 0
}

/// What is to be done at a stage.
pub open spec fn action_at(s: Stage) -> UpdateAction {
    match s {
        Stage::LookOld => UpdateAction::LookForBackups,
        Stage::RestoreOld => UpdateAction::RestoreBackups,
        Stage::DropOld => UpdateAction::DropBackups,
        Stage::ReadOld => UpdateAction::ReadSnapshot,
        Stage::AskOld => UpdateAction::AskVersions,
        Stage::TorchOld { .. } => UpdateAction::RestoreTorch,
        Stage::OtherOld => UpdateAction::RestoreOther,
        Stage::AskOldAgain => UpdateAction::AskVersions,
        Stage::ForgetOld => UpdateAction::RemoveSnapshot,
        Stage::Imports => UpdateAction::CheckImports,
        Stage::Cuda => UpdateAction::ProbeCuda,
        Stage::Versions => UpdateAction::AskVersions,
        Stage::Snapshot => UpdateAction::WriteSnapshot,
        Stage::Torch => UpdateAction::InstallTorch,
        Stage::AskHold => UpdateAction::AskVersions,
        Stage::Other => UpdateAction::InstallOther,
        Stage::AskAfter => UpdateAction::AskVersions,
        Stage::ImportsAfter => UpdateAction::CheckImports,
        Stage::Aside(i) => UpdateAction::SetAside(i),
        Stage::UndoAside(i) => UpdateAction::UndoAside(i),
        Stage::Mark(i) => UpdateAction::MarkAside(i),
        Stage::Pin(i) => UpdateAction::InstallPin(i),
        Stage::PinImports(_) => UpdateAction::CheckImports,
        Stage::Models => UpdateAction::FetchModels,
        Stage::Gate => UpdateAction::Speak,
        Stage::Look(_) => UpdateAction::LookForBackups,
        Stage::Restore(_) => UpdateAction::RestoreBackups,
        Stage::Drop(_) => UpdateAction::DropBackups,
        Stage::AskUndo(_) => UpdateAction::AskVersions,
        Stage::TorchUndo { .. } => UpdateAction::RestoreTorch,
        Stage::OtherUndo(_) => UpdateAction::RestoreOther,
        Stage::AskUndoAgain(_) => UpdateAction::AskVersions,
        Stage::Forget(_) => UpdateAction::RemoveSnapshot,
        Stage::Recheck { .. } => UpdateAction::SpeakAgain,
        Stage::CloseBackups => UpdateAction::DropBackups,
        Stage::CloseSnapshot => UpdateAction::RemoveSnapshot,
        Stage::Record => UpdateAction::Record,
        Stage::Done(e) => UpdateAction::Finish(e),
    }
}

/// The event answers what was asked for at the stage.
pub open spec fn answers(s: Stage, e: UpdateEvent) -> bool {
    match s {
        Stage::LookOld | Stage::ReadOld | Stage::Look(_) => e == UpdateEvent::Found || e
            == UpdateEvent::Missing,
        Stage::AskOld | Stage::AskUndo(_) => e == UpdateEvent::Failed || e
            == UpdateEvent::Unchanged || (e matches UpdateEvent::Changed { torch, other } && (
        torch || other)),
        Stage::AskOldAgain | Stage::AskUndoAgain(_) => e == UpdateEvent::Failed || e
            == UpdateEvent::Restored || e == UpdateEvent::LeftBehind,
        Stage::AskAfter => e == UpdateEvent::Failed || e == UpdateEvent::TorchKept || e
            == UpdateEvent::TorchLost,
        Stage::ImportsAfter | Stage::PinImports(_) => e == UpdateEvent::StillImports || e
            == UpdateEvent::Regressed,
        Stage::Gate => e == UpdateEvent::Kept || e == UpdateEvent::NoVram || e
            == UpdateEvent::Broken,
        Stage::Done(_) => false,
        _ => e == UpdateEvent::Done || e == UpdateEvent::Failed,
    }
}

/// The check: where nothing was installed, there is nothing to check.
pub open spec fn to_gate(u: Update) -> Update {
    if u.any {
        Update { stage: Stage::Gate, ..u }
    } else {
        Update { stage: Stage::CloseBackups, approved: true, ..u }
    }
}

/// The pinned source of that number, or what comes behind the last one.
pub open spec fn to_pin(u: Update, i: int) -> Update {
    if i < u.pins {
        Update { stage: Stage::Aside(i as usize), touched: true, ..u }
    } else if u.models {
        Update { stage: Stage::Models, touched: true, ..u }
    } else {
        to_gate(u)
    }
}

/// The first thing that is installed.
pub open spec fn to_install(u: Update) -> Update {
    if u.torch {
        Update { stage: Stage::Torch, touched: true, ..u }
    } else if u.other {
        Update { stage: Stage::AskHold, ..u }
    } else {
        to_pin(u, 0)
    }
}

/// Undoing everything, for the given cause.
pub open spec fn to_undo(u: Update, cause: Cause) -> Update {
    Update { stage: Stage::Look(cause), ..u }
}

/// Behind the undoing: where the check failed it is made again, to tell
/// whether the update was to blame.
pub open spec fn after_undo(u: Update, cause: Cause) -> Update {
    if cause == Cause::Broken {
        Update { stage: Stage::Recheck { cause, clean: !u.left }, ..u }
    } else {
        Update { stage: Stage::Done(Ending::Undone { cause, clean: !u.left }), ..u }
    }
}

/// Once everything that can be is brought back: the note of the versions goes
/// only if nothing is left.
pub open spec fn to_settle(u: Update, cause: Cause) -> Update {
    if u.left {
        after_undo(u, cause)
    } else {
        Update { stage: Stage::Forget(cause), ..u }
    }
}

/// Bringing the versions back, where packages were changed.
pub open spec fn to_versions_back(u: Update, cause: Cause) -> Update {
    if changes(u) {
        Update { stage: Stage::AskUndo(cause), ..u }
    } else {
        to_settle(u, cause)
    }
}

/// The end, before anything was changed.
pub open spec fn refuse(u: Update, f: Failure) -> Update {
    Update { stage: Stage::Done(Ending::Refused(f)), ..u }
}

/// The update after an event.
pub open spec fn update_after(u: Update, e: UpdateEvent) -> Update {
    let ok = e == UpdateEvent::Done;
    match u.stage {
        Stage::LookOld => if e == UpdateEvent::Found {
            Update { stage: Stage::RestoreOld, ..u }
        } else {
            Update { stage: Stage::ReadOld, ..u }
        },
        Stage::RestoreOld => if ok {
            Update { stage: Stage::DropOld, ..u }
        } else {
            refuse(u, Failure::OldBackups)
        },
        Stage::DropOld => Update { stage: Stage::ReadOld, ..u },
        Stage::ReadOld => if e == UpdateEvent::Found {
            Update { stage: Stage::AskOld, ..u }
        } else {
            Update { stage: Stage::Imports, ..u }
        },
        Stage::AskOld => match e {
            UpdateEvent::Unchanged => Update { stage: Stage::ForgetOld, ..u },
            UpdateEvent::Changed { torch, other } => if torch {
                Update { stage: Stage::TorchOld { other }, ..u }
            } else {
                Update { stage: Stage::OtherOld, ..u }
            },
            _ => refuse(u, Failure::OldVersions),
        },
        Stage::TorchOld { other } => if other {
            Update { stage: Stage::OtherOld, ..u }
        } else {
            Update { stage: Stage::AskOldAgain, ..u }
        },
        Stage::OtherOld => Update { stage: Stage::AskOldAgain, ..u },
        Stage::AskOldAgain => match e {
            UpdateEvent::Restored => Update { stage: Stage::ForgetOld, ..u },
            UpdateEvent::LeftBehind => refuse(u, Failure::OldLeft),
            _ => refuse(u, Failure::OldVersions),
        },
        Stage::ForgetOld => Update { stage: Stage::Imports, ..u },
        Stage::Imports => if changes(u) {
            Update { stage: Stage::Cuda, ..u }
        } else {
            to_install(u)
        },
        Stage::Cuda => Update { stage: Stage::Versions, ..u },
        Stage::Versions => if ok {
            Update { stage: Stage::Snapshot, ..u }
        } else {
            refuse(u, Failure::NoVersions)
        },
        Stage::Snapshot => if ok {
            to_install(Update { noted: true, ..u })
        } else {
            refuse(u, Failure::NoSnapshot)
        },
        Stage::Torch => if !ok {
            to_undo(u, Cause::TorchInstall)
        } else if u.other {
            Update { stage: Stage::AskHold, ..u }
        } else {
            Update { stage: Stage::AskAfter, ..u }
        },
        Stage::AskHold => if ok {
            Update { stage: Stage::Other, touched: true, ..u }
        } else {
            to_undo(u, Cause::Versions)
        },
        Stage::Other => if ok {
            Update { stage: Stage::AskAfter, ..u }
        } else {
            to_undo(u, Cause::OtherInstall)
        },
        Stage::AskAfter => match e {
            UpdateEvent::TorchKept => Update { stage: Stage::ImportsAfter, ..u },
            UpdateEvent::TorchLost => to_undo(u, Cause::TorchLost),
            _ => to_undo(u, Cause::Versions),
        },
        Stage::ImportsAfter => if e == UpdateEvent::StillImports {
            to_pin(u, 0)
        } else {
            to_undo(u, Cause::Regressed)
        },
        Stage::Aside(i) => if ok {
            Update { stage: Stage::Mark(i), ..u }
        } else {
            Update { stage: Stage::UndoAside(i), ..u }
        },
        Stage::UndoAside(_) => to_undo(u, Cause::Aside),
        Stage::Mark(i) => if ok {
            Update { stage: Stage::Pin(i), ..u }
        } else {
            to_undo(u, Cause::Mark)
        },
        Stage::Pin(i) => if ok {
            Update { stage: Stage::PinImports(i), ..u }
        } else {
            to_undo(u, Cause::PinInstall(i))
        },
        Stage::PinImports(i) => if e == UpdateEvent::StillImports {
            to_pin(u, i + 1)
        } else {
            to_undo(u, Cause::Regressed)
        },
        Stage::Models => if ok {
            to_gate(u)
        } else {
            to_undo(u, Cause::Models)
        },
        Stage::Gate => match e {
            UpdateEvent::Kept => Update { stage: Stage::CloseBackups, approved: true, ..u },
            UpdateEvent::NoVram => to_undo(u, Cause::Vram),
            _ => to_undo(u, Cause::Broken),
        },
        Stage::Look(cause) => if e == UpdateEvent::Found {
            Update { stage: Stage::Restore(cause), ..u }
        } else {
            to_versions_back(u, cause)
        },
        Stage::Restore(cause) => if ok {
            Update { stage: Stage::Drop(cause), ..u }
        } else {
            to_versions_back(Update { left: true, ..u }, cause)
        },
        Stage::Drop(cause) => to_versions_back(u, cause),
        Stage::AskUndo(cause) => match e {
            UpdateEvent::Unchanged => to_settle(u, cause),
            UpdateEvent::Changed { torch, other } => if torch {
                Update { stage: Stage::TorchUndo { cause, other }, ..u }
            } else {
                Update { stage: Stage::OtherUndo(cause), ..u }
            },
            _ => to_settle(Update { left: true, ..u }, cause),
        },
        Stage::TorchUndo { cause, other } => if other {
            Update { stage: Stage::OtherUndo(cause), ..u }
        } else {
            Update { stage: Stage::AskUndoAgain(cause), ..u }
        },
        Stage::OtherUndo(cause) => Update { stage: Stage::AskUndoAgain(cause), ..u },
        Stage::AskUndoAgain(cause) => if e == UpdateEvent::Restored {
            to_settle(u, cause)
        } else {
            to_settle(Update { left: true, ..u }, cause)
        },
        Stage::Forget(cause) => after_undo(Update { noted: false, ..u }, cause),
        Stage::Recheck { cause, clean } => Update {
            stage: Stage::Done(Ending::Undone { cause, clean }),
            ..u
        },
        Stage::CloseBackups => Update { stage: Stage::CloseSnapshot, ..u },
        Stage::CloseSnapshot => Update { stage: Stage::Record, noted: false, ..u },
        Stage::Record => if ok {
            Update { stage: Stage::Done(Ending::Updated), ..u }
        } else {
            Update { stage: Stage::Done(Ending::NotRecorded), ..u }
        },
        Stage::Done(_) => u,
    }
}

/// The stage comes before anything is changed.
pub open spec fn is_early(s: Stage) -> bool {
    match s {
        Stage::LookOld | Stage::RestoreOld | Stage::DropOld | Stage::ReadOld | Stage::AskOld => true,
        Stage::TorchOld { .. } => true,
        Stage::OtherOld | Stage::AskOldAgain | Stage::ForgetOld => true,
        Stage::Imports | Stage::Cuda | Stage::Versions | Stage::Snapshot => true,
        Stage::Done(Ending::Refused(_)) => true,
        _ => false,
    }
}

/// The stage changes packages, or comes between such changes.
pub open spec fn is_installing(s: Stage) -> bool {
    match s {
        Stage::Torch | Stage::AskHold | Stage::Other | Stage::AskAfter | Stage::ImportsAfter => true,
        Stage::Aside(_) | Stage::UndoAside(_) | Stage::Mark(_) | Stage::Pin(_) => true,
        Stage::PinImports(_) => true,
        _ => false,
    }
}

/// The stage undoes the update.
pub open spec fn is_undoing(s: Stage) -> bool {
    match s {
        Stage::Look(_) | Stage::Restore(_) | Stage::Drop(_) | Stage::AskUndo(_) => true,
        Stage::TorchUndo { .. } => true,
        Stage::OtherUndo(_) | Stage::AskUndoAgain(_) | Stage::Forget(_) => true,
        _ => false,
    }
}

/// The stage keeps the update.
pub open spec fn is_closing(s: Stage) -> bool {
    match s {
        Stage::CloseBackups | Stage::CloseSnapshot | Stage::Record => true,
        Stage::Done(Ending::Updated) | Stage::Done(Ending::NotRecorded) => true,
        _ => false,
    }
}

/// What is true of the environment fits where the update stands.
pub open spec fn update_wf(u: Update) -> bool {
    &&& changes(u) || u.models ==> u.any
    &&& is_early(u.stage) ==> !u.touched && !u.noted && !u.left && !u.approved
    &&& is_installing(u.stage) ==> changes(u) && u.noted && !u.left && !u.approved
    &&& u.stage is Models ==> u.models && (changes(u) ==> u.noted) && !u.left && !u.approved
    &&& u.stage is Gate ==> u.any && (changes(u) ==> u.noted) && !u.left && !u.approved
    &&& is_undoing(u.stage) ==> (changes(u) ==> u.noted) && !u.approved
    &&& u.stage is Forget ==> !u.left
    &&& is_closing(u.stage) ==> u.approved && !u.left
    &&& u.stage is CloseBackups ==> (changes(u) ==> u.noted)
    &&& (u.stage is Record || u.stage == Stage::Done(Ending::Updated) || u.stage == Stage::Done(
        Ending::NotRecorded,
    )) ==> !u.noted
    &&& u.stage matches Stage::Recheck { cause, clean } ==> clean == !u.left && (changes(u)
        ==> u.noted == u.left) && !u.approved
    &&& u.stage matches Stage::Done(Ending::Undone { cause, clean }) ==> clean == !u.left && (
    changes(u) ==> u.noted == u.left) && !u.approved
    &&& u.stage matches Stage::Aside(i) ==> i < u.pins
    &&& u.stage matches Stage::UndoAside(i) ==> i < u.pins
    &&& u.stage matches Stage::Mark(i) ==> i < u.pins
    &&& u.stage matches Stage::Pin(i) ==> i < u.pins
    &&& u.stage matches Stage::PinImports(i) ==> i < u.pins
    &&& u.stage is Torch ==> u.torch
    &&& (u.stage is Torch || u.stage is Other || u.stage is AskAfter || u.stage is ImportsAfter)
        ==> u.touched
    &&& (u.stage is Aside || u.stage is Mark || u.stage is Pin || u.stage is PinImports)
        ==> u.touched
}

/// How many steps may still come.
pub open spec fn steps_left(u: Update) -> int {
    let pins = 4 * u.pins;
    match u.stage {
        Stage::LookOld => 60 + pins,
        Stage::RestoreOld => 59 + pins,
        Stage::DropOld => 58 + pins,
        Stage::ReadOld => 57 + pins,
        Stage::AskOld => 56 + pins,
        Stage::TorchOld { .. } => 55 + pins,
        Stage::OtherOld => 54 + pins,
        Stage::AskOldAgain => 53 + pins,
        Stage::ForgetOld => 52 + pins,
        Stage::Imports => 51 + pins,
        Stage::Cuda => 50 + pins,
        Stage::Versions => 49 + pins,
        Stage::Snapshot => 48 + pins,
        Stage::Torch => 47 + pins,
        Stage::AskHold => 46 + pins,
        Stage::Other => 45 + pins,
        Stage::AskAfter => 44 + pins,
        Stage::ImportsAfter => 43 + pins,
        Stage::Aside(i) => 38 + 4 * (u.pins - i),
        Stage::Mark(i) => 37 + 4 * (u.pins - i),
        Stage::Pin(i) => 36 + 4 * (u.pins - i),
        Stage::PinImports(i) => 35 + 4 * (u.pins - i),
        Stage::UndoAside(i) => 35,
        Stage::Models => 34,
        Stage::Gate => 33,
        Stage::Look(_) => 20,
        Stage::Restore(_) => 19,
        Stage::Drop(_) => 18,
        Stage::AskUndo(_) => 17,
        Stage::TorchUndo { .. } => 16,
        Stage::OtherUndo(_) => 15,
        Stage::AskUndoAgain(_) => 14,
        Stage::Forget(_) => 13,
        Stage::Recheck { .. } => 12,
        Stage::CloseBackups => 3,
        Stage::CloseSnapshot => 2,
        Stage::Record => 1,
        Stage::Done(_) => 0,
    }
}

/// What is true of the environment keeps fitting where the update stands.
#[verifier::rlimit(60)]
#[verifier::spinoff_prover]
proof fn lemma_step_wf(u: Update, e: UpdateEvent)
    requires
        update_wf(u),
        answers(u.stage, e),
    ensures
        update_wf(update_after(u, e)),
{
}

/// Every step brings the end nearer.
#[verifier::rlimit(60)]
#[verifier::spinoff_prover]
proof fn lemma_step_nears_end(u: Update, e: UpdateEvent)
    requires
        update_wf(u),
        answers(u.stage, e),
    ensures
        0 <= steps_left(update_after(u, e)) < steps_left(u),
{
}

impl Update {
    /// An update according to a plan, at its beginning.
    pub fn new(plan: &UpdatePlan) -> (r: Self)
        requires
            plan.changes_packages() || plan.models ==> plan.names@.len() > 0,
        ensures
            update_wf(r),
            r == (Update {
                torch: plan.torch@.len() > 0,
                other: plan.other@.len() > 0,
                pins: plan.pins@.len() as usize,
                models: plan.models,
                any: plan.names@.len() > 0,
                stage: Stage::LookOld,
                noted: false,
                touched: false,
                left: false,
                approved: false,
            }),
    {
        Update {
            torch: plan.torch.len() > 0,
            other: plan.other.len() > 0,
            pins: plan.pins.len(),
            models: plan.models,
            any: plan.names.len() > 0,
            stage: Stage::LookOld,
            noted: false,
            touched: false,
            left: false,
            approved: false,
        }
    }

    /// What is to be done now.
    pub fn action(&self) -> (r: UpdateAction)
        ensures
            r == action_at(self.stage),
    {
        match self.stage {
            Stage::LookOld => UpdateAction::LookForBackups,
            Stage::RestoreOld => UpdateAction::RestoreBackups,
            Stage::DropOld => UpdateAction::DropBackups,
            Stage::ReadOld => UpdateAction::ReadSnapshot,
            Stage::AskOld => UpdateAction::AskVersions,
            Stage::TorchOld { .. } => UpdateAction::RestoreTorch,
            Stage::OtherOld => UpdateAction::RestoreOther,
            Stage::AskOldAgain => UpdateAction::AskVersions,
            Stage::ForgetOld => UpdateAction::RemoveSnapshot,
            Stage::Imports => UpdateAction::CheckImports,
            Stage::Cuda => UpdateAction::ProbeCuda,
            Stage::Versions => UpdateAction::AskVersions,
            Stage::Snapshot => UpdateAction::WriteSnapshot,
            Stage::Torch => UpdateAction::InstallTorch,
            Stage::AskHold => UpdateAction::AskVersions,
            Stage::Other => UpdateAction::InstallOther,
            Stage::AskAfter => UpdateAction::AskVersions,
            Stage::ImportsAfter => UpdateAction::CheckImports,
            Stage::Aside(i) => UpdateAction::SetAside(i),
            Stage::UndoAside(i) => UpdateAction::UndoAside(i),
            Stage::Mark(i) => UpdateAction::MarkAside(i),
            Stage::Pin(i) => UpdateAction::InstallPin(i),
            Stage::PinImports(_) => UpdateAction::CheckImports,
            Stage::Models => UpdateAction::FetchModels,
            Stage::Gate => UpdateAction::Speak,
            Stage::Look(_) => UpdateAction::LookForBackups,
            Stage::Restore(_) => UpdateAction::RestoreBackups,
            Stage::Drop(_) => UpdateAction::DropBackups,
            Stage::AskUndo(_) => UpdateAction::AskVersions,
            Stage::TorchUndo { .. } => UpdateAction::RestoreTorch,
            Stage::OtherUndo(_) => UpdateAction::RestoreOther,
            Stage::AskUndoAgain(_) => UpdateAction::AskVersions,
            Stage::Forget(_) => UpdateAction::RemoveSnapshot,
            Stage::Recheck { .. } => UpdateAction::SpeakAgain,
            Stage::CloseBackups => UpdateAction::DropBackups,
            Stage::CloseSnapshot => UpdateAction::RemoveSnapshot,
            Stage::Record => UpdateAction::Record,
            Stage::Done(e) => UpdateAction::Finish(e),
        }
    }

    fn go(&mut self, stage: Stage)
        ensures
            *final(self) == (Update { stage, ..*old(self) }),
    {
        self.stage = stage;
    }

    fn go_gate(&mut self)
        ensures
            *final(self) == to_gate(*old(self)),
    {
        if self.any {
            self.stage = Stage::Gate;
        } else {
            self.stage = Stage::CloseBackups;
            self.approved = true;
        }
    }

    fn go_pin(&mut self, i: usize)
        ensures
            *final(self) == to_pin(*old(self), i as int),
    {
        if i < self.pins {
            self.stage = Stage::Aside(i);
            self.touched = true;
        } else if self.models {
            self.stage = Stage::Models;
            self.touched = true;
        } else {
            self.go_gate();
        }
    }

    fn go_install(&mut self)
        ensures
            *final(self) == to_install(*old(self)),
    {
        if self.torch {
            self.stage = Stage::Torch;
            self.touched = true;
        } else if self.other {
            self.stage = Stage::AskHold;
        } else {
            self.go_pin(0);
        }
    }

    fn go_after_undo(&mut self, cause: Cause)
        ensures
            *final(self) == after_undo(*old(self), cause),
    {
        let clean = !self.left;
        match cause {
            Cause::Broken => {
                self.stage = Stage::Recheck { cause, clean };
            },
            _ => {
                self.stage = Stage::Done(Ending::Undone { cause, clean });
            },
        }
    }

    fn go_settle(&mut self, cause: Cause)
        ensures
            *final(self) == to_settle(*old(self), cause),
    {
        if self.left {
            self.go_after_undo(cause);
        } else {
            self.stage = Stage::Forget(cause);
        }
    }

    fn go_versions_back(&mut self, cause: Cause)
        ensures
            *final(self) == to_versions_back(*old(self), cause),
    {
        if self.torch || self.other || self.pins > 0 {
            self.stage = Stage::AskUndo(cause);
        } else {
            self.go_settle(cause);
        }
    }

    fn refuse(&mut self, f: Failure)
        ensures
            *final(self) == refuse(*old(self), f),
    {
        self.stage = Stage::Done(Ending::Refused(f));
    }

    /// Takes what came of the last action.
    #[verifier::rlimit(60)]
    #[verifier::spinoff_prover]
    pub fn step(&mut self, event: UpdateEvent)
        requires
            update_wf(*old(self)),
            answers(old(self).stage, event),
        ensures
            *final(self) == update_after(*old(self), event),
            update_wf(*final(self)),
            0 <= steps_left(*final(self)) < steps_left(*old(self)),
    {
        proof {
            lemma_step_wf(*old(self), event);
            lemma_step_nears_end(*old(self), event);
        }
        let ok = match event {
            UpdateEvent::Done => true,
            _ => false,
        };
        let found = match event {
            UpdateEvent::Found => true,
            _ => false,
        };
        let imports = match event {
            UpdateEvent::StillImports => true,
            _ => false,
        };
        match self.stage {
            Stage::LookOld => {
                if found {
                    self.go(Stage::RestoreOld);
                } else {
                    self.go(Stage::ReadOld);
                }
            },
            Stage::RestoreOld => {
                if ok {
                    self.go(Stage::DropOld);
                } else {
                    self.refuse(Failure::OldBackups);
                }
            },
            Stage::DropOld => {
                self.go(Stage::ReadOld);
            },
            Stage::ReadOld => {
                if found {
                    self.go(Stage::AskOld);
                } else {
                    self.go(Stage::Imports);
                }
            },
            Stage::AskOld => match event {
                UpdateEvent::Unchanged => {
                    self.go(Stage::ForgetOld);
                },
                UpdateEvent::Changed { torch, other } => {
                    if torch {
                        self.go(Stage::TorchOld { other });
                    } else {
                        self.go(Stage::OtherOld);
                    }
                },
                _ => {
                    self.refuse(Failure::OldVersions);
                },
            },
            Stage::TorchOld { other } => {
                if other {
                    self.go(Stage::OtherOld);
                } else {
                    self.go(Stage::AskOldAgain);
                }
            },
            Stage::OtherOld => {
                self.go(Stage::AskOldAgain);
            },
            Stage::AskOldAgain => match event {
                UpdateEvent::Restored => {
                    self.go(Stage::ForgetOld);
                },
                UpdateEvent::LeftBehind => {
                    self.refuse(Failure::OldLeft);
                },
                _ => {
                    self.refuse(Failure::OldVersions);
                },
            },
            Stage::ForgetOld => {
                self.go(Stage::Imports);
            },
            Stage::Imports => {
                if self.torch || self.other || self.pins > 0 {
                    self.go(Stage::Cuda);
                } else {
                    self.go_install();
                }
            },
            Stage::Cuda => {
                self.go(Stage::Versions);
            },
            Stage::Versions => {
                if ok {
                    self.go(Stage::Snapshot);
                } else {
                    self.refuse(Failure::NoVersions);
                }
            },
            Stage::Snapshot => {
                if ok {
                    self.noted = true;
                    self.go_install();
                } else {
                    self.refuse(Failure::NoSnapshot);
                }
            },
            Stage::Torch => {
                if !ok {
                    self.go(Stage::Look(Cause::TorchInstall));
                } else if self.other {
                    self.go(Stage::AskHold);
                } else {
                    self.go(Stage::AskAfter);
                }
            },
            Stage::AskHold => {
                if ok {
                    self.touched = true;
                    self.go(Stage::Other);
                } else {
                    self.go(Stage::Look(Cause::Versions));
                }
            },
            Stage::Other => {
                if ok {
                    self.go(Stage::AskAfter);
                } else {
                    self.go(Stage::Look(Cause::OtherInstall));
                }
            },
            Stage::AskAfter => match event {
                UpdateEvent::TorchKept => {
                    self.go(Stage::ImportsAfter);
                },
                UpdateEvent::TorchLost => {
                    self.go(Stage::Look(Cause::TorchLost));
                },
                _ => {
                    self.go(Stage::Look(Cause::Versions));
                },
            },
            Stage::ImportsAfter => {
                if imports {
                    self.go_pin(0);
                } else {
                    self.go(Stage::Look(Cause::Regressed));
                }
            },
            Stage::Aside(i) => {
                if ok {
                    self.go(Stage::Mark(i));
                } else {
                    self.go(Stage::UndoAside(i));
                }
            },
            Stage::UndoAside(_) => {
                self.go(Stage::Look(Cause::Aside));
            },
            Stage::Mark(i) => {
                if ok {
                    self.go(Stage::Pin(i));
                } else {
                    self.go(Stage::Look(Cause::Mark));
                }
            },
            Stage::Pin(i) => {
                if ok {
                    self.go(Stage::PinImports(i));
                } else {
                    self.go(Stage::Look(Cause::PinInstall(i)));
                }
            },
            Stage::PinImports(i) => {
                if imports {
                    self.go_pin(i + 1);
                } else {
                    self.go(Stage::Look(Cause::Regressed));
                }
            },
            Stage::Models => {
                if ok {
                    self.go_gate();
                } else {
                    self.go(Stage::Look(Cause::Models));
                }
            },
            Stage::Gate => match event {
                UpdateEvent::Kept => {
                    self.approved = true;
                    self.go(Stage::CloseBackups);
                },
                UpdateEvent::NoVram => {
                    self.go(Stage::Look(Cause::Vram));
                },
                _ => {
                    self.go(Stage::Look(Cause::Broken));
                },
            },
            Stage::Look(cause) => {
                if found {
                    self.go(Stage::Restore(cause));
                } else {
                    self.go_versions_back(cause);
                }
            },
            Stage::Restore(cause) => {
                if ok {
                    self.go(Stage::Drop(cause));
                } else {
                    self.left = true;
                    self.go_versions_back(cause);
                }
            },
            Stage::Drop(cause) => {
                self.go_versions_back(cause);
            },
            Stage::AskUndo(cause) => match event {
                UpdateEvent::Unchanged => {
                    self.go_settle(cause);
                },
                UpdateEvent::Changed { torch, other } => {
                    if torch {
                        self.go(Stage::TorchUndo { cause, other });
                    } else {
                        self.go(Stage::OtherUndo(cause));
                    }
                },
                _ => {
                    self.left = true;
                    self.go_settle(cause);
                },
            },
            Stage::TorchUndo { cause, other } => {
                if other {
                    self.go(Stage::OtherUndo(cause));
                } else {
                    self.go(Stage::AskUndoAgain(cause));
                }
            },
            Stage::OtherUndo(cause) => {
                self.go(Stage::AskUndoAgain(cause));
            },
            Stage::AskUndoAgain(cause) => {
                match event {
                    UpdateEvent::Restored => {},
                    _ => {
                        self.left = true;
                    },
                }
                self.go_settle(cause);
            },
            Stage::Forget(cause) => {
                self.noted = false;
                self.go_after_undo(cause);
            },
            Stage::Recheck { cause, clean } => {
                self.go(Stage::Done(Ending::Undone { cause, clean }));
            },
            Stage::CloseBackups => {
                self.go(Stage::CloseSnapshot);
            },
            Stage::CloseSnapshot => {
                self.noted = false;
                self.go(Stage::Record);
            },
            Stage::Record => {
                if ok {
                    self.go(Stage::Done(Ending::Updated));
                } else {
                    self.go(Stage::Done(Ending::NotRecorded));
                }
            },
            Stage::Done(_) => {},
        }
    }
}

/// The update after the first `n` events.
pub open spec fn update_run(u: Update, e: Seq<UpdateEvent>, n: int) -> Update
    decreases n,
{
    if n <= 0 {
        u
    } else {
        update_after(update_run(u, e, n - 1), e[n - 1])
    }
}

/// Each of the first `n` events answers what was asked for.
pub open spec fn answered(u: Update, e: Seq<UpdateEvent>, n: int) -> bool {
    forall|k: int| 0 <= k < n ==> answers(#[trigger] update_run(u, e, k).stage, e[k])
}

/// An update at its beginning.
pub open spec fn is_begun(u: Update) -> bool {
    update_wf(u) && u.stage == Stage::LookOld
}

proof fn lemma_run_wf(u: Update, e: Seq<UpdateEvent>, n: int)
    requires
        update_wf(u),
        0 <= n <= e.len(),
        answered(u, e, n),
    ensures
        update_wf(update_run(u, e, n)),
        steps_left(update_run(u, e, n)) + n <= steps_left(u),
        steps_left(update_run(u, e, n)) >= 0,
        update_run(u, e, n).any == u.any,
        changes(update_run(u, e, n)) == changes(u),
    decreases n,
{
    if n > 0 {
        assert forall|k: int| 0 <= k < n - 1 implies answers(
            #[trigger] update_run(u, e, k).stage,
            e[k],
        ) by {}
        lemma_run_wf(u, e, n - 1);
        let v = update_run(u, e, n - 1);
        assert(answers(v.stage, e[n - 1]));
        lemma_step_wf(v, e[n - 1]);
        lemma_step_nears_end(v, e[n - 1]);
        lemma_step_keeps_plan(v, e[n - 1]);
    } else {
        lemma_steps_nonnegative(u);
    }
}

#[verifier::rlimit(60)]
#[verifier::spinoff_prover]
proof fn lemma_step_keeps_plan(u: Update, e: UpdateEvent)
    ensures
        update_after(u, e).any == u.any,
        update_after(u, e).torch == u.torch,
        update_after(u, e).other == u.other,
        update_after(u, e).pins == u.pins,
        update_after(u, e).models == u.models,
{
}

proof fn lemma_steps_nonnegative(u: Update)
    requires
        update_wf(u),
    ensures
        steps_left(u) >= 0,
{
}

/// The action changes packages.
pub open spec fn changes_packages(a: UpdateAction) -> bool {
    match a {
        UpdateAction::InstallTorch | UpdateAction::InstallOther => true,
        UpdateAction::SetAside(_) | UpdateAction::InstallPin(_) => true,
        _ => false,
    }
}

/// However an update goes, packages are changed only while the versions from
/// before are noted.
pub proof fn packages_change_only_once_noted(u: Update, e: Seq<UpdateEvent>, n: int)
    requires
        is_begun(u),
        0 <= n <= e.len(),
        answered(u, e, n),
        changes_packages(action_at(update_run(u, e, n).stage)),
    ensures
        update_run(u, e, n).noted,
{
    lemma_run_wf(u, e, n);
}

proof fn lemma_approval(u: Update, e: Seq<UpdateEvent>, n: int)
    requires
        is_begun(u),
        0 <= n <= e.len(),
        answered(u, e, n),
        update_run(u, e, n).approved,
        u.any,
    ensures
        exists|k: int|
            0 <= k < n && e[k] == UpdateEvent::Kept && #[trigger] update_run(u, e, k).stage
                == Stage::Gate,
    decreases n,
{
    lemma_run_wf(u, e, n);
    if n > 0 {
        assert forall|k: int| 0 <= k < n - 1 implies answers(
            #[trigger] update_run(u, e, k).stage,
            e[k],
        ) by {}
        lemma_run_wf(u, e, n - 1);
        let v = update_run(u, e, n - 1);
        assert(answers(v.stage, e[n - 1]));
        if v.approved {
            lemma_approval(u, e, n - 1);
            let k = choose|k: int|
                0 <= k < n - 1 && e[k] == UpdateEvent::Kept && #[trigger] update_run(u, e, k).stage
                    == Stage::Gate;
            assert(update_run(u, e, k).stage == Stage::Gate);
        } else {
            lemma_approves_only_at_gate(v, e[n - 1]);
            assert(update_run(u, e, n - 1).stage == Stage::Gate);
        }
    }
}

#[verifier::rlimit(60)]
#[verifier::spinoff_prover]
proof fn lemma_approves_only_at_gate(u: Update, e: UpdateEvent)
    requires
        update_wf(u),
        answers(u.stage, e),
        u.any,
        !u.approved,
        update_after(u, e).approved,
    ensures
        u.stage == Stage::Gate,
        e == UpdateEvent::Kept,
{
}

/// However an update goes, what was installed is recorded only after the check
/// said to keep it, with nothing left to be brought back.
pub proof fn recorded_only_after_the_check(u: Update, e: Seq<UpdateEvent>, n: int)
    requires
        is_begun(u),
        0 <= n <= e.len(),
        answered(u, e, n),
        u.any,
        action_at(update_run(u, e, n).stage) == UpdateAction::Record,
    ensures
        exists|k: int|
            0 <= k < n && e[k] == UpdateEvent::Kept && #[trigger] update_run(u, e, k).stage
                == Stage::Gate,
        !update_run(u, e, n).left,
{
    lemma_run_wf(u, e, n);
    lemma_approval(u, e, n);
}

/// However an update ends, it was one of three ways: nothing was changed; it
/// was kept; or it was undone, and then the note of the versions is gone
/// exactly where everything was brought back.
pub proof fn kept_or_undone(u: Update, e: Seq<UpdateEvent>, n: int, end: Ending)
    requires
        is_begun(u),
        0 <= n <= e.len(),
        answered(u, e, n),
        update_run(u, e, n).stage == Stage::Done(end),
    ensures
        end is Refused ==> !update_run(u, e, n).touched && !update_run(u, e, n).noted,
        end == Ending::Updated || end == Ending::NotRecorded ==> !update_run(u, e, n).noted
            && !update_run(u, e, n).left,
        end matches Ending::Undone { cause, clean } ==> clean == !update_run(u, e, n).left && (
        changes(u) ==> clean == !update_run(u, e, n).noted),
        update_run(u, e, n).touched ==> end !is Refused,
{
    lemma_run_wf(u, e, n);
}

/// However an update goes, it ends: no more events can be answered than there
/// were steps left at the beginning.
pub proof fn every_update_ends(u: Update, e: Seq<UpdateEvent>, n: int)
    requires
        is_begun(u),
        0 <= n <= e.len(),
        answered(u, e, n),
    ensures
        n <= 60 + 4 * u.pins,
{
    lemma_run_wf(u, e, n);
}

/// What is asked for behind the first `n` answers.
pub open spec fn asked_at(u: Update, e: Seq<UpdateEvent>, n: int) -> UpdateAction {
    action_at(update_run(u, e, n).stage)
}

/// Among the answers from the `m`-th up to the `n`-th, that was asked for, with that
/// answer.
pub open spec fn came(
    u: Update,
    e: Seq<UpdateEvent>,
    m: int,
    n: int,
    a: UpdateAction,
    ev: UpdateEvent,
) -> bool {
    exists|k: int| m <= k < n && #[trigger] asked_at(u, e, k) == a && e[k] == ev
}

/// The same, whatever the answer was.
pub open spec fn was_asked(
    u: Update,
    e: Seq<UpdateEvent>,
    m: int,
    n: int,
    a: UpdateAction,
) -> bool {
    exists|k: int| m <= k < n && #[trigger] asked_at(u, e, k) == a
}

proof fn lemma_came_later(
    u: Update,
    e: Seq<UpdateEvent>,
    m: int,
    n: int,
    a: UpdateAction,
    ev: UpdateEvent,
)
    ensures
        came(u, e, m, n - 1, a, ev) ==> came(u, e, m, n, a, ev),
        m <= n - 1 && asked_at(u, e, n - 1) == a && e[n - 1] == ev ==> came(u, e, m, n, a, ev),
        was_asked(u, e, m, n - 1, a) ==> was_asked(u, e, m, n, a),
        m <= n - 1 && asked_at(u, e, n - 1) == a ==> was_asked(u, e, m, n, a),
        came(u, e, m, n, a, ev) ==> came(u, e, m, n - 1, a, ev) || (asked_at(u, e, n - 1) == a && e[
        n - 1] == ev),
{
    if came(u, e, m, n - 1, a, ev) {
        let k = choose|k: int| m <= k < n - 1 && #[trigger] asked_at(u, e, k) == a && e[k] == ev;
        assert(asked_at(u, e, k) == a);
    }
    if was_asked(u, e, m, n - 1, a) {
        let k = choose|k: int| m <= k < n - 1 && #[trigger] asked_at(u, e, k) == a;
        assert(asked_at(u, e, k) == a);
    }
}

/// The plan asks for it.
pub open spec fn is_planned(u: Update, a: UpdateAction) -> bool {
    match a {
        UpdateAction::WriteSnapshot => u.torch || u.other || u.pins > 0,
        UpdateAction::InstallTorch => u.torch,
        UpdateAction::InstallOther => u.other,
        UpdateAction::SetAside(i) | UpdateAction::MarkAside(i) | UpdateAction::InstallPin(i) => i
            < u.pins,
        UpdateAction::FetchModels => u.models,
        _ => false,
    }
}

/// The stage comes behind what is asked for, on the way on which nothing fails.
spec fn is_behind(s: Stage, a: UpdateAction) -> bool {
    let late = match s {
        Stage::Gate | Stage::CloseBackups | Stage::CloseSnapshot | Stage::Record => true,
        Stage::Done(Ending::Updated) | Stage::Done(Ending::NotRecorded) => true,
        _ => false,
    };
    let pins = match s {
        Stage::Aside(_) | Stage::Mark(_) | Stage::Pin(_) | Stage::PinImports(_) => true,
        _ => false,
    };
    match a {
        UpdateAction::WriteSnapshot => late || pins || s == Stage::Torch || s == Stage::AskHold || s
            == Stage::Other || s == Stage::AskAfter || s == Stage::ImportsAfter || s
            == Stage::Models,
        UpdateAction::InstallTorch => late || pins || s == Stage::AskHold || s == Stage::Other || s
            == Stage::AskAfter || s == Stage::ImportsAfter || s == Stage::Models,
        UpdateAction::InstallOther => late || pins || s == Stage::AskAfter || s
            == Stage::ImportsAfter || s == Stage::Models,
        UpdateAction::SetAside(i) => late || s == Stage::Models || (match s {
            Stage::Aside(j) => i < j,
            Stage::Mark(j) | Stage::Pin(j) | Stage::PinImports(j) => i <= j,
            _ => false,
        }),
        UpdateAction::MarkAside(i) => late || s == Stage::Models || (match s {
            Stage::Aside(j) | Stage::Mark(j) => i < j,
            Stage::Pin(j) | Stage::PinImports(j) => i <= j,
            _ => false,
        }),
        UpdateAction::InstallPin(i) => late || s == Stage::Models || (match s {
            Stage::Aside(j) | Stage::Mark(j) | Stage::Pin(j) => i < j,
            Stage::PinImports(j) => i <= j,
            _ => false,
        }),
        UpdateAction::FetchModels => late,
        _ => false,
    }
}

#[verifier::rlimit(60)]
#[verifier::spinoff_prover]
proof fn lemma_behind_step(u: Update, e: UpdateEvent, a: UpdateAction)
    requires
        update_wf(u),
        answers(u.stage, e),
        is_planned(u, a),
        is_behind(update_after(u, e).stage, a),
    ensures
        is_behind(u.stage, a) || (action_at(u.stage) == a && e == UpdateEvent::Done),
{
}

proof fn lemma_behind(u: Update, e: Seq<UpdateEvent>, n: int, a: UpdateAction)
    requires
        is_begun(u),
        0 <= n <= e.len(),
        answered(u, e, n),
        is_planned(u, a),
        is_behind(update_run(u, e, n).stage, a),
    ensures
        came(u, e, 0, n, a, UpdateEvent::Done),
    decreases n,
{
    if n > 0 {
        assert(answered(u, e, n - 1));
        lemma_run_wf(u, e, n - 1);
        lemma_run_plan(u, e, n - 1);
        let v = update_run(u, e, n - 1);
        assert(answers(v.stage, e[n - 1]));
        lemma_behind_step(v, e[n - 1], a);
        if is_behind(v.stage, a) {
            lemma_behind(u, e, n - 1, a);
        }
        lemma_came_later(u, e, 0, n, a, UpdateEvent::Done);
    }
}

proof fn lemma_run_plan(u: Update, e: Seq<UpdateEvent>, n: int)
    ensures
        update_run(u, e, n).any == u.any,
        update_run(u, e, n).torch == u.torch,
        update_run(u, e, n).other == u.other,
        update_run(u, e, n).pins == u.pins,
        update_run(u, e, n).models == u.models,
    decreases n,
{
    if n > 0 {
        lemma_run_plan(u, e, n - 1);
        lemma_step_keeps_plan(update_run(u, e, n - 1), e[n - 1]);
    }
}

/// However an update goes, the check is made, and what was installed recorded, only
/// once everything that is planned was asked for and done: PyTorch, the other
/// packages, each of the pinned sources and the models.
pub proof fn recorded_only_once_everything_is_installed(u: Update, e: Seq<UpdateEvent>, n: int)
    requires
        is_begun(u),
        0 <= n <= e.len(),
        answered(u, e, n),
        asked_at(u, e, n) == UpdateAction::Record || asked_at(u, e, n) == UpdateAction::Speak,
    ensures
        u.torch ==> came(u, e, 0, n, UpdateAction::InstallTorch, UpdateEvent::Done),
        u.other ==> came(u, e, 0, n, UpdateAction::InstallOther, UpdateEvent::Done),
        forall|i: usize|
            i < u.pins ==> #[trigger] came(
                u,
                e,
                0,
                n,
                UpdateAction::InstallPin(i),
                UpdateEvent::Done,
            ),
        u.models ==> came(u, e, 0, n, UpdateAction::FetchModels, UpdateEvent::Done),
        u.torch || u.other || u.pins > 0 ==> came(
            u,
            e,
            0,
            n,
            UpdateAction::WriteSnapshot,
            UpdateEvent::Done,
        ),
{
    if u.torch {
        lemma_behind(u, e, n, UpdateAction::InstallTorch);
    }
    if u.other {
        lemma_behind(u, e, n, UpdateAction::InstallOther);
    }
    assert forall|i: usize| i < u.pins implies #[trigger] came(
        u,
        e,
        0,
        n,
        UpdateAction::InstallPin(i),
        UpdateEvent::Done,
    ) by {
        lemma_behind(u, e, n, UpdateAction::InstallPin(i));
    }
    if u.models {
        lemma_behind(u, e, n, UpdateAction::FetchModels);
    }
    if u.torch || u.other || u.pins > 0 {
        lemma_behind(u, e, n, UpdateAction::WriteSnapshot);
    }
}

/// However an update goes, things are installed in their order, each behind what
/// was done before: the other packages behind PyTorch, a pinned source behind both
/// and the sources before it, once it was itself set aside and marked, and the
/// models behind all of them.
pub proof fn installed_in_order(u: Update, e: Seq<UpdateEvent>, n: int, i: usize, j: usize)
    requires
        is_begun(u),
        0 <= n <= e.len(),
        answered(u, e, n),
    ensures
        asked_at(u, e, n) == UpdateAction::InstallOther && u.torch ==> came(
            u,
            e,
            0,
            n,
            UpdateAction::InstallTorch,
            UpdateEvent::Done,
        ),
        asked_at(u, e, n) == UpdateAction::SetAside(i) || asked_at(u, e, n)
            == UpdateAction::FetchModels ==> (u.torch ==> came(
            u,
            e,
            0,
            n,
            UpdateAction::InstallTorch,
            UpdateEvent::Done,
        )) && (u.other ==> came(u, e, 0, n, UpdateAction::InstallOther, UpdateEvent::Done)),
        asked_at(u, e, n) == UpdateAction::SetAside(i) && j < i ==> came(
            u,
            e,
            0,
            n,
            UpdateAction::InstallPin(j),
            UpdateEvent::Done,
        ),
        asked_at(u, e, n) == UpdateAction::InstallPin(i) ==> came(
            u,
            e,
            0,
            n,
            UpdateAction::SetAside(i),
            UpdateEvent::Done,
        ) && came(u, e, 0, n, UpdateAction::MarkAside(i), UpdateEvent::Done),
        asked_at(u, e, n) == UpdateAction::FetchModels && j < u.pins ==> came(
            u,
            e,
            0,
            n,
            UpdateAction::InstallPin(j),
            UpdateEvent::Done,
        ),
        changes_packages(asked_at(u, e, n)) ==> came(
            u,
            e,
            0,
            n,
            UpdateAction::WriteSnapshot,
            UpdateEvent::Done,
        ),
{
    lemma_run_wf(u, e, n);
    lemma_run_plan(u, e, n);
    let s = update_run(u, e, n).stage;
    if u.torch && is_behind(s, UpdateAction::InstallTorch) {
        lemma_behind(u, e, n, UpdateAction::InstallTorch);
    }
    if u.other && is_behind(s, UpdateAction::InstallOther) {
        lemma_behind(u, e, n, UpdateAction::InstallOther);
    }
    if j < u.pins && is_behind(s, UpdateAction::InstallPin(j)) {
        lemma_behind(u, e, n, UpdateAction::InstallPin(j));
    }
    if i < u.pins && is_behind(s, UpdateAction::SetAside(i)) {
        lemma_behind(u, e, n, UpdateAction::SetAside(i));
    }
    if i < u.pins && is_behind(s, UpdateAction::MarkAside(i)) {
        lemma_behind(u, e, n, UpdateAction::MarkAside(i));
    }
    if is_planned(u, UpdateAction::WriteSnapshot) && is_behind(s, UpdateAction::WriteSnapshot) {
        lemma_behind(u, e, n, UpdateAction::WriteSnapshot);
    }
}

/// The answer says that the update cannot be kept: something that has to be done
/// failed, or a check says so.
pub open spec fn is_bad(a: UpdateAction, e: UpdateEvent) -> bool {
    match e {
        UpdateEvent::Failed => match a {
            UpdateAction::RestoreBackups | UpdateAction::AskVersions => true,
            UpdateAction::WriteSnapshot => true,
            UpdateAction::InstallTorch | UpdateAction::InstallOther => true,
            UpdateAction::SetAside(_) | UpdateAction::MarkAside(_) => true,
            UpdateAction::InstallPin(_) | UpdateAction::FetchModels => true,
            _ => false,
        },
        UpdateEvent::LeftBehind | UpdateEvent::TorchLost | UpdateEvent::Regressed => true,
        UpdateEvent::NoVram | UpdateEvent::Broken => true,
        _ => false,
    }
}

/// The stage is on the way on which nothing fails.
spec fn is_forward(s: Stage) -> bool {
    match s {
        Stage::UndoAside(_) | Stage::Look(_) | Stage::Restore(_) | Stage::Drop(_) => false,
        Stage::AskUndo(_) | Stage::OtherUndo(_) | Stage::AskUndoAgain(_) => false,
        Stage::TorchUndo { .. } | Stage::Recheck { .. } | Stage::Forget(_) => false,
        Stage::Done(Ending::Refused(_)) | Stage::Done(Ending::Undone { .. }) => false,
        _ => true,
    }
}

#[verifier::rlimit(60)]
#[verifier::spinoff_prover]
proof fn lemma_forward_step(u: Update, e: UpdateEvent)
    requires
        update_wf(u),
        answers(u.stage, e),
    ensures
        is_forward(update_after(u, e).stage) == (is_forward(u.stage) && !is_bad(
            action_at(u.stage),
            e,
        )),
{
}

proof fn lemma_forward(u: Update, e: Seq<UpdateEvent>, n: int)
    requires
        is_begun(u),
        0 <= n <= e.len(),
        answered(u, e, n),
    ensures
        is_forward(update_run(u, e, n).stage) <==> forall|k: int|
            0 <= k < n ==> !is_bad(#[trigger] asked_at(u, e, k), e[k]),
    decreases n,
{
    if n > 0 {
        assert(answered(u, e, n - 1));
        lemma_run_wf(u, e, n - 1);
        lemma_forward(u, e, n - 1);
        let v = update_run(u, e, n - 1);
        assert(answers(v.stage, e[n - 1]));
        lemma_forward_step(v, e[n - 1]);
        assert(asked_at(u, e, n - 1) == action_at(v.stage));
    }
}

/// An update that has ended was kept exactly where none of the answers spoke against
/// it: nothing that had to be done failed and every check passed. It is then
/// recorded, and only a record that could not be written keeps it from being told as
/// done.
pub proof fn kept_iff_nothing_failed(u: Update, e: Seq<UpdateEvent>, n: int, end: Ending)
    requires
        is_begun(u),
        0 < n <= e.len(),
        answered(u, e, n),
        update_run(u, e, n).stage == Stage::Done(end),
    ensures
        (end == Ending::Updated || end == Ending::NotRecorded) <==> forall|k: int|
            0 <= k < n ==> !is_bad(#[trigger] asked_at(u, e, k), e[k]),
        end == Ending::Updated ==> came(u, e, 0, n, UpdateAction::Record, UpdateEvent::Done),
        end == Ending::NotRecorded ==> came(u, e, 0, n, UpdateAction::Record, UpdateEvent::Failed),
{
    lemma_forward(u, e, n);
    lemma_recorded(u, e, n);
}

#[verifier::rlimit(60)]
#[verifier::spinoff_prover]
proof fn lemma_recorded_step(u: Update, e: UpdateEvent)
    requires
        update_wf(u),
        answers(u.stage, e),
    ensures
        update_after(u, e).stage == Stage::Done(Ending::Updated) ==> action_at(u.stage)
            == UpdateAction::Record && e == UpdateEvent::Done,
        update_after(u, e).stage == Stage::Done(Ending::NotRecorded) ==> action_at(u.stage)
            == UpdateAction::Record && e == UpdateEvent::Failed,
{
}

proof fn lemma_recorded(u: Update, e: Seq<UpdateEvent>, n: int)
    requires
        is_begun(u),
        0 < n <= e.len(),
        answered(u, e, n),
    ensures
        update_run(u, e, n).stage == Stage::Done(Ending::Updated) ==> came(
            u,
            e,
            0,
            n,
            UpdateAction::Record,
            UpdateEvent::Done,
        ),
        update_run(u, e, n).stage == Stage::Done(Ending::NotRecorded) ==> came(
            u,
            e,
            0,
            n,
            UpdateAction::Record,
            UpdateEvent::Failed,
        ),
{
    assert(answered(u, e, n - 1));
    lemma_run_wf(u, e, n - 1);
    let v = update_run(u, e, n - 1);
    assert(answers(v.stage, e[n - 1]));
    lemma_recorded_step(v, e[n - 1]);
    lemma_came_later(u, e, 0, n, UpdateAction::Record, UpdateEvent::Done);
    lemma_came_later(u, e, 0, n, UpdateAction::Record, UpdateEvent::Failed);
}

/// The answer is what an update is undone for.
pub open spec fn is_cause(c: Cause, a: UpdateAction, e: UpdateEvent) -> bool {
    match c {
        Cause::TorchInstall => a == UpdateAction::InstallTorch && e == UpdateEvent::Failed,
        Cause::OtherInstall => a == UpdateAction::InstallOther && e == UpdateEvent::Failed,
        Cause::Versions => a == UpdateAction::AskVersions && e == UpdateEvent::Failed,
        Cause::TorchLost => a == UpdateAction::AskVersions && e == UpdateEvent::TorchLost,
        Cause::Regressed => a == UpdateAction::CheckImports && e == UpdateEvent::Regressed,
        Cause::Aside => a is SetAside && e == UpdateEvent::Failed,
        Cause::Mark => a is MarkAside && e == UpdateEvent::Failed,
        Cause::PinInstall(i) => a == UpdateAction::InstallPin(i) && e == UpdateEvent::Failed,
        Cause::Models => a == UpdateAction::FetchModels && e == UpdateEvent::Failed,
        Cause::Vram => a == UpdateAction::Speak && e == UpdateEvent::NoVram,
        Cause::Broken => a == UpdateAction::Speak && e == UpdateEvent::Broken,
    }
}

/// The answer is what an update is refused for.
pub open spec fn is_reason(f: Failure, a: UpdateAction, e: UpdateEvent) -> bool {
    match f {
        Failure::OldBackups => a == UpdateAction::RestoreBackups && e == UpdateEvent::Failed,
        Failure::OldVersions => a == UpdateAction::AskVersions && e == UpdateEvent::Failed,
        Failure::OldLeft => a == UpdateAction::AskVersions && e == UpdateEvent::LeftBehind,
        Failure::NoVersions => a == UpdateAction::AskVersions && e == UpdateEvent::Failed,
        Failure::NoSnapshot => a == UpdateAction::WriteSnapshot && e == UpdateEvent::Failed,
    }
}

/// What the stage undoes the update for.
spec fn cause_in(s: Stage) -> Option<Cause> {
    match s {
        Stage::UndoAside(_) => Some(Cause::Aside),
        Stage::Look(c) | Stage::Restore(c) | Stage::Drop(c) | Stage::AskUndo(c) => Some(c),
        Stage::TorchUndo { cause, .. } => Some(cause),
        Stage::OtherUndo(c) | Stage::AskUndoAgain(c) | Stage::Forget(c) => Some(c),
        Stage::Recheck { cause, .. } => Some(cause),
        Stage::Done(Ending::Undone { cause, .. }) => Some(cause),
        _ => None,
    }
}

#[verifier::rlimit(60)]
#[verifier::spinoff_prover]
proof fn lemma_cause_step(u: Update, e: UpdateEvent)
    requires
        update_wf(u),
        answers(u.stage, e),
    ensures
        cause_in(u.stage) is Some ==> cause_in(update_after(u, e).stage) == cause_in(u.stage),
        cause_in(u.stage) is None && cause_in(update_after(u, e).stage) is Some ==> is_cause(
            cause_in(update_after(u, e).stage)->0,
            action_at(u.stage),
            e,
        ) && (update_after(u, e).stage is Look || update_after(u, e).stage is UndoAside),
        update_after(u, e).stage matches Stage::Done(Ending::Refused(f)) ==> is_reason(
            f,
            action_at(u.stage),
            e,
        ),
{
}

/// What the undoing has done by the time a stage is reached, since the `m`-th answer.
spec fn is_undone_to(u: Update, e: Seq<UpdateEvent>, m: int, n: int) -> bool {
    let v = update_run(u, e, n);
    let s = v.stage;
    let looked = !(s is Look || s is UndoAside);
    let settled = s is Forget || s is Recheck || s is Done;
    &&& looked && !(s is Restore) ==> came(
        u,
        e,
        m,
        n,
        UpdateAction::LookForBackups,
        UpdateEvent::Missing,
    ) || came(u, e, m, n, UpdateAction::RestoreBackups, UpdateEvent::Done) || came(
        u,
        e,
        m,
        n,
        UpdateAction::RestoreBackups,
        UpdateEvent::Failed,
    )
    &&& settled && changes(u) ==> came(
        u,
        e,
        m,
        n,
        UpdateAction::AskVersions,
        UpdateEvent::Unchanged,
    ) || came(u, e, m, n, UpdateAction::AskVersions, UpdateEvent::Restored) || v.left
    &&& came(u, e, m, n, UpdateAction::RestoreBackups, UpdateEvent::Failed) ==> v.left
    &&& came(u, e, m, n, UpdateAction::AskVersions, UpdateEvent::Failed) ==> v.left
    &&& came(u, e, m, n, UpdateAction::AskVersions, UpdateEvent::LeftBehind) ==> v.left
    &&& v.left ==> came(u, e, m, n, UpdateAction::RestoreBackups, UpdateEvent::Failed) || came(
        u,
        e,
        m,
        n,
        UpdateAction::AskVersions,
        UpdateEvent::Failed,
    ) || came(u, e, m, n, UpdateAction::AskVersions, UpdateEvent::LeftBehind)
    &&& (s is Recheck || s is Done) && !v.left ==> was_asked(
        u,
        e,
        m,
        n,
        UpdateAction::RemoveSnapshot,
    )
    &&& v.left ==> !was_asked(u, e, m, n, UpdateAction::RemoveSnapshot)
    &&& !(s is Recheck || s is Done) ==> !was_asked(u, e, m, n, UpdateAction::RemoveSnapshot)
    &&& s matches Stage::Done(Ending::Undone { cause, .. }) ==> cause == Cause::Broken ==> was_asked(
        u,
        e,
        m,
        n,
        UpdateAction::SpeakAgain,
    )
}

#[verifier::rlimit(60)]
#[verifier::spinoff_prover]
proof fn lemma_undo_step(u: Update, e: UpdateEvent)
    requires
        update_wf(u),
        answers(u.stage, e),
        cause_in(u.stage) is Some,
    ensures
        ({
            let v = update_after(u, e);
            let a = action_at(u.stage);
            &&& !(v.stage is Look || v.stage is UndoAside || v.stage is Restore) ==> !(
            u.stage is Look || u.stage is UndoAside || u.stage is Restore) || (a
                == UpdateAction::LookForBackups && e == UpdateEvent::Missing) || (a
                == UpdateAction::RestoreBackups && (e == UpdateEvent::Done || e
                == UpdateEvent::Failed))
            &&& (v.stage is Forget || v.stage is Recheck || v.stage is Done) && changes(u) ==> (
            u.stage is Forget || u.stage is Recheck) || (a == UpdateAction::AskVersions && (e
                == UpdateEvent::Unchanged || e == UpdateEvent::Restored)) || v.left
            &&& v.left == (u.left || (a == UpdateAction::RestoreBackups && e == UpdateEvent::Failed)
                || (a == UpdateAction::AskVersions && (e == UpdateEvent::Failed || e
                == UpdateEvent::LeftBehind)))
            &&& (v.stage is Recheck || v.stage is Done) && !v.left ==> u.stage is Recheck || a
                == UpdateAction::RemoveSnapshot
            &&& a == UpdateAction::RemoveSnapshot ==> !u.left && (v.stage is Recheck
                || v.stage is Done)
            &&& (u.stage is Recheck || u.stage is Done) ==> (v.stage is Recheck || v.stage is Done)
            &&& v.stage matches Stage::Done(Ending::Undone { cause, .. }) ==> cause == Cause::Broken
                ==> a == UpdateAction::SpeakAgain
            &&& v.stage is Recheck || v.stage is Done ==> u.left == v.left || v.left
        }),
{
}

proof fn lemma_undone_to(u: Update, e: Seq<UpdateEvent>, n: int) -> (m: int)
    requires
        is_begun(u),
        0 <= n <= e.len(),
        answered(u, e, n),
        cause_in(update_run(u, e, n).stage) is Some,
    ensures
        0 < m <= n,
        is_cause(cause_in(update_run(u, e, n).stage)->0, asked_at(u, e, m - 1), e[m - 1]),
        is_undone_to(u, e, m, n),
    decreases n,
{
    if n == 0 {
        0
    } else {
        assert(answered(u, e, n - 1));
        lemma_run_wf(u, e, n - 1);
        lemma_run_wf(u, e, n);
        lemma_run_plan(u, e, n - 1);
        lemma_run_plan(u, e, n);
        let v = update_run(u, e, n - 1);
        let ev = e[n - 1];
        assert(answers(v.stage, ev));
        lemma_cause_step(v, ev);
        if cause_in(v.stage) is None {
            lemma_fresh(u, e, n);
            n
        } else {
            let m = lemma_undone_to(u, e, n - 1);
            lemma_undo_step(v, ev);
            lemma_came_later(u, e, m, n, UpdateAction::LookForBackups, UpdateEvent::Missing);
            lemma_came_later(u, e, m, n, UpdateAction::RestoreBackups, UpdateEvent::Done);
            lemma_came_later(u, e, m, n, UpdateAction::RestoreBackups, UpdateEvent::Failed);
            lemma_came_later(u, e, m, n, UpdateAction::AskVersions, UpdateEvent::Unchanged);
            lemma_came_later(u, e, m, n, UpdateAction::AskVersions, UpdateEvent::Restored);
            lemma_came_later(u, e, m, n, UpdateAction::AskVersions, UpdateEvent::Failed);
            lemma_came_later(u, e, m, n, UpdateAction::AskVersions, UpdateEvent::LeftBehind);
            lemma_came_later(u, e, m, n, UpdateAction::RemoveSnapshot, ev);
            lemma_came_later(u, e, m, n, UpdateAction::SpeakAgain, ev);
            lemma_asked_before(u, e, m, n, UpdateAction::RemoveSnapshot);
            assert(asked_at(u, e, n - 1) == action_at(v.stage));
            assert(is_undone_to(u, e, m, n - 1));
            m
        }
    }
}

proof fn lemma_asked_before(u: Update, e: Seq<UpdateEvent>, m: int, n: int, a: UpdateAction)
    ensures
        was_asked(u, e, m, n, a) ==> was_asked(u, e, m, n - 1, a) || asked_at(u, e, n - 1) == a,
{
}

/// An update that has just begun to be undone has left nothing behind yet.
proof fn lemma_fresh(u: Update, e: Seq<UpdateEvent>, n: int)
    requires
        is_begun(u),
        0 < n <= e.len(),
        answered(u, e, n),
        update_wf(update_run(u, e, n - 1)),
        update_wf(update_run(u, e, n)),
        cause_in(update_run(u, e, n - 1).stage) is None,
        update_run(u, e, n).stage is Look || update_run(u, e, n).stage is UndoAside,
    ensures
        is_undone_to(u, e, n, n),
{
    let v = update_run(u, e, n - 1);
    assert(answers(v.stage, e[n - 1]));
    lemma_fresh_step(v, e[n - 1]);
}

#[verifier::rlimit(60)]
#[verifier::spinoff_prover]
proof fn lemma_fresh_step(u: Update, e: UpdateEvent)
    requires
        update_wf(u),
        answers(u.stage, e),
        cause_in(u.stage) is None,
        update_after(u, e).stage is Look || update_after(u, e).stage is UndoAside,
    ensures
        !update_after(u, e).left,
{
}

/// An update that is undone says for what: the answer to something that was asked
/// for, the one before the `m`-th. Since then everything was brought back, or it is
/// told that it was not: what was set aside is there again, unless nothing was or it
/// could not be; where packages are changed, their versions are those from before,
/// or it could not be seen, or not all of them came back. Only where nothing is left
/// is the note of the versions thrown away. Where the check had failed, it is made
/// again.
pub proof fn undone_means_brought_back(
    u: Update,
    e: Seq<UpdateEvent>,
    n: int,
    cause: Cause,
    clean: bool,
) -> (m: int)
    requires
        is_begun(u),
        0 <= n <= e.len(),
        answered(u, e, n),
        update_run(u, e, n).stage == Stage::Done(Ending::Undone { cause, clean }),
    ensures
        0 < m <= n,
        is_cause(cause, asked_at(u, e, m - 1), e[m - 1]),
        clean <==> !came(u, e, m, n, UpdateAction::RestoreBackups, UpdateEvent::Failed) && !came(
            u,
            e,
            m,
            n,
            UpdateAction::AskVersions,
            UpdateEvent::Failed,
        ) && !came(u, e, m, n, UpdateAction::AskVersions, UpdateEvent::LeftBehind),
        clean ==> came(u, e, m, n, UpdateAction::LookForBackups, UpdateEvent::Missing) || came(
            u,
            e,
            m,
            n,
            UpdateAction::RestoreBackups,
            UpdateEvent::Done,
        ),
        clean && (u.torch || u.other || u.pins > 0) ==> came(
            u,
            e,
            m,
            n,
            UpdateAction::AskVersions,
            UpdateEvent::Unchanged,
        ) || came(u, e, m, n, UpdateAction::AskVersions, UpdateEvent::Restored),
        clean <==> was_asked(u, e, m, n, UpdateAction::RemoveSnapshot),
        cause == Cause::Broken ==> was_asked(u, e, m, n, UpdateAction::SpeakAgain),
{
    lemma_run_wf(u, e, n);
    let m = lemma_undone_to(u, e, n);
    assert(is_undone_to(u, e, m, n));
    m
}

/// An update that is refused says for what: the answer to the last thing that was
/// asked for.
pub proof fn refused_says_why(u: Update, e: Seq<UpdateEvent>, n: int, f: Failure)
    requires
        is_begun(u),
        0 < n <= e.len(),
        answered(u, e, n),
        update_run(u, e, n).stage == Stage::Done(Ending::Refused(f)),
    ensures
        is_reason(f, asked_at(u, e, n - 1), e[n - 1]),
        forall|k: int| 0 <= k < n ==> !changes_packages(#[trigger] asked_at(u, e, k)),
{
    assert(answered(u, e, n - 1));
    lemma_run_wf(u, e, n - 1);
    let v = update_run(u, e, n - 1);
    assert(answers(v.stage, e[n - 1]));
    lemma_cause_step(v, e[n - 1]);
    lemma_early_before(u, e, n);
}

proof fn lemma_early_before(u: Update, e: Seq<UpdateEvent>, n: int)
    requires
        is_begun(u),
        0 <= n <= e.len(),
        answered(u, e, n),
        is_early(update_run(u, e, n).stage),
    ensures
        forall|k: int| 0 <= k < n ==> !changes_packages(#[trigger] asked_at(u, e, k)),
    decreases n,
{
    if n > 0 {
        assert(answered(u, e, n - 1));
        lemma_run_wf(u, e, n - 1);
        let v = update_run(u, e, n - 1);
        assert(answers(v.stage, e[n - 1]));
        lemma_early_step(v, e[n - 1]);
        lemma_early_before(u, e, n - 1);
        assert(asked_at(u, e, n - 1) == action_at(v.stage));
    }
}

#[verifier::rlimit(60)]
#[verifier::spinoff_prover]
proof fn lemma_early_step(u: Update, e: UpdateEvent)
    requires
        update_wf(u),
        answers(u.stage, e),
        is_early(update_after(u, e).stage),
    ensures
        is_early(u.stage),
        !changes_packages(action_at(u.stage)),
{
}

/// Whatever is found to have changed is brought back at once, PyTorch first and the
/// other packages behind it, and then the versions are asked for again.
#[verifier::rlimit(60)]
#[verifier::spinoff_prover]
pub proof fn what_changed_is_brought_back(
    u: Update,
    torch: bool,
    other: bool,
    e: UpdateEvent,
    f: UpdateEvent,
)
    requires
        update_wf(u),
        answers(u.stage, UpdateEvent::Changed { torch, other }),
    ensures
        ({
            let a = update_after(u, UpdateEvent::Changed { torch, other });
            let b = update_after(a, e);
            let c = update_after(b, f);
            &&& torch ==> action_at(a.stage) == UpdateAction::RestoreTorch
            &&& torch && other ==> action_at(b.stage) == UpdateAction::RestoreOther && action_at(
                c.stage,
            ) == UpdateAction::AskVersions
            &&& torch && !other ==> action_at(b.stage) == UpdateAction::AskVersions
            &&& !torch ==> action_at(a.stage) == UpdateAction::RestoreOther && action_at(b.stage)
                == UpdateAction::AskVersions
        }),
{
}

/// Whatever was installed is checked at once: behind the packages the versions are
/// asked for and then the imports are tried, behind a pinned source the imports.
#[verifier::rlimit(60)]
#[verifier::spinoff_prover]
pub proof fn what_was_installed_is_checked(u: Update)
    requires
        update_wf(u),
    ensures
        ({
            let v = update_after(u, UpdateEvent::Done);
            let w = update_after(v, UpdateEvent::TorchKept);
            &&& action_at(u.stage) == UpdateAction::InstallOther || (action_at(u.stage)
                == UpdateAction::InstallTorch && !u.other) ==> action_at(v.stage)
                == UpdateAction::AskVersions && action_at(w.stage) == UpdateAction::CheckImports
            &&& action_at(u.stage) == UpdateAction::InstallTorch && u.other ==> action_at(v.stage)
                == UpdateAction::AskVersions && action_at(
                update_after(v, UpdateEvent::Done).stage,
            ) == UpdateAction::InstallOther
            &&& action_at(u.stage) is InstallPin ==> action_at(v.stage)
                == UpdateAction::CheckImports
        }),
{
}

/// The stage comes behind what an earlier update had set aside.
spec fn is_past_look(s: Stage) -> bool {
    match s {
        Stage::LookOld | Stage::RestoreOld => false,
        Stage::Done(Ending::Refused(Failure::OldBackups)) => false,
        _ => true,
    }
}

/// The stage comes behind all that an earlier update had left.
spec fn is_past_old(s: Stage) -> bool {
    match s {
        Stage::DropOld | Stage::ReadOld | Stage::AskOld | Stage::OtherOld => false,
        Stage::TorchOld { .. } => false,
        Stage::AskOldAgain | Stage::ForgetOld => false,
        Stage::Done(Ending::Refused(Failure::OldVersions)) => false,
        Stage::Done(Ending::Refused(Failure::OldLeft)) => false,
        _ => is_past_look(s),
    }
}

#[verifier::rlimit(60)]
#[verifier::spinoff_prover]
proof fn lemma_old_step(u: Update, e: UpdateEvent)
    requires
        update_wf(u),
        answers(u.stage, e),
    ensures
        ({
            let s = update_after(u, e).stage;
            let a = action_at(u.stage);
            &&& is_past_look(s) ==> is_past_look(u.stage) || (a == UpdateAction::LookForBackups && e
                == UpdateEvent::Missing) || (a == UpdateAction::RestoreBackups && e
                == UpdateEvent::Done)
            &&& is_past_old(s) ==> is_past_old(u.stage) || (a == UpdateAction::ReadSnapshot && e
                == UpdateEvent::Missing) || (u.stage is ForgetOld && a
                == UpdateAction::RemoveSnapshot)
            &&& s is ForgetOld ==> a == UpdateAction::AskVersions && (e == UpdateEvent::Unchanged
                || e == UpdateEvent::Restored)
        }),
{
}

proof fn lemma_old(u: Update, e: Seq<UpdateEvent>, n: int)
    requires
        is_begun(u),
        0 <= n <= e.len(),
        answered(u, e, n),
    ensures
        is_past_look(update_run(u, e, n).stage) ==> came(
            u,
            e,
            0,
            n,
            UpdateAction::LookForBackups,
            UpdateEvent::Missing,
        ) || came(u, e, 0, n, UpdateAction::RestoreBackups, UpdateEvent::Done),
        update_run(u, e, n).stage is ForgetOld ==> came(
            u,
            e,
            0,
            n,
            UpdateAction::AskVersions,
            UpdateEvent::Unchanged,
        ) || came(u, e, 0, n, UpdateAction::AskVersions, UpdateEvent::Restored),
        is_past_old(update_run(u, e, n).stage) ==> came(
            u,
            e,
            0,
            n,
            UpdateAction::ReadSnapshot,
            UpdateEvent::Missing,
        ) || (was_asked(u, e, 0, n, UpdateAction::RemoveSnapshot) && (came(
            u,
            e,
            0,
            n,
            UpdateAction::AskVersions,
            UpdateEvent::Unchanged,
        ) || came(u, e, 0, n, UpdateAction::AskVersions, UpdateEvent::Restored))),
    decreases n,
{
    if n > 0 {
        assert(answered(u, e, n - 1));
        lemma_run_wf(u, e, n - 1);
        lemma_old(u, e, n - 1);
        let v = update_run(u, e, n - 1);
        assert(answers(v.stage, e[n - 1]));
        lemma_old_step(v, e[n - 1]);
        assert(asked_at(u, e, n - 1) == action_at(v.stage));
        lemma_came_later(u, e, 0, n, UpdateAction::LookForBackups, UpdateEvent::Missing);
        lemma_came_later(u, e, 0, n, UpdateAction::RestoreBackups, UpdateEvent::Done);
        lemma_came_later(u, e, 0, n, UpdateAction::ReadSnapshot, UpdateEvent::Missing);
        lemma_came_later(u, e, 0, n, UpdateAction::AskVersions, UpdateEvent::Unchanged);
        lemma_came_later(u, e, 0, n, UpdateAction::AskVersions, UpdateEvent::Restored);
        lemma_came_later(u, e, 0, n, UpdateAction::RemoveSnapshot, e[n - 1]);
    }
}

/// Packages are changed only once what an earlier update had left is cleared up:
/// what it had set aside is back, or there was nothing; and it had noted no versions,
/// or everything is in the versions noted and the note is gone.
pub proof fn earlier_updates_are_cleared_up_first(u: Update, e: Seq<UpdateEvent>, n: int)
    requires
        is_begun(u),
        0 <= n <= e.len(),
        answered(u, e, n),
        changes_packages(asked_at(u, e, n)) || asked_at(u, e, n) == UpdateAction::FetchModels,
    ensures
        came(u, e, 0, n, UpdateAction::LookForBackups, UpdateEvent::Missing) || came(
            u,
            e,
            0,
            n,
            UpdateAction::RestoreBackups,
            UpdateEvent::Done,
        ),
        came(u, e, 0, n, UpdateAction::ReadSnapshot, UpdateEvent::Missing) || (was_asked(
            u,
            e,
            0,
            n,
            UpdateAction::RemoveSnapshot,
        ) && (came(u, e, 0, n, UpdateAction::AskVersions, UpdateEvent::Unchanged) || came(
            u,
            e,
            0,
            n,
            UpdateAction::AskVersions,
            UpdateEvent::Restored,
        ))),
{
    lemma_old(u, e, n);
}

/// What has to be brought back, as an event.
pub open spec fn restore_event(
    before: Map<Seq<char>, Seq<char>>,
    now: Map<Seq<char>, Seq<char>>,
) -> UpdateEvent {
    let p = versions::to_restore(before, now);
    if p.len() == 0 {
        UpdateEvent::Unchanged
    } else {
        UpdateEvent::Changed {
            torch: versions::specs_by_index(p, true, p.len() as int).len() > 0,
            other: versions::specs_by_index(p, false, p.len() as int).len() > 0,
        }
    }
}

proof fn lemma_parted(p: Seq<(Seq<char>, Seq<char>)>, n: int)
    requires
        0 <= n <= p.len(),
    ensures
        versions::specs_by_index(p, true, n).len() + versions::specs_by_index(p, false, n).len()
            == n,
    decreases n,
{
    if n > 0 {
        lemma_parted(p, n - 1);
    }
}

/// Says what has to be brought back to the versions noted.
pub fn versions_event(before: &NameMap, now: &NameMap) -> (r: UpdateEvent)
    requires
        before.wf(),
        now.wf(),
    ensures
        r == restore_event(before@, now@),
        r matches UpdateEvent::Changed { torch, other } ==> torch || other,
{
    let items = versions_to_restore(before, now);
    let ghost p = versions::to_restore(before@, now@);
    assert(items@.len() == versions::pair_texts(items@).len());
    if items.len() == 0 {
        return UpdateEvent::Unchanged;
    }
    let (torch, other) = split_by_index(&items);
    assert(torch@.len() == text::texts(torch@).len());
    assert(other@.len() == text::texts(other@).len());
    proof {
        lemma_parted(p, p.len() as int);
    }
    UpdateEvent::Changed { torch: torch.len() > 0, other: other.len() > 0 }
}

/// Says whether everything is back in the versions noted.
pub fn restored_event(before: &NameMap, now: &NameMap) -> (r: UpdateEvent)
    requires
        before.wf(),
        now.wf(),
    ensures
        r == (if versions::to_restore(before@, now@).len() == 0 {
            UpdateEvent::Restored
        } else {
            UpdateEvent::LeftBehind
        }),
{
    let rest = left_behind(before, now);
    if rest.len() == 0 {
        UpdateEvent::Restored
    } else {
        UpdateEvent::LeftBehind
    }
}

/// Says whether PyTorch with CUDA is still there.
pub fn torch_event(before: &NameMap, now: &NameMap) -> (r: UpdateEvent)
    requires
        before.wf(),
        now.wf(),
    ensures
        r == (if versions::torch_lost(
            names::at(before@, "torch"@),
            names::at(now@, "torch"@),
        ) is Some {
            UpdateEvent::TorchLost
        } else {
            UpdateEvent::TorchKept
        }),
{
    if cuda_torch_replaced(before, now).is_some() {
        UpdateEvent::TorchLost
    } else {
        UpdateEvent::TorchKept
    }
}

/// Says whether everything that could be imported before can be now.
pub fn imports_event(before: &Vec<ImportCheck>, after: &Vec<ImportCheck>) -> (r: UpdateEvent)
    requires
        versions::is_report(before@),
        versions::is_report(after@),
    ensures
        r == (if versions::losses_from(before@, after@, 0).len() == 0 {
            UpdateEvent::StillImports
        } else {
            UpdateEvent::Regressed
        }),
{
    let lost = import_regressions(before, after);
    assert(lost@.len() == text::texts(lost@).len());
    if lost.len() == 0 {
        UpdateEvent::StillImports
    } else {
        UpdateEvent::Regressed
    }
}

/// Says whether the check keeps the update.
pub fn gate_event(outcome: &GateOutcome, cuda_before: Option<bool>) -> (r: UpdateEvent)
    ensures
        r == (match gate::verdict_of(outcome@, cuda_before) {
            gate::Verdict::Pass(_) => UpdateEvent::Kept,
            gate::Verdict::Skip(_) => UpdateEvent::Kept,
            gate::Verdict::RollBackForVram(_) => UpdateEvent::NoVram,
            gate::Verdict::RollBack(_) => UpdateEvent::Broken,
        }),
{
    match gate_verdict(outcome, cuda_before) {
        GateVerdict::Pass(_) => UpdateEvent::Kept,
        GateVerdict::Skip(_) => UpdateEvent::Kept,
        GateVerdict::RollBackForVram(_) => UpdateEvent::NoVram,
        GateVerdict::RollBack(_) => UpdateEvent::Broken,
    }
}

/// What is told of the cause for which an update is undone, given what was
/// said of it and, where a pinned source is concerned, its name.
pub open spec fn cause_text(c: Cause, pkg: Seq<char>, why: Seq<char>) -> Seq<char> {
    match c {
        Cause::TorchInstall => "PyTorch の入れ直しに失敗しました: "@ + why,
        Cause::OtherInstall => "Python の依存の入れ直しに失敗しました: "@ + why,
        Cause::TorchLost => why + "（GPU で合成できなくなるため、元に戻します）"@,
        Cause::Regressed => "入れ直したことで import できなくなりました: "@ + why,
        Cause::PinInstall(_) => pkg + " の入れ直しに失敗しました: "@ + why,
        Cause::Models => "HF モデルの取得に失敗しました: "@ + why,
        Cause::Vram => why
            + "。VRAM を空けてから（GPU を使うほかのアプリを止めてから）、もう一度更新してください"@,
        Cause::Versions | Cause::Aside | Cause::Mark | Cause::Broken => why,
    }
}

/// What is told of the cause for which an update is undone.
pub fn describe_cause(cause: Cause, pkg: &str, why: &str) -> (r: String)
    ensures
        r@ == cause_text(cause, pkg@, why@),
{
    match cause {
        Cause::TorchInstall => {
            let mut out = owned("PyTorch の入れ直しに失敗しました: ");
            push_text(&mut out, why);
            out
        },
        Cause::OtherInstall => {
            let mut out = owned("Python の依存の入れ直しに失敗しました: ");
            push_text(&mut out, why);
            out
        },
        Cause::TorchLost => {
            let mut out = owned(why);
            push_text(
                &mut out,
                "（GPU で合成できなくなるため、元に戻します）",
            );
            out
        },
        Cause::Regressed => {
            let mut out = owned("入れ直したことで import できなくなりました: ");
            push_text(&mut out, why);
            out
        },
        Cause::PinInstall(_) => {
            let mut out = owned(pkg);
            push_text(&mut out, " の入れ直しに失敗しました: ");
            push_text(&mut out, why);
            out
        },
        Cause::Models => {
            let mut out = owned("HF モデルの取得に失敗しました: ");
            push_text(&mut out, why);
            out
        },
        Cause::Vram => {
            let mut out = owned(why);
            push_text(
                &mut out,
                "。VRAM を空けてから（GPU を使うほかのアプリを止めてから）、もう一度更新してください",
            );
            out
        },
        Cause::Versions | Cause::Aside | Cause::Mark | Cause::Broken => owned(why),
    }
}

/// What is told of an update that was undone: why, and what could not be
/// brought back.
pub open spec fn undone_text(err: Seq<char>, left: Seq<Seq<char>>) -> Seq<char> {
    if left.len() == 0 {
        err + "（入れ替えたものは元の版へ戻しました）"@
    } else {
        err + "。元に戻せなかったもの: "@ + text::joined(left, " / "@, left.len() as int)
            + "（退避と控えは残してあり、次の更新の前にもう一度戻します）"@
    }
}

/// What is told of an update that was undone.
pub fn describe_undone(err: &str, left: &Vec<String>) -> (r: String)
    ensures
        r@ == undone_text(err@, text::texts(left@)),
{
    assert(left@.len() == text::texts(left@).len());
    let mut out = owned(err);
    if left.len() == 0 {
        push_text(&mut out, "（入れ替えたものは元の版へ戻しました）");
    } else {
        push_text(&mut out, "。元に戻せなかったもの: ");
        push_text(&mut out, join(left, " / ").as_str());
        push_text(
            &mut out,
            "（退避と控えは残してあり、次の更新の前にもう一度戻します）",
        );
    }
    out
}

/// What is told where an update is given up before anything was changed, given
/// what was said of it, what could not be brought back, and where what was set
/// aside or noted is.
pub open spec fn refused_text(
    f: Failure,
    why: Seq<char>,
    left: Seq<Seq<char>>,
    place: Seq<char>,
) -> Seq<char> {
    match f {
        Failure::OldBackups => "前回の入れ直しで退避したものを戻せません。手動で戻してから再実行してください。退避先: "@
            + place + ": "@ + why,
        Failure::OldVersions => "前回の更新の後始末で、入っている版を確かめられませんでした: "@
            + why,
        Failure::OldLeft => "前回の更新で入れ替わった依存を元の版へ戻せません（通信を確かめてから、もう一度更新してください）: "@
            + text::joined(left, " / "@, left.len() as int) + "。控え: "@ + place,
        Failure::NoVersions => "更新の前に、いま入っている版を控えられませんでした（何も変えていません）: "@
            + why,
        Failure::NoSnapshot => "更新の前に、いま入っている版の控えを書けませんでした（何も変えていません）: "@
            + why,
    }
}

/// What is told where an update is given up before anything was changed.
pub fn describe_refused(f: Failure, why: &str, left: &Vec<String>, place: &str) -> (r: String)
    ensures
        r@ == refused_text(f, why@, text::texts(left@), place@),
{
    assert(left@.len() == text::texts(left@).len());
    match f {
        Failure::OldBackups => {
            let mut out = owned(
                "前回の入れ直しで退避したものを戻せません。手動で戻してから再実行してください。退避先: ",
            );
            push_text(&mut out, place);
            push_text(&mut out, ": ");
            push_text(&mut out, why);
            out
        },
        Failure::OldVersions => {
            let mut out = owned(
                "前回の更新の後始末で、入っている版を確かめられませんでした: ",
            );
            push_text(&mut out, why);
            out
        },
        Failure::OldLeft => {
            let mut out = owned(
                "前回の更新で入れ替わった依存を元の版へ戻せません（通信を確かめてから、もう一度更新してください）: ",
            );
            push_text(&mut out, join(left, " / ").as_str());
            push_text(&mut out, "。控え: ");
            push_text(&mut out, place);
            out
        },
        Failure::NoVersions => {
            let mut out = owned(
                "更新の前に、いま入っている版を控えられませんでした（何も変えていません）: ",
            );
            push_text(&mut out, why);
            out
        },
        Failure::NoSnapshot => {
            let mut out = owned(
                "更新の前に、いま入っている版の控えを書けませんでした（何も変えていません）: ",
            );
            push_text(&mut out, why);
            out
        },
    }
}

pub const PYTHON_MISSING: &'static str =
    "Python ランタイムがありません。先に初回導入を行ってください: ";

pub const PYTHON_OUTDATED: &'static str =
    "Python 本体の版が変わっています。この経路では入れ直せません（稼働中のインタプリタを差し替えられないため）。`%APPDATA%\\ugg\\irodori\\python` を削除してから、もう一度導入してください";

/// Why an update cannot be begun: Python is missing, or is itself out of date.
pub fn update_refusal(python_is_file: bool, python: &str, outdated: &Vec<String>) -> (r: Option<
    String,
>)
    ensures
        text::opt_text(r) == (if !python_is_file {
            Some(PYTHON_MISSING@ + python@)
        } else if text::texts(outdated@).contains("python"@) {
            Some(PYTHON_OUTDATED@)
        } else {
            None
        }),
{
    if !python_is_file {
        let mut out = owned(PYTHON_MISSING);
        push_text(&mut out, python);
        return Some(out);
    }
    if has_name(outdated, "python") {
        return Some(owned(PYTHON_OUTDATED));
    }
    None
}

/// What is told where everything was installed but could not be recorded.
pub fn describe_not_recorded(why: &str) -> (r: String)
    ensures
        r@ == "入れ直しは成功しましたが、導入記録を書けませんでした: "@ + why@,
{
    let mut out = owned(
        "入れ直しは成功しましたが、導入記録を書けませんでした: ",
    );
    push_text(&mut out, why);
    out
}

/// Something has to be brought back exactly where something is no longer in the version
/// noted; it is of PyTorch, or of the others, where one of these is.
pub proof fn whatever_changed_is_asked_for(
    before: Map<Seq<char>, Seq<char>>,
    now: Map<Seq<char>, Seq<char>>,
    k: int,
)
    ensures
        restore_event(before, now) == UpdateEvent::Unchanged <==> versions::to_restore(
            before,
            now,
        ).len() == 0,
        restore_event(before, now) == UpdateEvent::Unchanged || restore_event(
            before,
            now,
        ) is Changed,
        0 <= k < versions::to_restore(before, now).len() && crate::pins::is_torch(
            versions::to_restore(before, now)[k].0,
        ) ==> restore_event(before, now)->torch,
        0 <= k < versions::to_restore(before, now).len() && !crate::pins::is_torch(
            versions::to_restore(before, now)[k].0,
        ) ==> restore_event(before, now)->other,
        (restore_event(before, now) is Changed && restore_event(before, now)->torch) ==> exists|i:
            int|
            0 <= i < versions::to_restore(before, now).len() && crate::pins::is_torch(
                (#[trigger] versions::to_restore(before, now)[i]).0,
            ),
        (restore_event(before, now) is Changed && restore_event(before, now)->other) ==> exists|i:
            int|
            0 <= i < versions::to_restore(before, now).len() && !crate::pins::is_torch(
                (#[trigger] versions::to_restore(before, now)[i]).0,
            ),
{
    let p = versions::to_restore(before, now);
    lemma_index_used(p, true, p.len() as int, k);
    lemma_index_used(p, false, p.len() as int, k);
}

proof fn lemma_index_used(p: Seq<(Seq<char>, Seq<char>)>, torch: bool, n: int, k: int)
    requires
        0 <= n <= p.len(),
    ensures
        0 <= k < n && crate::pins::is_torch(p[k].0) == torch ==> versions::specs_by_index(
            p,
            torch,
            n,
        ).len() > 0,
        versions::specs_by_index(p, torch, n).len() > 0 ==> exists|i: int|
            0 <= i < n && crate::pins::is_torch((#[trigger] p[i]).0) == torch,
    decreases n,
{
    if n > 0 {
        lemma_index_used(p, torch, n - 1, k);
        if crate::pins::is_torch(p[n - 1].0) == torch {
            assert(crate::pins::is_torch(p[n - 1].0) == torch);
        }
        if versions::specs_by_index(p, torch, n - 1).len() > 0 {
            let i = choose|i: int|
                0 <= i < n - 1 && crate::pins::is_torch((#[trigger] p[i]).0) == torch;
            assert(crate::pins::is_torch(p[i].0) == torch);
        }
    }
}

/// Whatever an update is undone for, the reason is told; of a pinned source, its name.
/// What was undone is told with it, and everything that could not be brought back.
pub proof fn reasons_are_told(
    c: Cause,
    pkg: Seq<char>,
    why: Seq<char>,
    err: Seq<char>,
    left: Seq<Seq<char>>,
    k: int,
)
    ensures
        text::has_text(cause_text(c, pkg, why), why),
        c is PinInstall ==> text::has_text(cause_text(c, pkg, why), pkg),
        err.is_prefix_of(undone_text(err, left)),
        0 <= k < left.len() ==> text::has_text(undone_text(err, left), left[k]),
{
    let e = Seq::<char>::empty();
    let t = cause_text(c, pkg, why);
    match c {
        Cause::TorchInstall => {
            let h = "PyTorch の入れ直しに失敗しました: "@;
            text::lemma_holds_part(h, why, e);
            assert(h + why + e =~= t);
        },
        Cause::OtherInstall => {
            let h = "Python の依存の入れ直しに失敗しました: "@;
            text::lemma_holds_part(h, why, e);
            assert(h + why + e =~= t);
        },
        Cause::TorchLost => {
            let h = "（GPU で合成できなくなるため、元に戻します）"@;
            text::lemma_holds_part(e, why, h);
            assert(e + why + h =~= t);
        },
        Cause::Regressed => {
            let h = "入れ直したことで import できなくなりました: "@;
            text::lemma_holds_part(h, why, e);
            assert(h + why + e =~= t);
        },
        Cause::PinInstall(_) => {
            let h = " の入れ直しに失敗しました: "@;
            text::lemma_holds_part(pkg + h, why, e);
            assert(pkg + h + why + e =~= t);
            text::lemma_holds_part(e, pkg, h + why);
            assert(e + pkg + (h + why) =~= t);
        },
        Cause::Models => {
            let h = "HF モデルの取得に失敗しました: "@;
            text::lemma_holds_part(h, why, e);
            assert(h + why + e =~= t);
        },
        Cause::Vram => {
            let h = "。VRAM を空けてから（GPU を使うほかのアプリを止めてから）、もう一度更新してください"@;
            text::lemma_holds_part(e, why, h);
            assert(e + why + h =~= t);
        },
        Cause::Versions | Cause::Aside | Cause::Mark | Cause::Broken => {
            text::lemma_holds_part(e, why, e);
            assert(e + why + e =~= t);
        },
    }
    assert(undone_text(err, left).take(err.len() as int) =~= err);
    if 0 <= k < left.len() {
        let j = text::joined(left, " / "@, left.len() as int);
        text::joined_texts_are_all_there(left, " / "@, left.len() as int, k);
        let a = err + "。元に戻せなかったもの: "@;
        let b = "（退避と控えは残してあり、次の更新の前にもう一度戻します）"@;
        text::lemma_holds_more(a, j, b, left[k]);
        assert(a + j + b =~= undone_text(err, left));
    }
}

/// A refusal tells why, where there is a reason to tell; where something is left over,
/// each thing that is, and where to find what was kept.
pub proof fn refusals_tell_what_is_the_matter(
    f: Failure,
    why: Seq<char>,
    left: Seq<Seq<char>>,
    place: Seq<char>,
    k: int,
)
    ensures
        !(f is OldLeft) ==> why.is_suffix_of(refused_text(f, why, left, place)),
        f is OldLeft && 0 <= k < left.len() ==> text::has_text(
            refused_text(f, why, left, place),
            left[k],
        ),
        f is OldLeft ==> place.is_suffix_of(refused_text(f, why, left, place)),
        f is OldBackups ==> text::has_text(refused_text(f, why, left, place), place),
{
    let r = refused_text(f, why, left, place);
    if f is OldLeft {
        let a = "前回の更新で入れ替わった依存を元の版へ戻せません（通信を確かめてから、もう一度更新してください）: "@;
        let j = text::joined(left, " / "@, left.len() as int);
        let b = "。控え: "@ + place;
        assert(r =~= a + j + b);
        assert(r.subrange(r.len() - place.len(), r.len() as int) =~= place);
        if 0 <= k < left.len() {
            text::joined_texts_are_all_there(left, " / "@, left.len() as int, k);
            text::lemma_holds_more(a, j, b, left[k]);
        }
    } else {
        assert(r.subrange(r.len() - why.len(), r.len() as int) =~= why);
        if f is OldBackups {
            let a = "前回の入れ直しで退避したものを戻せません。手動で戻してから再実行してください。退避先: "@;
            text::lemma_holds_part(a, place, ": "@ + why);
            assert(a + place + (": "@ + why) =~= r);
        }
    }
}

} // verus!
