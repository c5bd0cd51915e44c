//! Reconciling one branch onto its upstream: the branch's tip commit is
//! recorded, the branch is hard-reset onto the upstream, and the recorded
//! commit is replayed on top. The git work is done by the caller: each step
//! here takes what the last command reported and names the next command.

use vstd::prelude::*;
use crate::prune::is_clean_status;
use crate::text::contains;

verus! {

#[derive(Clone, Copy, Debug, PartialEq, Eq, Structural)]
pub enum Stage {
    /// Waiting for the tip commit of the branch.
    AwaitTip,
    /// Waiting for the branch to track the upstream.
    AwaitSetUpstream,
    /// Waiting for the working-tree status.
    AwaitStatus,
    /// Waiting for the hard reset onto the upstream.
    AwaitReset,
    /// Waiting for the submodules to follow the reset.
    AwaitResetSync,
    /// Waiting for the recorded commit to be replayed.
    AwaitPick,
    /// Waiting for the submodules to follow the replay.
    AwaitPickSync,
    Finished,
    Failed,
}

/// What the last git command reported.
#[derive(Clone, Debug)]
pub enum Reply {
    /// The command's output.
    Text(String),
    /// The command completed.
    Done,
}

/// Why a reconcile stopped.
#[derive(Clone, Debug)]
pub enum ReconcileError {
    /// The working tree is not clean; the status text says why.
    DirtyTree(String),
    /// A reply that the last command cannot have produced.
    UnexpectedReply,
}

/// The next git command.
#[derive(Clone, Debug)]
pub enum GitStep {
    /// Report the hash of the tip commit.
    LastHash,
    /// Make the checked-out branch track this upstream.
    SetUpstream(String),
    /// Report the working-tree status.
    Status,
    /// Hard-reset the checked-out branch onto this ref.
    ResetHard(String),
    /// Initialise and update the submodules.
    SyncSubmodules,
    /// Replay this commit on top of the branch.
    CherryPick(String),
    /// The branch is reconciled.
    Finish,
    /// Stop with this error.
    Fail(ReconcileError),
}

pub enum ReplyView {
    Text(Seq<char>),
    Done,
}

pub enum ReconcileErrorView {
    DirtyTree(Seq<char>),
    UnexpectedReply,
}

pub enum GitStepView {
    LastHash,
    SetUpstream(Seq<char>),
    Status,
    ResetHard(Seq<char>),
    SyncSubmodules,
    CherryPick(Seq<char>),
    Finish,
    Fail(ReconcileErrorView),
}

impl View for Reply {
    type V = ReplyView;

    open spec fn view(&self) -> ReplyView {
        match self {
            Reply::Text(s) => ReplyView::Text(s@),
            Reply::Done => ReplyView::Done,
        }
    }
}

impl View for GitStep {
    type V = GitStepView;

    open spec fn view(&self) -> GitStepView {
        match self {
            GitStep::LastHash => GitStepView::LastHash,
            GitStep::SetUpstream(s) => GitStepView::SetUpstream(s@),
            GitStep::Status => GitStepView::Status,
            GitStep::ResetHard(s) => GitStepView::ResetHard(s@),
            GitStep::SyncSubmodules => GitStepView::SyncSubmodules,
            GitStep::CherryPick(s) => GitStepView::CherryPick(s@),
            GitStep::Finish => GitStepView::Finish,
            GitStep::Fail(ReconcileError::DirtyTree(s)) => GitStepView::Fail(
                ReconcileErrorView::DirtyTree(s@),
            ),
            GitStep::Fail(ReconcileError::UnexpectedReply) => GitStepView::Fail(
                ReconcileErrorView::UnexpectedReply,
            ),
        }
    }
}

/// A reconcile of the checked-out branch onto `upstream` in progress.
pub struct Reconcile {
    pub upstream: String,
    /// The tip commit recorded before the reset.
    pub commit: String,
    pub stage: Stage,
}

pub struct ReconcileView {
    pub upstream: Seq<char>,
    pub commit: Seq<char>,
    pub stage: Stage,
}

impl View for Reconcile {
    type V = ReconcileView;

    open spec fn view(&self) -> ReconcileView {
        ReconcileView { upstream: self.upstream@, commit: self.commit@, stage: self.stage }
    }
}

/// Whether a status text reports a clean working tree.
pub open spec fn clean_spec(status: Seq<char>) -> bool {
    contains(status, "nothing to commit, working directory clean"@) || contains(
        status,
        "nothing to commit, working tree clean"@,
    )
}

pub open spec fn at_stage(s: ReconcileView, st: Stage) -> ReconcileView {
    ReconcileView { stage: st, ..s }
}

/// What a reconcile in state `s` does on reply `r`: the next state and
/// command. Each command waits for its predecessor; a dirty tree stops the
/// reconcile before anything is reset.
pub open spec fn reconcile_spec(s: ReconcileView, r: ReplyView) -> (ReconcileView, GitStepView) {
    match (s.stage, r) {
        (Stage::AwaitTip, ReplyView::Text(hash)) => (
            ReconcileView { commit: hash, stage: Stage::AwaitSetUpstream, ..s },
            GitStepView::SetUpstream(s.upstream),
        ),
        (Stage::AwaitSetUpstream, ReplyView::Done) => (
            at_stage(s, Stage::AwaitStatus),
            GitStepView::Status,
        ),
        (Stage::AwaitStatus, ReplyView::Text(status)) => if clean_spec(status) {
            (at_stage(s, Stage::AwaitReset), GitStepView::ResetHard(s.upstream))
        } else {
            (
                at_stage(s, Stage::Failed),
                GitStepView::Fail(ReconcileErrorView::DirtyTree(status)),
            )
        },
        (Stage::AwaitReset, ReplyView::Done) => (
            at_stage(s, Stage::AwaitResetSync),
            GitStepView::SyncSubmodules,
        ),
        (Stage::AwaitResetSync, ReplyView::Done) => (
            at_stage(s, Stage::AwaitPick),
            GitStepView::CherryPick(s.commit),
        ),
        (Stage::AwaitPick, ReplyView::Done) => (
            at_stage(s, Stage::AwaitPickSync),
            GitStepView::SyncSubmodules,
        ),
        (Stage::AwaitPickSync, ReplyView::Done) => (
            at_stage(s, Stage::Finished),
            GitStepView::Finish,
        ),
        (Stage::Finished, _) => (s, GitStepView::Finish),
        _ => (at_stage(s, Stage::Failed), GitStepView::Fail(ReconcileErrorView::UnexpectedReply)),
    }
}

impl Reconcile {
    /// A reconcile onto `upstream`; its first command is `LastHash`.
    pub fn new(upstream: String) -> (r: Reconcile)
        ensures
            r@.upstream == upstream@,
            r@.commit.len() == 0,
            r@.stage == Stage::AwaitTip,
    {
        let r = Reconcile { upstream, commit: String::new(), stage: Stage::AwaitTip };
        r
    }

    /// The first command of a reconcile that has not started: record the tip
    /// commit.
    pub fn first_step(&self) -> (g: GitStep)
        requires
            self@.stage == Stage::AwaitTip,
        ensures
            g@ == GitStepView::LastHash,
    {
        GitStep::LastHash
    }

    /// Takes what the last command reported and names the next command.
    pub fn step(&mut self, r: Reply) -> (g: GitStep)
        ensures
            (final(self)@, g@) == reconcile_spec(old(self)@, r@),
    {
        match (self.stage, r) {
            (Stage::AwaitTip, Reply::Text(hash)) => {
                self.commit = hash;
                self.stage = Stage::AwaitSetUpstream;
                GitStep::SetUpstream(self.upstream.clone())
            },
            (Stage::AwaitSetUpstream, Reply::Done) => {
                self.stage = Stage::AwaitStatus;
                GitStep::Status
            },
            (Stage::AwaitStatus, Reply::Text(status)) => {
                if is_clean_status(status.as_str()) {
                    self.stage = Stage::AwaitReset;
                    GitStep::ResetHard(self.upstream.clone())
                } else {
                    self.stage = Stage::Failed;
                    GitStep::Fail(ReconcileError::DirtyTree(status))
                }
            },
            (Stage::AwaitReset, Reply::Done) => {
                self.stage = Stage::AwaitResetSync;
                GitStep::SyncSubmodules
            },
            (Stage::AwaitResetSync, Reply::Done) => {
                self.stage = Stage::AwaitPick;
                GitStep::CherryPick(self.commit.clone())
            },
            (Stage::AwaitPick, Reply::Done) => {
                self.stage = Stage::AwaitPickSync;
                GitStep::SyncSubmodules
            },
            (Stage::AwaitPickSync, Reply::Done) => {
                self.stage = Stage::Finished;
                GitStep::Finish
            },
            (Stage::Finished, _) => GitStep::Finish,
            _ => {
                self.stage = Stage::Failed;
                GitStep::Fail(ReconcileError::UnexpectedReply)
            },
        }
    }
}

} // verus!
