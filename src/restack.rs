//! Restacking a chain of branches.
//!
//! From the checked-out branch the chain is climbed upstream until the
//! terminal branch is reached; every branch left on the way is put at the
//! front of a work list. The work list is then replayed front to back, so
//! each branch is reconciled onto its upstream after that upstream has
//! itself been moved. The git work is done by the caller: each step here
//! takes what the last action reported and names the next action.

use vstd::prelude::*;
use crate::graph::same_name;

verus! {

#[derive(Clone, Copy, Debug, PartialEq, Eq, Structural)]
pub enum Phase {
    /// Waiting for the name of the checked-out branch.
    AwaitCurrent,
    /// Waiting for the upstream of the branch being left.
    AwaitUpstream,
    /// Waiting for the checkout of that upstream.
    AwaitClimbCheckout,
    /// Waiting for the checkout of the branch to replay.
    AwaitReplayCheckout,
    /// Waiting for the live upstream of the branch to replay.
    AwaitReplayUpstream,
    /// Waiting for the branch to be reconciled onto its upstream.
    AwaitReconcile,
    /// Waiting for the force-push of the reconciled branch.
    AwaitPush,
    Finished,
    Failed,
}

/// What the last action reported.
#[derive(Clone, Debug)]
pub enum Event {
    /// The name of the checked-out branch.
    Current(String),
    /// The upstream of the checked-out branch.
    Upstream(String),
    /// The action completed.
    Done,
}

/// Why a restack stopped.
#[derive(Clone, Debug)]
pub enum RestackError {
    /// The climb came back to a branch it had already left.
    Cycle(String),
    /// An event that the last action cannot have produced.
    UnexpectedEvent,
}

/// The next thing to do.
#[derive(Clone, Debug)]
pub enum Action {
    /// Report the checked-out branch.
    QueryCurrent,
    /// Report the upstream of the checked-out branch.
    QueryUpstream,
    /// Check out the branch and sync submodules.
    Checkout(String),
    /// Reconcile the checked-out branch onto this upstream.
    Reconcile(String),
    /// Force-push the checked-out branch to its same-named remote branch.
    Push,
    /// The chain is restacked.
    Finish,
    /// Stop with this error.
    Fail(RestackError),
}

pub enum EventView {
    Current(Seq<char>),
    Upstream(Seq<char>),
    Done,
}

pub enum ErrorView {
    Cycle(Seq<char>),
    UnexpectedEvent,
}

pub enum ActionView {
    QueryCurrent,
    QueryUpstream,
    Checkout(Seq<char>),
    Reconcile(Seq<char>),
    Push,
    Finish,
    Fail(ErrorView),
}

impl View for Event {
    type V = EventView;

    open spec fn view(&self) -> EventView {
        match self {
            Event::Current(s) => EventView::Current(s@),
            Event::Upstream(s) => EventView::Upstream(s@),
            Event::Done => EventView::Done,
        }
    }
}

impl View for RestackError {
    type V = ErrorView;

    open spec fn view(&self) -> ErrorView {
        match self {
            RestackError::Cycle(s) => ErrorView::Cycle(s@),
            RestackError::UnexpectedEvent => ErrorView::UnexpectedEvent,
        }
    }
}

impl View for Action {
    type V = ActionView;

    open spec fn view(&self) -> ActionView {
        match self {
            Action::QueryCurrent => ActionView::QueryCurrent,
            Action::QueryUpstream => ActionView::QueryUpstream,
            Action::Checkout(s) => ActionView::Checkout(s@),
            Action::Reconcile(s) => ActionView::Reconcile(s@),
            Action::Push => ActionView::Push,
            Action::Finish => ActionView::Finish,
            Action::Fail(e) => ActionView::Fail(e@),
        }
    }
}

/// A chain restack in progress.
pub struct ChainRestack {
    /// The branch at which the climb stops.
    pub terminal: String,
    /// Whether each reconciled branch is force-pushed.
    pub push: bool,
    /// The branches left on the climb, the one nearest the terminal first.
    pub work: Vec<String>,
    /// The position in `work` of the branch being replayed.
    pub pos: usize,
    pub phase: Phase,
}

pub struct ChainView {
    pub terminal: Seq<char>,
    pub push: bool,
    pub work: Seq<Seq<char>>,
    pub pos: nat,
    pub phase: Phase,
}

impl View for ChainRestack {
    type V = ChainView;

    open spec fn view(&self) -> ChainView {
        ChainView {
            terminal: self.terminal@,
            push: self.push,
            work: self.work@.map_values(|s: String| s@),
            pos: self.pos as nat,
            phase: self.phase,
        }
    }
}

pub open spec fn is_replaying(p: Phase) -> bool {
    p == Phase::AwaitReplayCheckout || p == Phase::AwaitReplayUpstream || p
        == Phase::AwaitReconcile || p == Phase::AwaitPush
}

pub open spec fn with_phase(s: ChainView, p: Phase) -> ChainView {
    ChainView { phase: p, ..s }
}

/// The climb reached the terminal: replay the work list from its front.
pub open spec fn start_replay(s: ChainView) -> (ChainView, ActionView) {
    if s.work.len() == 0 {
        (with_phase(s, Phase::Finished), ActionView::Finish)
    } else {
        (ChainView { pos: 0, phase: Phase::AwaitReplayCheckout, ..s }, ActionView::Checkout(s.work[0]))
    }
}

/// The branch at `pos` is done: go on with the next one, if any.
pub open spec fn advance(s: ChainView) -> (ChainView, ActionView) {
    if s.pos + 1 >= s.work.len() {
        (ChainView { pos: s.pos + 1, phase: Phase::Finished, ..s }, ActionView::Finish)
    } else {
        (
            ChainView { pos: s.pos + 1, phase: Phase::AwaitReplayCheckout, ..s },
            ActionView::Checkout(s.work[s.pos + 1 as int]),
        )
    }
}

/// What a restack in state `s` does on event `e`: the next state and action.
pub open spec fn step_spec(s: ChainView, e: EventView) -> (ChainView, ActionView) {
    match (s.phase, e) {
        (Phase::AwaitCurrent, EventView::Current(name)) => if name == s.terminal {
            start_replay(s)
        } else if s.work.contains(name) {
            (with_phase(s, Phase::Failed), ActionView::Fail(ErrorView::Cycle(name)))
        } else {
            (
                ChainView { work: seq![name] + s.work, phase: Phase::AwaitUpstream, ..s },
                ActionView::QueryUpstream,
            )
        },
        (Phase::AwaitUpstream, EventView::Upstream(u)) => (
            with_phase(s, Phase::AwaitClimbCheckout),
            ActionView::Checkout(u),
        ),
        (Phase::AwaitClimbCheckout, EventView::Done) => (
            with_phase(s, Phase::AwaitCurrent),
            ActionView::QueryCurrent,
        ),
        (Phase::AwaitReplayCheckout, EventView::Done) => (
            with_phase(s, Phase::AwaitReplayUpstream),
            ActionView::QueryUpstream,
        ),
        (Phase::AwaitReplayUpstream, EventView::Upstream(u)) => (
            with_phase(s, Phase::AwaitReconcile),
            ActionView::Reconcile(u),
        ),
        (Phase::AwaitReconcile, EventView::Done) => if s.push {
            (with_phase(s, Phase::AwaitPush), ActionView::Push)
        } else {
            advance(s)
        },
        (Phase::AwaitPush, EventView::Done) => advance(s),
        (Phase::Finished, _) => (s, ActionView::Finish),
        _ => (with_phase(s, Phase::Failed), ActionView::Fail(ErrorView::UnexpectedEvent)),
    }
}

impl ChainRestack {
    /// During the replay, `pos` is a position of the work list.
    pub open spec fn wf(&self) -> bool {
        is_replaying(self.phase) ==> self.pos < self.work@.len()
    }

    /// A restack up to `terminal`; its first action is `QueryCurrent`.
    pub fn new(terminal: String, push: bool) -> (r: ChainRestack)
        ensures
            r.wf(),
            r@.terminal == terminal@,
            r@.push == push,
            r@.work.len() == 0,
            r@.phase == Phase::AwaitCurrent,
    {
        let r = ChainRestack { terminal, push, work: Vec::new(), pos: 0, phase: Phase::AwaitCurrent };
        assert(r@.work =~= Seq::<Seq<char>>::empty());
        r
    }

    /// The first action of a restack that has not started: find out which
    /// branch is checked out.
    pub fn first_action(&self) -> (a: Action)
        requires
            self@.phase == Phase::AwaitCurrent,
            self@.work.len() == 0,
        ensures
            a@ == ActionView::QueryCurrent,
    {
        Action::QueryCurrent
    }

    fn work_contains(&self, name: &str) -> (r: bool)
        ensures
            r == self@.work.contains(name@),
    {
        let mut k: usize = 0;
        while k < self.work.len()
            invariant
                k <= self.work@.len(),
                forall|t: int| 0 <= t < k ==> self.work@[t]@ != name@,
            decreases self.work@.len() - k,
        {
            if same_name(self.work[k].as_str(), name) {
                assert(self@.work[k as int] == name@);
                return true;
            }
            k = k + 1;
        }
        proof {
            if self@.work.contains(name@) {
                let t = choose|t: int| 0 <= t < self@.work.len() && self@.work[t] == name@;
                assert(self.work@[t]@ == name@);
            }
        }
        false
    }

    fn advance_exec(&mut self) -> (a: Action)
        requires
            old(self).wf(),
            is_replaying(old(self).phase),
        ensures
            final(self).wf(),
            (final(self)@, a@) == advance(old(self)@),
    {
        let n = self.work.len();
        let next = self.pos + 1;
        self.pos = next;
        if next >= n {
            self.phase = Phase::Finished;
            Action::Finish
        } else {
            self.phase = Phase::AwaitReplayCheckout;
            Action::Checkout(self.work[next].clone())
        }
    }

    /// Takes what the last action reported and names the next action.
    pub fn step(&mut self, e: Event) -> (a: Action)
        requires
            old(self).wf(),
        ensures
            final(self).wf(),
            (final(self)@, a@) == step_spec(old(self)@, e@),
    {
        match (self.phase, e) {
            (Phase::AwaitCurrent, Event::Current(name)) => {
                if same_name(name.as_str(), self.terminal.as_str()) {
                    if self.work.len() == 0 {
                        self.phase = Phase::Finished;
                        Action::Finish
                    } else {
                        self.pos = 0;
                        self.phase = Phase::AwaitReplayCheckout;
                        Action::Checkout(self.work[0].clone())
                    }
                } else if self.work_contains(name.as_str()) {
                    self.phase = Phase::Failed;
                    Action::Fail(RestackError::Cycle(name))
                } else {
                    let ghost w = self@.work;
                    self.work.insert(0, name);
                    assert(self@.work =~= seq![name@] + w);
                    self.phase = Phase::AwaitUpstream;
                    Action::QueryUpstream
                }
            },
            (Phase::AwaitUpstream, Event::Upstream(u)) => {
                self.phase = Phase::AwaitClimbCheckout;
                Action::Checkout(u)
            },
            (Phase::AwaitClimbCheckout, Event::Done) => {
                self.phase = Phase::AwaitCurrent;
                Action::QueryCurrent
            },
            (Phase::AwaitReplayCheckout, Event::Done) => {
                self.phase = Phase::AwaitReplayUpstream;
                Action::QueryUpstream
            },
            (Phase::AwaitReplayUpstream, Event::Upstream(u)) => {
                self.phase = Phase::AwaitReconcile;
                Action::Reconcile(u)
            },
            (Phase::AwaitReconcile, Event::Done) => {
                if self.push {
                    self.phase = Phase::AwaitPush;
                    Action::Push
                } else {
                    self.advance_exec()
                }
            },
            (Phase::AwaitPush, Event::Done) => self.advance_exec(),
            (Phase::Finished, _) => Action::Finish,
            _ => {
                self.phase = Phase::Failed;
                Action::Fail(RestackError::UnexpectedEvent)
            },
        }
    }
}

} // verus!
