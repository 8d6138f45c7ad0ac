//! Supervision of long-running run commands.
//!
//! Per target there is at most one live supervised run.  On a successful
//! rebuild the previous run is told to stop — an enumerated control message
//! on its own channel — and a new session starts.  A session walks its run
//! list in order: the next command starts only when the previous one exits,
//! and a stop signal ends the session without starting further commands.

use vstd::prelude::*;
use crate::domain::Target;
use crate::domain::contains_string;
use crate::domain::insert_name;
use crate::domain::spec_distinct;
use crate::scheduler::BuildResultState;

verus! {

/// The control message a running session can receive.
pub enum RunSignal {
    Kill,
}

/// What the embedding program must do after a build result: stop the
/// previous run of the target, start a new session, or both.
pub struct RunAction {
    pub kill_previous: bool,
    pub start_new: bool,
}

/// The targets that currently hold a live run handle — at most one handle
/// per target at any time.
pub struct RunRegistry {
    active: Vec<String>,
}

impl View for RunRegistry {
    type V = Seq<Seq<char>>;

    closed spec fn view(&self) -> Seq<Seq<char>> {
        self.active.deep_view()
    }
}

impl RunRegistry {
    /// No target holds two handles.
    pub closed spec fn wf(&self) -> bool {
        spec_distinct(self.active.deep_view())
    }

    /// An empty registry: no run has started yet.
    pub fn new() -> (r: RunRegistry)
        ensures
            r.wf(),
            r@ == Seq::<Seq<char>>::empty(),
    {
        let r = RunRegistry { active: Vec::new() };
        proof {
            assert(r@ =~= Seq::<Seq<char>>::empty());
        }
        r
    }

    /// Does the target currently hold a live run handle?
    pub fn has_active(&self, name: &String) -> (r: bool)
        ensures
            r == self@.contains(name@),
    {
        contains_string(&self.active, name)
    }

    /// The decision after one build result.  Only a successful build of a
    /// target with run commands touches the supervisor: its previous run —
    /// if one exists — is to be stopped, and a new session started; the
    /// registry then holds exactly one handle for the target.  A skipped
    /// build leaves a running process untouched, and a target without run
    /// commands never appears in the registry.
    pub fn on_build_result(&mut self, target: &Target, result_state: &BuildResultState) -> (r:
        RunAction)
        requires
            old(self).wf(),
        ensures
            final(self).wf(),
            r.start_new == (result_state is Success && target@.run_list.len() > 0),
            r.kill_previous == (r.start_new && old(self)@.contains(target@.name)),
            forall|x: Seq<char>|
                final(self)@.contains(x) == (old(self)@.contains(x) || (r.start_new && x
                    == target@.name)),
    {
        let is_success = match result_state {
            BuildResultState::Success => true,
            _ => false,
        };
        if is_success && target.run_list.len() > 0 {
            let kill_previous = self.has_active(&target.name);
            insert_name(&mut self.active, &target.name);
            RunAction { kill_previous, start_new: true }
        } else {
            proof {
                assert forall|x: Seq<char>|
                    self@.contains(x) == (old(self)@.contains(x) || (false && x
                        == target@.name)) by {}
            }
            RunAction { kill_previous: false, start_new: false }
        }
    }
}

/// After a successful rebuild of a target with run commands, the target is
/// supervised again: the new registry holds its handle, its previous
/// handle — exactly when one existed — was ordered killed, and nothing
/// else entered the registry.
pub proof fn law_single_live_run(
    reg0: Seq<Seq<char>>,
    reg1: Seq<Seq<char>>,
    name: Seq<char>,
    r: RunAction,
)
    requires
        r.start_new,
        r.kill_previous == reg0.contains(name),
        forall|x: Seq<char>| reg1.contains(x) == (reg0.contains(x) || x == name),
    ensures
        reg1.contains(name),
        r.kill_previous <==> reg0.contains(name),
        forall|x: Seq<char>| reg1.contains(x) ==> reg0.contains(x) || x == name,
{
}

/// One step the embedding program must perform for a session.
pub enum RunStep {
    Start(String),
    Done,
    Stop,
}

/// A run session: the target's run list, walked strictly in order.
pub struct RunSession {
    commands: Vec<String>,
    next: usize,
    cancelled: bool,
}

/// Mathematical image of a [`RunSession`].
pub struct SessionSpec {
    pub commands: Seq<Seq<char>>,
    pub next: int,
    pub cancelled: bool,
}

impl View for RunSession {
    type V = SessionSpec;

    closed spec fn view(&self) -> SessionSpec {
        SessionSpec {
            commands: self.commands.deep_view(),
            next: self.next as int,
            cancelled: self.cancelled,
        }
    }
}

/// What happened while a session waited: its active command exited on its
/// own, or a control signal arrived.
pub enum RunEvent {
    Exited,
    Signal(RunSignal),
}

impl RunSession {
    /// The position is within bounds.
    pub closed spec fn wf(&self) -> bool {
        self.next <= self.commands@.len()
    }

    /// A fresh session over the target's run list, positioned at its first
    /// command.
    pub fn new(target: &Target) -> (r: RunSession)
        ensures
            r.wf(),
            r@.commands == target@.run_list,
            r@.next == 0,
            !r@.cancelled,
    {
        RunSession {
            commands: crate::domain::clone_strings(&target.run_list),
            next: 0,
            cancelled: false,
        }
    }

    /// The first step of the session: start the first command, or — for an
    /// empty run list — nothing at all.
    pub fn begin(&self) -> (r: RunStep)
        requires
            self.wf(),
            self@.next == 0,
            !self@.cancelled,
        ensures
            match r {
                RunStep::Start(c) => self@.commands.len() > 0 && c@ == self@.commands[0],
                RunStep::Done => self@.commands.len() == 0,
                RunStep::Stop => false,
            },
    {
        if self.commands.len() == 0 {
            RunStep::Done
        } else {
            proof {
                assert(self.commands@[0]@ == self@.commands[0]);
            }
            RunStep::Start(self.commands[0].clone())
        }
    }

    /// Is the session still waiting on an active command?  Only then can
    /// an event advance it.
    pub fn is_active(&self) -> (r: bool)
        requires
            self.wf(),
        ensures
            r == (self@.next < self@.commands.len() && !self@.cancelled),
    {
        self.next < self.commands.len() && !self.cancelled
    }

    /// Advance the session on an event.  A natural exit starts the next
    /// command, or finishes the session after the last one.  A stop signal
    /// ends the session at once: no further command ever starts.
    pub fn advance(&mut self, event: RunEvent) -> (r: RunStep)
        requires
            old(self).wf(),
            !old(self)@.cancelled,
            old(self)@.next < old(self)@.commands.len(),
        ensures
            final(self).wf(),
            final(self)@.commands == old(self)@.commands,
            match event {
                RunEvent::Exited => {
                    &&& final(self)@.next == old(self)@.next + 1
                    &&& !final(self)@.cancelled
                    &&& match r {
                        RunStep::Start(c) => final(self)@.next < final(self)@.commands.len() && c@
                            == final(self)@.commands[final(self)@.next],
                        RunStep::Done => final(self)@.next == final(self)@.commands.len(),
                        RunStep::Stop => false,
                    }
                },
                RunEvent::Signal(RunSignal::Kill) => {
                    &&& final(self)@.next == old(self)@.next
                    &&& final(self)@.cancelled
                    &&& r is Stop
                },
            },
    {
        match event {
            RunEvent::Exited => {
                let len = self.commands.len();
                proof {
                    assert(self.next < len);
                }
                self.next = self.next + 1;
                if self.next < self.commands.len() {
                    proof {
                        assert(self.commands@[self.next as int]@ == self@.commands[self@.next]);
                    }
                    RunStep::Start(self.commands[self.next].clone())
                } else {
                    RunStep::Done
                }
            },
            RunEvent::Signal(RunSignal::Kill) => {
                self.cancelled = true;
                RunStep::Stop
            },
        }
    }
}

} // verus!
