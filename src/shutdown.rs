//! Graceful shutdown: `Running`, then `Draining` on the first termination
//! signal, then `Stopped` once the requests in flight have finished.
use vstd::prelude::*;

verus! {

#[derive(Clone, Copy, Debug, PartialEq, Eq, Structural)]
pub enum Phase {
    /// New connections are accepted.
    Running,
    /// No new connection is accepted; requests in flight run to completion.
    Draining,
    /// Terminal: the process may exit.
    Stopped,
}

/// A termination signal.
#[derive(Clone, Copy, Debug, PartialEq, Eq, Structural)]
pub enum Signal {
    /// An interactive interrupt (ctrl-c).
    Interrupt,
    /// The platform's terminate signal.
    Terminate,
}

#[derive(Clone, Copy, Debug, PartialEq, Eq, Structural)]
pub enum Event {
    Signal(Signal),
    /// The server has stopped and every request in flight has finished.
    Drained,
}

/// What the server has to do after an event.
#[derive(Clone, Copy, Debug, PartialEq, Eq, Structural)]
pub enum Action {
    /// Stop accepting connections and drain; the signal that asked for it is logged.
    StopAccepting(Signal),
    /// Shutdown is complete.
    Exit,
    Nothing,
}

pub open spec fn step(p: Phase, e: Event) -> (Phase, Action) {
    match (p, e) {
        (Phase::Running, Event::Signal(s)) => (Phase::Draining, Action::StopAccepting(s)),
        (Phase::Running, Event::Drained) => (Phase::Stopped, Action::Exit),
        (Phase::Draining, Event::Signal(_)) => (Phase::Draining, Action::Nothing),
        (Phase::Draining, Event::Drained) => (Phase::Stopped, Action::Exit),
        (Phase::Stopped, _) => (Phase::Stopped, Action::Nothing),
    }
}

/// The shutdown state machine.
#[derive(Debug)]
pub struct ShutdownCoordinator {
    phase: Phase,
}

impl View for ShutdownCoordinator {
    type V = Phase;

    closed spec fn view(&self) -> Phase {
        self.phase
    }
}

impl ShutdownCoordinator {
    pub fn new() -> (r: ShutdownCoordinator)
        ensures
            r@ == Phase::Running,
    {
        ShutdownCoordinator { phase: Phase::Running }
    }

    pub fn phase(&self) -> (r: Phase)
        ensures
            r == self@,
    {
        self.phase
    }

    /// Takes one event and says what to do about it.
    pub fn handle(&mut self, e: Event) -> (a: Action)
        ensures
            (final(self)@, a) == step(old(self)@, e),
    {
        let (p, a) = match (self.phase, e) {
            (Phase::Running, Event::Signal(s)) => (Phase::Draining, Action::StopAccepting(s)),
            (Phase::Running, Event::Drained) => (Phase::Stopped, Action::Exit),
            (Phase::Draining, Event::Signal(_)) => (Phase::Draining, Action::Nothing),
            (Phase::Draining, Event::Drained) => (Phase::Stopped, Action::Exit),
            (Phase::Stopped, _) => (Phase::Stopped, Action::Nothing),
        };
        self.phase = p;
        a
    }
}

/// The log line for the signal that started the drain.
pub fn signal_message(s: Signal) -> (r: &'static str)
    ensures
        s is Interrupt ==> r@ == "shutdown: ctrl-c"@,
        s is Terminate ==> r@ == "shutdown: sigterm"@,
{
    match s {
        Signal::Interrupt => "shutdown: ctrl-c",
        Signal::Terminate => "shutdown: sigterm",
    }
}

/// Only the first signal moves the server: a second one while it drains
/// changes nothing and asks for nothing.
pub proof fn law_one_transition(first: Signal, second: Signal)
    ensures
        step(Phase::Running, Event::Signal(first)) == (
            Phase::Draining,
            Action::StopAccepting(first),
        ),
        step(step(Phase::Running, Event::Signal(first)).0, Event::Signal(second)) == (
            Phase::Draining,
            Action::Nothing,
        ),
{
}

/// `Stopped` is terminal, and draining always ends in it.
pub proof fn law_stopped_is_terminal(p: Phase, e: Event)
    ensures
        step(Phase::Stopped, e).0 == Phase::Stopped,
        step(p, Event::Drained).0 == Phase::Stopped,
{
}

} // verus!
