use service_shell::shutdown::{signal_message, Action, Event, Phase, ShutdownCoordinator, Signal};

#[test]
fn first_signal_starts_the_drain() {
    let mut c = ShutdownCoordinator::new();
    assert_eq!(c.phase(), Phase::Running);
    assert_eq!(c.handle(Event::Signal(Signal::Terminate)), Action::StopAccepting(Signal::Terminate));
    assert_eq!(c.phase(), Phase::Draining);
}

#[test]
fn second_signal_changes_nothing() {
    let mut c = ShutdownCoordinator::new();
    c.handle(Event::Signal(Signal::Interrupt));
    assert_eq!(c.handle(Event::Signal(Signal::Terminate)), Action::Nothing);
    assert_eq!(c.phase(), Phase::Draining);
}

#[test]
fn drain_ends_stopped() {
    let mut c = ShutdownCoordinator::new();
    c.handle(Event::Signal(Signal::Interrupt));
    assert_eq!(c.handle(Event::Drained), Action::Exit);
    assert_eq!(c.phase(), Phase::Stopped);
    assert_eq!(c.handle(Event::Signal(Signal::Interrupt)), Action::Nothing);
    assert_eq!(c.phase(), Phase::Stopped);
}

#[test]
fn signal_messages() {
    assert_eq!(signal_message(Signal::Interrupt), "shutdown: ctrl-c");
    assert_eq!(signal_message(Signal::Terminate), "shutdown: sigterm");
}
