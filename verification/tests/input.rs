use ipts::mtinput::InputCommand::{PositionX, PositionY, PressTouch, Slot, Synchronize, TrackingId};
use ipts::mtinput::{dispatch_commands, InputCommand};
use ipts::mux::{BackendAction, InputMultiplexer, NO_CONNECTION};
use ipts::{Counter, Report};

#[test]
fn counter_counts_from_zero() {
    let mut c = Counter::default();
    assert_eq!(c.gen_id(), 0);
    assert_eq!(c.gen_id(), 1);
    assert_eq!(c.gen_id(), 2);
}

#[test]
fn commands_for_a_frame() {
    let mut c = Counter::default();
    let mut events = [Report::Idle; 10];
    events[0] = Report::Down((10, 20));
    events[3] = Report::Move((1, 2));
    events[5] = Report::Up;
    events[9] = Report::UpDown((7, 8));
    let cmds = dispatch_commands(&events, &mut c);
    assert_eq!(
        cmds,
        vec![
            Slot(0),
            PressTouch,
            TrackingId(0),
            PositionX(10),
            PositionY(20),
            Slot(3),
            PositionX(1),
            PositionY(2),
            Slot(5),
            TrackingId(-1),
            Slot(9),
            TrackingId(-1),
            PressTouch,
            TrackingId(1),
            PositionX(7),
            PositionY(8),
            Synchronize,
        ]
    );
    assert_eq!(c.gen_id(), 2);
}

#[test]
fn commands_for_an_idle_frame() {
    let mut c = Counter::default();
    assert_eq!(dispatch_commands(&[Report::Idle; 10], &mut c), vec![InputCommand::Synchronize]);
    assert_eq!(c.gen_id(), 0);
}

#[test]
fn mux_ids_are_fresh() {
    let mut m = InputMultiplexer::new();
    assert_eq!(m.current(), NO_CONNECTION);
    assert_eq!(m.fork(), 1);
    assert_eq!(m.fork(), 2);
}

#[test]
fn mux_holder_excludes_others() {
    let mut m = InputMultiplexer::new();
    let a = m.fork();
    let b = m.fork();
    assert_eq!(m.claim_send(a, 100), (BackendAction::ResetAndDispatch, true));
    assert_eq!(m.current(), a);
    assert_eq!(m.send(b, true, 150), (BackendAction::Nothing, false));
    assert_eq!(m.release(b, true), BackendAction::Nothing);
    assert_eq!(m.current(), a);
    assert_eq!(m.send(a, false, 150), (BackendAction::Nothing, false));
    assert_eq!(m.send(a, true, 150), (BackendAction::Dispatch, true));
    assert_eq!(m.send(a, true, 150), (BackendAction::Dispatch, false));
    assert_eq!(m.claim_send(b, 200), (BackendAction::ResetAndDispatch, true));
    assert_eq!(m.current(), b);
    assert_eq!(m.release(b, true), BackendAction::Reset);
    assert_eq!(m.current(), NO_CONNECTION);
}

#[test]
fn mux_watchdog() {
    let mut m = InputMultiplexer::new();
    assert_eq!(m.gc_wait(0), None);
    let a = m.fork();
    m.claim_send(a, 100);
    assert_eq!(m.gc_wait(500), Some(1100));
    assert_eq!(m.kick_watchdog(50), false);
    assert_eq!(m.gc(1099), BackendAction::Nothing);
    assert_eq!(m.current(), a);
    assert_eq!(m.gc(1100), BackendAction::Reset);
    assert_eq!(m.current(), NO_CONNECTION);
    assert_eq!(m.gc_wait(1100), None);
}
