//! What a multitouch input device is told for a frame of slot events.
use crate::pointers::report::{next_tracking_id, Counter, Report};
use vstd::prelude::*;

verus! {

/// One command to the input device.
#[derive(Debug, PartialEq, Eq, Structural, Clone, Copy)]
pub enum InputCommand {
    /// Select a multitouch slot.
    Slot(i32),
    /// Set the tracking id of the selected slot; -1 releases it.
    TrackingId(i32),
    /// Press the touch button.
    PressTouch,
    /// Set the x position in the selected slot.
    PositionX(i32),
    /// Set the y position in the selected slot.
    PositionY(i32),
    /// End the frame.
    Synchronize,
}

/// The commands for slot `i` with event `e`, `id` being the next tracking id.
pub open spec fn slot_commands(i: int, e: Report, id: i32) -> Seq<InputCommand> {
    match e {
        Report::Idle => seq![],
        Report::Up => seq![InputCommand::Slot(i as i32), InputCommand::TrackingId(-1i32)],
        Report::UpDown(p) => seq![
            InputCommand::Slot(i as i32),
            InputCommand::TrackingId(-1i32),
            InputCommand::PressTouch,
            InputCommand::TrackingId(id),
            InputCommand::PositionX(p.0 as i32),
            InputCommand::PositionY(p.1 as i32),
        ],
        Report::Down(p) => seq![
            InputCommand::Slot(i as i32),
            InputCommand::PressTouch,
            InputCommand::TrackingId(id),
            InputCommand::PositionX(p.0 as i32),
            InputCommand::PositionY(p.1 as i32),
        ],
        Report::Move(p) => seq![
            InputCommand::Slot(i as i32),
            InputCommand::PositionX(p.0 as i32),
            InputCommand::PositionY(p.1 as i32),
        ],
    }
}

/// The event puts a new touch down and so takes a tracking id.
pub open spec fn takes_id(e: Report) -> bool {
    e is Down || e is UpDown
}

/// The commands for slots `0..k`, and the next tracking id after them.
pub open spec fn plan_upto(events: Seq<Report>, k: int, id: i32) -> (Seq<InputCommand>, i32)
    decreases k,
{
    if k <= 0 {
        (seq![], id)
    } else {
        let (cmds, next) = plan_upto(events, k - 1, id);
        (
            cmds + slot_commands(k - 1, events[k - 1], next),
            if takes_id(events[k - 1]) {
                next_tracking_id(next)
            } else {
                next
            },
        )
    }
}

/// The commands for a frame of slot events: for each slot with an event,
/// select it, release its old touch if lifted, press with a fresh tracking id
/// if a touch is put down, and set the position of a touch; then end the frame.
pub fn dispatch_commands(events: &[Report; 10], counter: &mut Counter) -> (r: Vec<InputCommand>)
    ensures
        r@ == plan_upto(events@, 10, old(counter)@).0.push(InputCommand::Synchronize),
        final(counter)@ == plan_upto(events@, 10, old(counter)@).1,
{
    let ghost id0 = counter@;
    let mut cmds: Vec<InputCommand> = Vec::new();
    let mut i: usize = 0;
    while i < 10
        invariant
            0 <= i <= 10,
            (cmds@, counter@) == plan_upto(events@, i as int, id0),
        decreases 10 - i,
    {
        let ghost before = cmds@;
        let ghost id = counter@;
        let e = events[i];
        match e {
            Report::Idle => {},
            _ => {
                cmds.push(InputCommand::Slot(i as i32));
                match e {
                    Report::Up | Report::UpDown(_) => cmds.push(InputCommand::TrackingId(-1)),
                    _ => {},
                }
                match e {
                    Report::Down(_) | Report::UpDown(_) => {
                        cmds.push(InputCommand::PressTouch);
                        let id = counter.gen_id();
                        cmds.push(InputCommand::TrackingId(id));
                    },
                    _ => {},
                }
                match e {
                    Report::Down(x) | Report::UpDown(x) | Report::Move(x) => {
                        cmds.push(InputCommand::PositionX(x.0 as i32));
                        cmds.push(InputCommand::PositionY(x.1 as i32));
                    },
                    _ => {},
                }
            },
        }
        assert(cmds@ =~= before + slot_commands(i as int, e, id));
        i += 1;
    }
    cmds.push(InputCommand::Synchronize);
    cmds
}

} // verus!
