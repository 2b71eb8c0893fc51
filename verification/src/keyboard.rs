//! What the keys do.
//!
//! Whoever polls the window hands the events of one poll to
//! `check_keyboard` and gets back what they amount to: whether to go on,
//! the scale to draw at, and how far the camera moved. The camera moves in
//! whole steps along the axes, so the move is three counts of steps.

use vstd::prelude::*;

verus! {

/// The keys that mean something, and `Other` for the rest.
#[derive(Clone, Copy, Debug, PartialEq, Eq, Structural)]
pub enum Key {
    Escape,
    W,
    S,
    D,
    A,
    Space,
    LShift,
    P,
    M,
    Other,
}

/// An event of the window.
#[derive(Clone, Copy, Debug, PartialEq, Eq, Structural)]
pub enum Event {
    Quit,
    KeyDown(Key),
    Other,
}

/// What one event asks for.
#[derive(Clone, Copy, Debug, PartialEq, Eq, Structural)]
pub enum Command {
    /// Stop the program.
    Stop,
    /// Move the camera by one step along an axis.
    Step { dx: i8, dy: i8, dz: i8 },
    /// Draw at this scale from now on.
    Scale(usize),
    /// Nothing.
    Nothing,
}

/// What the events of one poll amount to.
#[derive(Clone, Copy, Debug, PartialEq, Eq, Structural)]
pub struct Poll {
    pub running: bool,
    pub scale: usize,
    pub dx: i128,
    pub dy: i128,
    pub dz: i128,
}

/// The scale that `P` selects.
pub const COARSE_SCALE: usize = 8;

/// The scale that `M` selects.
pub const FINE_SCALE: usize = 1;

/// The command of each event: closing the window and `Escape` stop; `W`
/// and `S` step forward and back along z, `D` and `A` right and left along
/// x, `Space` and the left shift key up and down along y; `P` and `M` set
/// the scale.
pub open spec fn command_of(event: Event) -> Command {
    match event {
        Event::Quit => Command::Stop,
        Event::KeyDown(Key::Escape) => Command::Stop,
        Event::KeyDown(Key::W) => Command::Step { dx: 0, dy: 0, dz: 1 },
        Event::KeyDown(Key::S) => Command::Step { dx: 0, dy: 0, dz: (-1i8) },
        Event::KeyDown(Key::D) => Command::Step { dx: 1, dy: 0, dz: 0 },
        Event::KeyDown(Key::A) => Command::Step { dx: (-1i8), dy: 0, dz: 0 },
        Event::KeyDown(Key::Space) => Command::Step { dx: 0, dy: 1, dz: 0 },
        Event::KeyDown(Key::LShift) => Command::Step { dx: 0, dy: (-1i8), dz: 0 },
        Event::KeyDown(Key::P) => Command::Scale(COARSE_SCALE),
        Event::KeyDown(Key::M) => Command::Scale(FINE_SCALE),
        Event::KeyDown(Key::Other) => Command::Nothing,
        Event::Other => Command::Nothing,
    }
}

/// Whether the program still runs after the events: it ran before and none
/// of them stops it.
pub open spec fn runs_after(events: Seq<Event>, running: bool) -> bool {
    running && forall|i: int| 0 <= i < events.len() ==> command_of(#[trigger] events[i])
        != Command::Stop
}

/// The scale after the events: that of the last event that sets one, and
/// the old scale if none does.
pub open spec fn scale_after(events: Seq<Event>, scale: usize) -> usize
    decreases events.len(),
{
    if events.len() == 0 {
        scale
    } else {
        match command_of(events.last()) {
            Command::Scale(s) => s,
            _ => scale_after(events.drop_last(), scale),
        }
    }
}

/// The steps of one command along x, y and z.
pub open spec fn steps_of(c: Command) -> (int, int, int) {
    match c {
        Command::Step { dx, dy, dz } => (dx as int, dy as int, dz as int),
        _ => (0, 0, 0),
    }
}

/// The steps of all the events together along x, y and z.
pub open spec fn net_steps(events: Seq<Event>) -> (int, int, int)
    decreases events.len(),
{
    if events.len() == 0 {
        (0, 0, 0)
    } else {
        let rest = net_steps(events.drop_last());
        let step = steps_of(command_of(events.last()));
        (rest.0 + step.0, rest.1 + step.1, rest.2 + step.2)
    }
}

/// The command of one event.
pub fn command(event: Event) -> (c: Command)
    ensures
        c == command_of(event),
{
    match event {
        Event::Quit => Command::Stop,
        Event::KeyDown(key) => match key {
            Key::Escape => Command::Stop,
            Key::W => Command::Step { dx: 0, dy: 0, dz: 1 },
            Key::S => Command::Step { dx: 0, dy: 0, dz: -1 },
            Key::D => Command::Step { dx: 1, dy: 0, dz: 0 },
            Key::A => Command::Step { dx: -1, dy: 0, dz: 0 },
            Key::Space => Command::Step { dx: 0, dy: 1, dz: 0 },
            Key::LShift => Command::Step { dx: 0, dy: -1, dz: 0 },
            Key::P => Command::Scale(COARSE_SCALE),
            Key::M => Command::Scale(FINE_SCALE),
            Key::Other => Command::Nothing,
        },
        Event::Other => Command::Nothing,
    }
}

/// Checks the events of one poll, in the order they came, and says what
/// they amount to.
pub fn check_keyboard(events: &Vec<Event>, running: bool, scale: usize) -> (poll: Poll)
    ensures
        poll.running == runs_after(events@, running),
        poll.scale == scale_after(events@, scale),
        (poll.dx as int, poll.dy as int, poll.dz as int) == net_steps(events@),
{
    let mut poll = Poll { running, scale, dx: 0, dy: 0, dz: 0 };
    for k in 0..events.len()
        invariant
            poll.running == runs_after(events@.take(k as int), running),
            poll.scale == scale_after(events@.take(k as int), scale),
            (poll.dx as int, poll.dy as int, poll.dz as int) == net_steps(events@.take(k as int)),
            -k <= poll.dx <= k,
            -k <= poll.dy <= k,
            -k <= poll.dz <= k,
    {
        let ghost before = events@.take(k as int);
        let ghost after = events@.take(k + 1);
        proof {
            assert(after.drop_last() == before);
            assert(after.last() == events@[k as int]);
            assert(forall|i: int| 0 <= i < k ==> before[i] == after[i]);
            if runs_after(before, running) && command_of(events@[k as int]) != Command::Stop {
                assert forall|i: int| 0 <= i < after.len() implies command_of(#[trigger] after[i])
                    != Command::Stop by {
                    if i < k {
                        assert(before[i] == after[i]);
                    }
                }
            }
            if !runs_after(before, running) && running {
                let i = choose|i: int|
                    0 <= i < before.len() && command_of(#[trigger] before[i]) == Command::Stop;
                assert(after[i] == before[i]);
            }
        }
        match command(events[k]) {
            Command::Stop => {
                poll.running = false;
            },
            Command::Step { dx, dy, dz } => {
                poll.dx = poll.dx + dx as i128;
                poll.dy = poll.dy + dy as i128;
                poll.dz = poll.dz + dz as i128;
            },
            Command::Scale(s) => {
                poll.scale = s;
            },
            Command::Nothing => {},
        }
    }
    assert(events@.take(events.len() as int) == events@);
    poll
}

} // verus!
