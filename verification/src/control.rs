//! What the keys that are down ask of the simulation.

use vstd::prelude::*;
use crate::traffic::direction::Direction;

verus! {

/// The keys that the simulation listens to, each with whether it was pressed
/// since the last tick.
#[derive(Clone, Copy, Debug, PartialEq, Eq, Structural)]
pub struct Keys {
    pub escape: bool,
    pub space: bool,
    pub p: bool,
    pub up: bool,
    pub down: bool,
    pub left: bool,
    pub right: bool,
    pub r: bool,
}

/// What can be asked of the simulation.
#[derive(Clone, Copy, Debug, PartialEq, Eq, Structural)]
pub enum Command {
    /// Leave the program.
    Exit,
    /// Pause the simulation, or take it up again.
    TogglePause,
    /// Let a car in from the given side.
    GenCar(Direction),
    /// Let a car in from any side.
    GenCarRandom,
}

/// All keys up.
pub open spec fn no_keys() -> Keys {
    Keys {
        escape: false,
        space: false,
        p: false,
        up: false,
        down: false,
        left: false,
        right: false,
        r: false,
    }
}

/// The command, if `pressed`, and nothing if not.
pub open spec fn when(pressed: bool, command: Command) -> Seq<Command> {
    if pressed {
        seq![command]
    } else {
        Seq::empty()
    }
}

/// The commands that the keys give, in the order in which they are carried
/// out.
///
/// While the simulation is paused, escape leaves the program, and space or P
/// takes the simulation up again; no other key is heard. While it runs, escape
/// or P pauses it, an arrow lets a car in that drives the way the arrow
/// points, so from the side across, and R lets a car in from any side.
pub open spec fn commands(paused: bool, keys: Keys) -> Seq<Command> {
    if paused {
        if keys.escape {
            seq![Command::Exit]
        } else {
            when(keys.space || keys.p, Command::TogglePause)
        }
    } else {
        when(keys.escape || keys.p, Command::TogglePause) + when(
            keys.up,
            Command::GenCar(Direction::South),
        ) + when(keys.down, Command::GenCar(Direction::North)) + when(
            keys.right,
            Command::GenCar(Direction::West),
        ) + when(keys.left, Command::GenCar(Direction::East)) + when(keys.r, Command::GenCarRandom)
    }
}

/// Turns the keys that were pressed into the commands that they give, in the
/// order in which they are to be carried out.
pub fn handle_input(paused: bool, keys: &Keys) -> (planned: Vec<Command>)
    ensures
        planned@ == commands(paused, *keys),
{
    let mut planned: Vec<Command> = Vec::new();
    if paused {
        if keys.escape {
            planned.push(Command::Exit);
        } else if keys.space || keys.p {
            planned.push(Command::TogglePause);
        }
        assert(planned@ =~= commands(paused, *keys));
        return planned;
    }
    if keys.escape || keys.p {
        planned.push(Command::TogglePause);
    }
    if keys.up {
        planned.push(Command::GenCar(Direction::South));
    }
    if keys.down {
        planned.push(Command::GenCar(Direction::North));
    }
    if keys.right {
        planned.push(Command::GenCar(Direction::West));
    }
    if keys.left {
        planned.push(Command::GenCar(Direction::East));
    }
    if keys.r {
        planned.push(Command::GenCarRandom);
    }
    assert(planned@ =~= commands(paused, *keys));
    planned
}

/// With no key pressed nothing is asked for, and a paused simulation hears
/// nothing but escape, space and P.
pub proof fn lemma_quiet_keys(paused: bool, keys: Keys)
    ensures
        commands(paused, no_keys()).len() == 0,
        paused && !keys.escape && !keys.space && !keys.p ==> commands(paused, keys).len() == 0,
{
    assert(commands(false, no_keys()) =~= Seq::<Command>::empty());
}

} // verus!
