//! Plain data attached to entities.

use vstd::prelude::*;

verus! {

/// A compass direction. `N`, `S`, `E` and `W` are directions of travel;
/// `NE` and `NW` are the two orientations of a reflector.
#[derive(Clone, Copy, Debug, PartialEq, Eq, Structural)]
pub enum Cardinal {
    N,
    S,
    E,
    W,
    NE,
    NW,
}

impl Cardinal {
    /// True of the four directions of travel.
    pub open spec fn is_axis(self) -> bool {
        self is N || self is S || self is E || self is W
    }

    /// True of the two reflector orientations.
    pub open spec fn is_diagonal(self) -> bool {
        self is NE || self is NW
    }

    /// The unit step of a direction of travel; `y` grows southwards.
    pub open spec fn delta(self) -> (int, int) {
        match self {
            Cardinal::N => (0, -1),
            Cardinal::S => (0, 1),
            Cardinal::E => (1, 0),
            Cardinal::W => (-1, 0),
            _ => (0, 0),
        }
    }

    /// The opposite direction of travel.
    pub open spec fn opposite(self) -> Cardinal {
        match self {
            Cardinal::N => Cardinal::S,
            Cardinal::S => Cardinal::N,
            Cardinal::E => Cardinal::W,
            Cardinal::W => Cardinal::E,
            other => other,
        }
    }

    /// The other orientation of a reflector: `NE` becomes `NW`, anything
    /// else becomes `NE`.
    pub open spec fn flipped(self) -> Cardinal {
        match self {
            Cardinal::NE => Cardinal::NW,
            _ => Cardinal::NE,
        }
    }

    /// The direction in which a beam travelling in direction `self` leaves a
    /// reflector of the given orientation: `NE` swaps N with E and S with W,
    /// `NW` swaps N with W and S with E.
    pub open spec fn reflected(self, orientation: Cardinal) -> Cardinal {
        match orientation {
            Cardinal::NE => match self {
                Cardinal::N => Cardinal::E,
                Cardinal::S => Cardinal::W,
                Cardinal::E => Cardinal::N,
                Cardinal::W => Cardinal::S,
                _ => Cardinal::N,
            },
            Cardinal::NW => match self {
                Cardinal::N => Cardinal::W,
                Cardinal::S => Cardinal::E,
                Cardinal::W => Cardinal::N,
                Cardinal::E => Cardinal::S,
                _ => Cardinal::N,
            },
            _ => Cardinal::N,
        }
    }

    /// The unit step of a direction of travel.
    pub fn get_delta_xy(&self) -> (d: (i32, i32))
        requires
            self.is_axis(),
        ensures
            (d.0 as int, d.1 as int) == self.delta(),
    {
        match self {
            Cardinal::N => (0, -1),
            Cardinal::S => (0, 1),
            Cardinal::E => (1, 0),
            _ => (-1, 0),
        }
    }

    /// The opposite direction of travel.
    pub fn inv(&self) -> (r: Cardinal)
        requires
            self.is_axis(),
        ensures
            r == self.opposite(),
            r.is_axis(),
    {
        match self {
            Cardinal::N => Cardinal::S,
            Cardinal::S => Cardinal::N,
            Cardinal::E => Cardinal::W,
            _ => Cardinal::E,
        }
    }

    /// The other reflector orientation.
    pub fn flip(&self) -> (r: Cardinal)
        ensures
            r == self.flipped(),
            r.is_diagonal(),
    {
        match self {
            Cardinal::NE => Cardinal::NW,
            _ => Cardinal::NE,
        }
    }

    /// Where a beam travelling in direction `self` goes after it meets a
    /// reflector of the given orientation.
    pub fn reflect(&self, orientation: Cardinal) -> (r: Cardinal)
        ensures
            r == self.reflected(orientation),
            r.is_axis(),
    {
        match orientation {
            Cardinal::NE => match self {
                Cardinal::N => Cardinal::E,
                Cardinal::S => Cardinal::W,
                Cardinal::E => Cardinal::N,
                Cardinal::W => Cardinal::S,
                _ => Cardinal::N,
            },
            Cardinal::NW => match self {
                Cardinal::N => Cardinal::W,
                Cardinal::S => Cardinal::E,
                Cardinal::W => Cardinal::N,
                Cardinal::E => Cardinal::S,
                _ => Cardinal::N,
            },
            _ => Cardinal::N,
        }
    }
}

/// Flipping a reflector twice gives back its orientation.
pub proof fn lemma_flip_involution(c: Cardinal)
    requires
        c.is_diagonal(),
    ensures
        c.flipped().flipped() == c,
        c.flipped() != c,
{
}

/// A tile of the grid, `x` counted eastwards and `y` southwards.
#[derive(Clone, Copy, Debug, PartialEq, Eq, Structural)]
pub struct Position {
    pub x: i32,
    pub y: i32,
}

/// Handle of an entity: its index in the world's arena.
#[derive(Clone, Copy, Debug, PartialEq, Eq, Structural)]
pub struct Entity(pub usize);

/// What makes an `Activable` active.
#[derive(Clone, Copy, Debug, PartialEq, Eq, Structural)]
pub enum ActivationKind {
    /// Active while a laser beam sweeps its tile.
    Laser,
    /// Active while something blocking stands on its tile.
    Weight,
}

/// A pressure plate or a laser receptor. `active` is derived on every
/// recompute.
#[derive(Clone, Copy, Debug, PartialEq, Eq, Structural)]
pub struct Activable {
    pub active: bool,
    pub kind: ActivationKind,
}

/// An exit door, open while every entity it lists is active.
#[derive(Debug, PartialEq)]
pub struct Door {
    pub opened: bool,
    pub activations: Vec<Entity>,
}

/// A reflector, oriented `NE` or `NW`.
#[derive(Clone, Copy, Debug, PartialEq, Eq, Structural)]
pub struct ReflectsLaser {
    pub orientation: Cardinal,
}

/// A laser emitter firing towards `N`, `S`, `E` or `W`.
#[derive(Clone, Copy, Debug, PartialEq, Eq, Structural)]
pub struct Laser {
    pub direction: Cardinal,
}

/// Marks the player.
#[derive(Clone, Copy, Debug, PartialEq, Eq, Structural)]
pub struct Player {}

/// Marks a pushable block.
#[derive(Clone, Copy, Debug, PartialEq, Eq, Structural)]
pub struct Block {}

/// Marks an entity that blocks its tile.
#[derive(Clone, Copy, Debug, PartialEq, Eq, Structural)]
pub struct BlocksTile {}

/// Marks an entity that stops laser beams.
#[derive(Clone, Copy, Debug, PartialEq, Eq, Structural)]
pub struct BlocksLaser {}

/// Marks an entity that the player can push.
#[derive(Clone, Copy, Debug, PartialEq, Eq, Structural)]
pub struct Movable {}

/// Marks an entity that the player can actuate from a neighbouring tile.
#[derive(Clone, Copy, Debug, PartialEq, Eq, Structural)]
pub struct Actuator {}

/// Marks an entity with a pending actuation pulse: the next recompute
/// flips its reflector and removes the mark.
#[derive(Clone, Copy, Debug, PartialEq, Eq, Structural)]
pub struct Actuated {}

} // verus!
