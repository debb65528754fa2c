//! The mathematical model of a puzzle: the board, one lock-step move of all
//! actors, goal coverage and the distance estimate. Everything here is
//! specification; the executable types in `puzzle` are proved against it.
//!
//! One move is described without reference to any order among the actors:
//! every actor makes its tentative move, and then, round after round, all
//! actors that share a cell with another go back to where they stood.

use crate::direction::Direction;
use crate::vec2::Vec2;
use vstd::prelude::*;

verus! {

/// The colour of an actor or a goal. Red actors move with a command, blue
/// actors against it.
#[derive(Copy, Clone, Debug, Eq, Hash, Ord, PartialEq, PartialOrd, Structural)]
pub enum Color {
    Red,
    Blue,
}

/// Whether actors can stand on a cell.
#[derive(Debug, Copy, Clone, Eq, PartialEq, Structural)]
pub enum Tile {
    Passable,
    Impassable,
}

/// A cell that must be covered by an actor of the same colour.
#[derive(Debug, Copy, Clone, Eq, PartialEq, Structural)]
pub struct Goal {
    pub position: Vec2,
    pub color: Color,
}

/// A coloured token standing on a cell.
#[derive(Debug, Copy, Clone, Eq, Hash, Ord, PartialEq, PartialOrd, Structural)]
pub struct Actor {
    pub position: Vec2,
    pub color: Color,
}

/// The largest number of actors a state can hold.
pub const MAX_ACTORS: usize = 8;

/// The estimate reported for a goal whose colour no actor has.
pub const UNREACHABLE: usize = usize::MAX;

/// The immutable part of a puzzle: a `width` by `height` grid stored row by
/// row from the bottom, and the goals.
pub struct Board {
    pub width: int,
    pub height: int,
    pub cells: Seq<Tile>,
    pub goals: Seq<Goal>,
}

/// No two actors stand on the same cell.
pub open spec fn collision_free(actors: Seq<Actor>) -> bool {
    forall|i: int, j: int|
        0 <= i < j < actors.len() ==> (#[trigger] actors[i]).position != (
        #[trigger] actors[j]).position
}

/// Actor `i` with its position put back to where it stood in `origin`.
pub open spec fn restored(current: Seq<Actor>, origin: Seq<Actor>, i: int) -> Actor {
    Actor { position: origin[i].position, color: current[i].color }
}

/// Every actor of `current` has the colour it has in `start` and stands
/// either where it stands in `start` or where it stands in `origin`.
pub open spec fn moved_or_back(current: Seq<Actor>, start: Seq<Actor>, origin: Seq<Actor>) -> bool {
    &&& current.len() == start.len()
    &&& current.len() == origin.len()
    &&& forall|k: int|
        0 <= k < current.len() ==> (#[trigger] current[k]).color == start[k].color && (
        current[k].position == start[k].position || current[k].position == origin[k].position)
}

/// Actor `j` is another actor than `i` and stands on the same cell.
pub open spec fn other_on_cell(current: Seq<Actor>, i: int, j: int) -> bool {
    0 <= j < current.len() && j != i && current[j].position == current[i].position
}

/// Some other actor stands on the cell of actor `i`.
pub open spec fn shares_cell(current: Seq<Actor>, i: int) -> bool {
    exists|j: int| other_on_cell(current, i, j)
}

/// One round: every actor that shares its cell goes back to where it stood
/// in `origin`, all of them at once.
pub open spec fn retreat(current: Seq<Actor>, origin: Seq<Actor>) -> Seq<Actor> {
    Seq::new(
        current.len(),
        |i: int|
            if shares_cell(current, i) {
                restored(current, origin, i)
            } else {
                current[i]
            },
    )
}

/// The given number of rounds, one after the other. When no two actors
/// shared a cell in `origin`, as many rounds as there are actors leave no two
/// actors on one cell.
pub open spec fn retreats(current: Seq<Actor>, origin: Seq<Actor>, rounds: nat) -> Seq<Actor>
    decreases rounds,
{
    if rounds == 0 {
        current
    } else {
        retreats(retreat(current, origin), origin, (rounds - 1) as nat)
    }
}

/// The order in which actors are listed in a canonical state: by column,
/// then by row, then red before blue.
pub open spec fn precedes(a: Actor, b: Actor) -> bool {
    if a.position.x != b.position.x {
        a.position.x < b.position.x
    } else if a.position.y != b.position.y {
        a.position.y < b.position.y
    } else {
        a.color == b.color || a.color == Color::Red
    }
}

/// `precedes` as a relation value, for the sorting lemmas of `vstd`.
pub open spec fn actor_order() -> spec_fn(Actor, Actor) -> bool {
    |a: Actor, b: Actor| precedes(a, b)
}

/// The one listing of the same actors that is in canonical order.
pub open spec fn canonical(actors: Seq<Actor>) -> Seq<Actor> {
    actors.sort_by(actor_order())
}

/// Whether the actors are listed in canonical order.
pub open spec fn is_canonical(actors: Seq<Actor>) -> bool {
    forall|i: int, j: int|
        0 <= i < j < actors.len() ==> precedes(#[trigger] actors[i], #[trigger] actors[j])
}

impl Board {
    /// The grid is as large as its size says and every goal lies on a
    /// passable cell.
    pub open spec fn wf(self) -> bool {
        &&& 0 <= self.width <= i32::MAX
        &&& 0 <= self.height <= i32::MAX
        &&& self.cells.len() == self.width * self.height
        &&& forall|k: int|
            0 <= k < self.goals.len() ==> self.passable(
                (#[trigger] self.goals[k]).position.x as int,
                self.goals[k].position.y as int,
            )
    }

    /// The tile at a cell; every cell off the grid is impassable.
    pub open spec fn tile_at(self, x: int, y: int) -> Tile {
        if 0 <= x < self.width && 0 <= y < self.height {
            self.cells[x + y * self.width]
        } else {
            Tile::Impassable
        }
    }

    /// Whether an actor can stand on the cell.
    pub open spec fn passable(self, x: int, y: int) -> bool {
        self.tile_at(x, y) == Tile::Passable
    }

    /// Column of the cell an actor tries to enter: red actors move with the
    /// command, blue actors against it.
    pub open spec fn target_x(actor: Actor, command: Direction) -> int {
        match actor.color {
            Color::Red => actor.position.x + command.dx(),
            Color::Blue => actor.position.x - command.dx(),
        }
    }

    /// Row of the cell an actor tries to enter.
    pub open spec fn target_y(actor: Actor, command: Direction) -> int {
        match actor.color {
            Color::Red => actor.position.y + command.dy(),
            Color::Blue => actor.position.y - command.dy(),
        }
    }

    /// Where one actor stands after its own tentative move: on the target
    /// cell if that is passable, else where it was.
    pub open spec fn advance(self, actor: Actor, command: Direction) -> Actor {
        let x = Self::target_x(actor, command);
        let y = Self::target_y(actor, command);
        if self.passable(x, y) {
            Actor { position: Vec2 { x: x as i32, y: y as i32 }, color: actor.color }
        } else {
            actor
        }
    }

    /// The tentative moves of all actors, each judged on the board alone.
    pub open spec fn advance_all(self, actors: Seq<Actor>, command: Direction) -> Seq<Actor> {
        Seq::new(actors.len(), |i: int| self.advance(actors[i], command))
    }

    /// The actors after the tentative moves and the retreats that undo
    /// collisions, each still at its place in the list.
    pub open spec fn resolve(self, actors: Seq<Actor>, command: Direction) -> Seq<Actor> {
        retreats(self.advance_all(actors, command), actors, actors.len())
    }

    /// The state after one command: tentative moves, collisions undone until
    /// none is left, and the actors listed in canonical order.
    pub open spec fn step(self, actors: Seq<Actor>, command: Direction) -> Seq<Actor> {
        canonical(self.resolve(actors, command))
    }

    /// The state after a sequence of commands.
    pub open spec fn run(self, actors: Seq<Actor>, commands: Seq<Direction>) -> Seq<Actor>
        decreases commands.len(),
    {
        if commands.len() == 0 {
            actors
        } else {
            self.step(self.run(actors, commands.drop_last()), commands.last())
        }
    }

    /// Some actor of the goal's colour stands on the goal.
    pub open spec fn covered(goal: Goal, actors: Seq<Actor>) -> bool {
        exists|i: int|
            0 <= i < actors.len() && (#[trigger] actors[i]).position == goal.position
                && actors[i].color == goal.color
    }

    /// Every goal is covered.
    pub open spec fn solved(self, actors: Seq<Actor>) -> bool {
        forall|k: int| 0 <= k < self.goals.len() ==> Self::covered(#[trigger] self.goals[k], actors)
    }

    /// A non-empty command sequence after which every goal is covered.
    pub open spec fn solves(self, actors: Seq<Actor>, commands: Seq<Direction>) -> bool {
        commands.len() > 0 && self.solved(self.run(actors, commands))
    }

    /// The smaller of two integers.
    pub open spec fn smaller(a: int, b: int) -> int {
        if a <= b {
            a
        } else {
            b
        }
    }

    /// The larger of two integers.
    pub open spec fn larger(a: int, b: int) -> int {
        if a >= b {
            a
        } else {
            b
        }
    }

    /// The least Manhattan distance from a goal to an actor of its colour,
    /// capped at `UNREACHABLE`, which is also the value when no actor has
    /// the colour.
    pub open spec fn goal_distance(goal: Goal, actors: Seq<Actor>) -> int
        decreases actors.len(),
    {
        if actors.len() == 0 {
            UNREACHABLE as int
        } else {
            let rest = Self::goal_distance(goal, actors.drop_last());
            if actors.last().color == goal.color {
                Self::smaller(rest, goal.position.manhattan(actors.last().position))
            } else {
                rest
            }
        }
    }

    /// The largest of the goal distances of the first `count` goals.
    pub open spec fn estimate_upto(self, actors: Seq<Actor>, count: int) -> int
        decreases count,
    {
        if count <= 0 {
            0
        } else {
            Self::larger(
                self.estimate_upto(actors, count - 1),
                Self::goal_distance(self.goals[count - 1], actors),
            )
        }
    }

    /// The distance estimate of a state: the largest goal distance, 0 when
    /// there is no goal.
    pub open spec fn estimate(self, actors: Seq<Actor>) -> int {
        self.estimate_upto(actors, self.goals.len() as int)
    }
}

} // verus!
