//! The executable puzzle: the board data, the state of the actors, one
//! lock-step move and the distance estimate that guides the search.

use crate::actors::{actors_of, list_clone, list_get, list_len, list_set};
use crate::canonical::{
    lemma_canonical_is_sorted_permutation, lemma_permutation_collision_free, sort_list,
};
use crate::collide::resolve;
use crate::scan_order::lemma_scan_order_is_immaterial;
use crate::direction::Direction;
use crate::model::{
    collision_free, is_canonical, Actor, Board, Color, Goal, Tile, MAX_ACTORS, UNREACHABLE,
};
use crate::vec2::Vec2;
use arrayvec::ArrayVec;
use vstd::prelude::*;
use vstd::std_specs::cmp::PartialEqSpecImpl;

verus! {

/// The immutable part of a puzzle: grid size, tiles row by row from the
/// bottom, and goals.
pub struct Data {
    size: Vec2,
    tiles: Vec<Tile>,
    goals: Vec<Goal>,
}

impl View for Data {
    type V = Board;

    closed spec fn view(&self) -> Board {
        Board {
            width: self.size.x as int,
            height: self.size.y as int,
            cells: self.tiles@,
            goals: self.goals@,
        }
    }
}

/// The positions and colours of all actors at one moment. The actors are
/// always listed in canonical order, so two states are equal exactly if
/// they hold the same actors.
#[derive(Debug, Eq, Hash)]
pub struct State {
    actors: ArrayVec<Actor, 8>,
}

impl View for State {
    type V = Seq<Actor>;

    closed spec fn view(&self) -> Seq<Actor> {
        actors_of(self.actors)
    }
}

impl PartialEq for State {
    fn eq(&self, other: &State) -> (equal: bool) {
        let n = self.len();
        if n != other.len() {
            return false;
        }
        let mut i: usize = 0;
        while i < n
            invariant
                i <= n,
                n == self@.len(),
                n == other@.len(),
                forall|k: int| 0 <= k < i ==> self@[k] == other@[k],
            decreases n - i,
        {
            if self.actor(i) != other.actor(i) {
                return false;
            }
            i += 1;
        }
        assert(self@ =~= other@);
        true
    }
}

impl PartialEqSpecImpl for State {
    open spec fn obeys_eq_spec() -> bool {
        true
    }

    open spec fn eq_spec(&self, other: &State) -> bool {
        self@ == other@
    }
}

impl Clone for State {
    fn clone(&self) -> (copy: Self)
        ensures
            copy@ == self@,
    {
        proof {
            use_type_invariant(self);
        }
        State { actors: list_clone(&self.actors) }
    }
}

/// What one command leads to.
#[derive(Debug, Clone, Eq, Hash, PartialEq)]
pub enum Transition<T> {
    /// Every goal is covered after the command.
    Success,
    /// Some goal is still open; the new state is carried for further search.
    Indeterminate(T),
}

/// The four commands in the order in which they are always tried.
pub open spec fn command(k: int) -> Direction {
    if k == 0 {
        Direction::Right
    } else if k == 1 {
        Direction::Up
    } else if k == 2 {
        Direction::Left
    } else {
        Direction::Down
    }
}

/// What `outcome` must say of the command `direction` given in `from`:
/// success exactly if the command covers every goal, and else the state
/// that the command leads to.
pub open spec fn reports(
    board: Board,
    from: Seq<Actor>,
    direction: Direction,
    outcome: Transition<State>,
) -> bool {
    match outcome {
        Transition::Success => board.solved(board.step(from, direction)),
        Transition::Indeterminate(next) => {
            &&& !board.solved(board.step(from, direction))
            &&& next@ == board.step(from, direction)
            &&& next.wf()
        },
    }
}

impl Data {
    /// Data with the given grid size, tiles and goals.
    pub(crate) fn from_parts(size: Vec2, tiles: Vec<Tile>, goals: Vec<Goal>) -> (data: Data)
        requires
            (Board {
                width: size.x as int,
                height: size.y as int,
                cells: tiles@,
                goals: goals@,
            }).wf(),
        ensures
            data@ == (Board {
                width: size.x as int,
                height: size.y as int,
                cells: tiles@,
                goals: goals@,
            }),
            data.wf(),
    {
        Data { size, tiles, goals }
    }

    /// The width and height of the grid.
    pub fn size(&self) -> (size: Vec2)
        ensures
            size.x == self@.width,
            size.y == self@.height,
    {
        self.size
    }

    /// The goals, in the order in which the puzzle lists them.
    pub fn goals(&self) -> (goals: &Vec<Goal>)
        ensures
            goals@ == self@.goals,
    {
        &self.goals
    }

    /// What holds of every `Data`: the grid is as large as its size says
    /// and every goal lies on a passable cell. See [`Board::wf`].
    #[verifier::type_invariant]
    pub open spec fn wf(&self) -> bool {
        self@.wf()
    }

    /// The tile at `position`. Positions off the grid are impassable.
    pub fn tile(&self, position: Vec2) -> (tile: Tile)
        ensures
            tile == self@.tile_at(position.x as int, position.y as int),
    {
        proof {
            use_type_invariant(self);
        }
        if position.x < 0 || position.x >= self.size.x || position.y < 0 || position.y
            >= self.size.y {
            Tile::Impassable
        } else {
            let x = position.x as usize;
            let y = position.y as usize;
            let width = self.size.x as usize;
            let count = self.tiles.len();
            assert(0 <= y * width && x + y * width < count) by (nonlinear_arith)
                requires
                    0 <= x < width,
                    0 <= y < self.size.y,
                    count == width * self.size.y,
            ;
            self.tiles[x + y * width]
        }
    }

    /// Whether some actor of the goal's colour stands on the goal.
    fn covers(goal: &Goal, state: &State) -> (hit: bool)
        ensures
            hit == Board::covered(*goal, state@),
    {
        let n = state.len();
        let mut i: usize = 0;
        while i < n
            invariant
                n == state@.len(),
                i <= n,
                forall|k: int|
                    0 <= k < i ==> !((#[trigger] state@[k]).position == goal.position
                        && state@[k].color == goal.color),
            decreases n - i,
        {
            let actor = state.actor(i);
            if actor.position == goal.position && actor.color == goal.color {
                return true;
            }
            i += 1;
        }
        false
    }

    /// Whether every goal is covered by an actor of its colour.
    pub fn is_solved_by(&self, state: &State) -> (solved: bool)
        ensures
            solved == self@.solved(state@),
    {
        let mut k: usize = 0;
        while k < self.goals.len()
            invariant
                k <= self.goals@.len(),
                forall|g: int| 0 <= g < k ==> Board::covered(#[trigger] self@.goals[g], state@),
            decreases self.goals@.len() - k,
        {
            if !Self::covers(&self.goals[k], state) {
                assert(!Board::covered(self@.goals[k as int], state@));
                return false;
            }
            k += 1;
        }
        true
    }
}

/// Moves every actor of the list one cell if the cell it heads for is
/// passable: red actors with the command, blue actors against it.
fn advance(list: &mut ArrayVec<Actor, 8>, data: &Data, direction: Direction)
    ensures
        actors_of(*final(list)) == data@.advance_all(actors_of(*old(list)), direction),
{
    proof {
        use_type_invariant(data);
    }
    let n = list_len(list);
    let step = direction.to_vec2();
    let mut i: usize = 0;
    while i < n
        invariant
            i <= n,
            data.wf(),
            actors_of(*list).len() == n,
            actors_of(*old(list)).len() == n,
            step.x == direction.dx(),
            step.y == direction.dy(),
            forall|k: int|
                0 <= k < i ==> #[trigger] actors_of(*list)[k] == data@.advance(
                    actors_of(*old(list))[k],
                    direction,
                ),
            forall|k: int| i <= k < n ==> #[trigger] actors_of(*list)[k] == actors_of(*old(list))[k],
        decreases n - i,
    {
        let actor = list_get(list, i);
        let (dx, dy) = match actor.color {
            Color::Red => (step.x, step.y),
            Color::Blue => (-step.x, -step.y),
        };
        match (actor.position.x.checked_add(dx), actor.position.y.checked_add(dy)) {
            (Some(x), Some(y)) => {
                let next = Vec2::new(x, y);
                if data.tile(next) == Tile::Passable {
                    list_set(list, i, Actor { position: next, color: actor.color });
                }
            },
            _ => {},
        }
        i += 1;
    }
    assert(actors_of(*list) =~= data@.advance_all(actors_of(*old(list)), direction));
}

impl State {
    /// What holds of every `State`: it lists at most eight actors, no two
    /// of them stand on the same cell, and they are listed in canonical
    /// order.
    #[verifier::type_invariant]
    pub open spec fn wf(&self) -> bool {
        &&& self@.len() <= MAX_ACTORS
        &&& collision_free(self@)
        &&& is_canonical(self@)
    }

    /// The state that lists the given actors.
    pub(crate) fn from_list(actors: ArrayVec<Actor, 8>) -> (state: State)
        requires
            actors_of(actors).len() <= MAX_ACTORS,
            collision_free(actors_of(actors)),
            is_canonical(actors_of(actors)),
        ensures
            state@ == actors_of(actors),
            state.wf(),
    {
        State { actors }
    }

    /// The number of actors.
    pub fn len(&self) -> (n: usize)
        ensures
            n == self@.len(),
            n <= 8,
    {
        list_len(&self.actors)
    }

    /// The actor at position `i` of the list.
    pub fn actor(&self, i: usize) -> (actor: Actor)
        requires
            i < self@.len(),
        ensures
            actor == self@[i as int],
    {
        list_get(&self.actors, i)
    }

    /// The state after one command. All actors move at once, each judged
    /// against the board alone; actors that end on the same cell go back to
    /// where they stood, until no two share a cell; the result is listed in
    /// canonical order.
    pub fn transition(&self, data: &Data, direction: &Direction) -> (next: State)
        ensures
            next@ == data@.step(self@, *direction),
            next.wf(),
            is_canonical(next@),
    {
        proof {
            use_type_invariant(self);
        }
        let mut list = list_clone(&self.actors);
        advance(&mut list, data, *direction);
        resolve(&mut list, &self.actors);
        proof {
            use_type_invariant(data);
            lemma_scan_order_is_immaterial(data@, self@, *direction);
            let settled = actors_of(list);
            lemma_canonical_is_sorted_permutation(settled);
            lemma_permutation_collision_free(settled, crate::model::canonical(settled));
        }
        sort_list(&mut list);
        State { actors: list }
    }

    /// One command and what it leads to.
    pub fn outcome(&self, data: &Data, direction: Direction) -> (r: (Direction, Transition<State>))
        ensures
            r.0 == direction,
            reports(data@, self@, direction, r.1),
    {
        let state = self.transition(data, &direction);
        if data.is_solved_by(&state) {
            (direction, Transition::Success)
        } else {
            (direction, Transition::Indeterminate(state))
        }
    }

    /// The four commands, always in the order right, up, left, down, each
    /// with what it leads to.
    pub fn transitions(&self, data: &Data) -> (all: [(Direction, Transition<State>); 4])
        ensures
            forall|k: int|
                0 <= k < 4 ==> (#[trigger] all[k]).0 == command(k) && reports(
                    data@,
                    self@,
                    command(k),
                    all[k].1,
                ),
    {
        [
            self.outcome(data, Direction::Right),
            self.outcome(data, Direction::Up),
            self.outcome(data, Direction::Left),
            self.outcome(data, Direction::Down),
        ]
    }

    /// Manhattan distance between two cells, computed without overflow.
    fn distance(a: Vec2, b: Vec2) -> (d: u64)
        ensures
            d == a.manhattan(b),
    {
        let dx: i64 = a.x as i64 - b.x as i64;
        let dy: i64 = a.y as i64 - b.y as i64;
        let ax: u64 = if dx < 0 { (-dx) as u64 } else { dx as u64 };
        let ay: u64 = if dy < 0 { (-dy) as u64 } else { dy as u64 };
        ax + ay
    }

    /// The least distance from `goal` to an actor of its colour.
    fn goal_distance(&self, goal: &Goal) -> (d: usize)
        ensures
            d == Board::goal_distance(*goal, self@),
    {
        let n = self.len();
        let mut min_distance: usize = UNREACHABLE;
        let mut i: usize = 0;
        while i < n
            invariant
                n == self@.len(),
                i <= n,
                min_distance == Board::goal_distance(*goal, self@.take(i as int)),
            decreases n - i,
        {
            let actor = self.actor(i);
            proof {
                assert(self@.take(i + 1).drop_last() == self@.take(i as int));
            }
            if actor.color == goal.color {
                let d = Self::distance(goal.position, actor.position);
                if d < min_distance as u64 {
                    min_distance = d as usize;
                }
            }
            i += 1;
        }
        proof {
            assert(self@.take(n as int) == self@);
        }
        min_distance
    }

    /// A lower bound on the number of commands still needed: for each goal
    /// the least Manhattan distance to an actor of its colour, and of these
    /// the largest. A goal whose colour no actor has counts as
    /// [`UNREACHABLE`].
    pub fn heuristic(&self, data: &Data) -> (estimate: usize)
        ensures
            estimate == data@.estimate(self@),
    {
        let mut max_distance: usize = 0;
        let mut k: usize = 0;
        while k < data.goals.len()
            invariant
                k <= data.goals@.len(),
                max_distance == data@.estimate_upto(self@, k as int),
            decreases data.goals@.len() - k,
        {
            let d = self.goal_distance(&data.goals[k]);
            if d > max_distance {
                max_distance = d;
            }
            k += 1;
        }
        max_distance
    }
}

} // verus!
