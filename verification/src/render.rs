//! Drawing a state on its board as text, for a reader.
//!
//! The picture shows the grid with a margin of two cells to the right and
//! to the top, top row first: `.` for a passable cell, a space for any
//! other, `r` and `b` for goals, `R` and `B` for actors. An actor hides a
//! goal, and of two marks of the same kind on one cell the later one shows.

use crate::model::{Actor, Board, Color, Goal, Tile};
use crate::puzzle::{Data, State};
use crate::vec2::Vec2;
use vstd::prelude::*;

verus! {

/// `String::push` of the standard library: appends one character.
pub assume_specification[ String::push ](text: &mut String, c: char)
    ensures
        final(text)@ == old(text)@.push(c),
;

/// The mark of the last of the first `count` actors that stands on the
/// cell.
pub open spec fn actor_mark(actors: Seq<Actor>, x: int, y: int, count: int) -> Option<char>
    decreases count,
{
    if count <= 0 {
        None
    } else if actors[count - 1].position.x == x && actors[count - 1].position.y == y {
        Some(
            match actors[count - 1].color {
                Color::Red => 'R',
                Color::Blue => 'B',
            },
        )
    } else {
        actor_mark(actors, x, y, count - 1)
    }
}

/// The mark of the last of the first `count` goals that lies on the cell.
pub open spec fn goal_mark(goals: Seq<Goal>, x: int, y: int, count: int) -> Option<char>
    decreases count,
{
    if count <= 0 {
        None
    } else if goals[count - 1].position.x == x && goals[count - 1].position.y == y {
        Some(
            match goals[count - 1].color {
                Color::Red => 'r',
                Color::Blue => 'b',
            },
        )
    } else {
        goal_mark(goals, x, y, count - 1)
    }
}

/// The character that shows the cell.
pub open spec fn glyph(board: Board, actors: Seq<Actor>, x: int, y: int) -> char {
    match actor_mark(actors, x, y, actors.len() as int) {
        Some(c) => c,
        None => match goal_mark(board.goals, x, y, board.goals.len() as int) {
            Some(c) => c,
            None => if board.passable(x, y) {
                '.'
            } else {
                ' '
            },
        },
    }
}

/// The first `count` characters of the row at height `y`.
pub open spec fn picture_row(board: Board, actors: Seq<Actor>, y: int, count: int) -> Seq<char>
    decreases count,
{
    if count <= 0 {
        Seq::empty()
    } else {
        picture_row(board, actors, y, count - 1).push(glyph(board, actors, count - 1, y))
    }
}

/// The topmost `count` rows of the picture, each ended by a line feed.
pub open spec fn picture_rows(board: Board, actors: Seq<Actor>, count: int) -> Seq<char>
    decreases count,
{
    if count <= 0 {
        Seq::empty()
    } else {
        (picture_rows(board, actors, count - 1) + picture_row(
            board,
            actors,
            board.height + 2 - count,
            board.width + 2,
        )).push('\n')
    }
}

/// The picture of a state on its board.
pub open spec fn picture(board: Board, actors: Seq<Actor>) -> Seq<char> {
    picture_rows(board, actors, board.height + 2)
}

impl State {
    /// The mark of the actor on the cell, if one stands there.
    fn mark_at(&self, x: i64, y: i64) -> (mark: Option<char>)
        ensures
            mark == actor_mark(self@, x as int, y as int, self@.len() as int),
    {
        let n = self.len();
        let mut mark: Option<char> = None;
        let mut k: usize = 0;
        while k < n
            invariant
                n == self@.len(),
                k <= n,
                mark == actor_mark(self@, x as int, y as int, k as int),
            decreases n - k,
        {
            let actor = self.actor(k);
            if actor.position.x as i64 == x && actor.position.y as i64 == y {
                mark = Some(
                    match actor.color {
                        Color::Red => 'R',
                        Color::Blue => 'B',
                    },
                );
            }
            k += 1;
        }
        mark
    }

    /// Draws the state on its board.
    pub fn display(&self, data: &Data) -> (text: String)
        ensures
            text@ == picture(data@, self@),
    {
        proof {
            use_type_invariant(data);
        }
        let size = data.size();
        let width: i64 = size.x as i64 + 2;
        let height: i64 = size.y as i64 + 2;
        let mut text = String::new();
        let mut row: i64 = 0;
        while row < height
            invariant
                data.wf(),
                0 <= row <= height,
                width == data@.width + 2,
                height == data@.height + 2,
                size.x == data@.width,
                size.y == data@.height,
                text@ == picture_rows(data@, self@, row as int),
            decreases height - row,
        {
            let y: i64 = height - 1 - row;
            let ghost above = text@;
            let mut x: i64 = 0;
            while x < width
                invariant
                    data.wf(),
                    0 <= x <= width,
                    0 <= y < height,
                    width == data@.width + 2,
                    height == data@.height + 2,
                    size.x == data@.width,
                    size.y == data@.height,
                    text@ == above + picture_row(data@, self@, y as int, x as int),
                decreases width - x,
            {
                let c = match self.mark_at(x, y) {
                    Some(c) => c,
                    None => match data.goal_mark_at(x, y) {
                        Some(c) => c,
                        None => if x < size.x as i64 && y < size.y as i64 && data.tile(
                            Vec2::new(x as i32, y as i32),
                        ) == Tile::Passable {
                            '.'
                        } else {
                            ' '
                        },
                    },
                };
                text.push(c);
                x += 1;
            }
            text.push('\n');
            row += 1;
        }
        text
    }
}

impl Data {
    /// The mark of the goal on the cell, if one lies there.
    fn goal_mark_at(&self, x: i64, y: i64) -> (mark: Option<char>)
        ensures
            mark == goal_mark(self@.goals, x as int, y as int, self@.goals.len() as int),
    {
        let goals = self.goals();
        let n = goals.len();
        let mut mark: Option<char> = None;
        let mut k: usize = 0;
        while k < n
            invariant
                n == goals@.len(),
                goals@ == self@.goals,
                k <= n,
                mark == goal_mark(goals@, x as int, y as int, k as int),
            decreases n - k,
        {
            let goal = goals[k];
            if goal.position.x as i64 == x && goal.position.y as i64 == y {
                mark = Some(
                    match goal.color {
                        Color::Red => 'r',
                        Color::Blue => 'b',
                    },
                );
            }
            k += 1;
        }
        mark
    }
}

} // verus!
