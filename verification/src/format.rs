//! The puzzle text format, as a specification.
//!
//! A puzzle text is a block of rows, top row first, all of the same width:
//! `.` is a passable cell, a space an impassable one, `r` and `b` are
//! passable cells that are also a red or a blue goal. An empty line ends the
//! block. Each line after it defines an actor: `R` or `B`, the column and the
//! row, separated by single spaces, counted from the bottom-left cell.

use crate::model::{canonical, Actor, Board, Color, Goal, Tile, MAX_ACTORS};
use crate::text::{byte_len, decimal_i32, line_spans, next_in};
use crate::vec2::Vec2;
use vstd::prelude::*;

verus! {

/// Why a text is not a puzzle. Lines are numbered from 0, columns from 1.
pub enum Fault {
    NoRows,
    NoLineBreakAfterRows,
    UnevenRows { line_number: int, data_width: int, line_width: int },
    UnexpectedCharacter { line_number: int, column_number: int, character: char },
    EmptyActorDefinition { line_number: int },
    InvalidActorColor { line_number: int, color: Seq<char> },
    MissingActorX { line_number: int },
    MissingActorY { line_number: int },
    InvalidActorX { line_number: int },
    InvalidActorY { line_number: int },
    TooManyActors { line_number: int },
    OverlappingActors { line_number: int },
}

/// Line `i` of the text.
pub open spec fn line(text: Seq<char>, i: int) -> Seq<char> {
    text.subrange(line_spans(text)[i].0, line_spans(text)[i].1)
}

/// The number of the first empty line at or after line `from`, or the
/// number of lines if there is none.
pub open spec fn blank_line(text: Seq<char>, from: int) -> int
    decreases line_spans(text).len() - from,
{
    if from >= line_spans(text).len() {
        line_spans(text).len() as int
    } else if line_spans(text)[from].0 == line_spans(text)[from].1 {
        from
    } else {
        blank_line(text, from + 1)
    }
}

/// The characters that a row may hold.
pub open spec fn is_tile_char(c: char) -> bool {
    c == '.' || c == ' ' || c == 'r' || c == 'b'
}

/// The tile that a row character stands for.
pub open spec fn tile_of(c: char) -> Tile {
    if c == ' ' {
        Tile::Impassable
    } else {
        Tile::Passable
    }
}

/// The first position in `from..to` that holds no row character, or `to`.
pub open spec fn bad_char(text: Seq<char>, from: int, to: int) -> int
    decreases to - from,
{
    if from >= to {
        to
    } else if !is_tile_char(text[from]) {
        from
    } else {
        bad_char(text, from + 1, to)
    }
}

/// What is wrong with the row at `from..to`, if anything: its width in
/// bytes differs from `width`, or else it holds a character that is no row
/// character.
pub open spec fn row_fault(text: Seq<char>, from: int, to: int, line_number: int, width: int)
    -> Option<Fault> {
    let line_width = byte_len(text.subrange(from, to)) as int;
    let at = bad_char(text, from, to);
    if line_width != width {
        Some(Fault::UnevenRows { line_number, data_width: width, line_width })
    } else if at < to {
        Some(
            Fault::UnexpectedCharacter {
                line_number,
                column_number: at - from + 1,
                character: text[at],
            },
        )
    } else {
        None
    }
}

/// What is wrong with the first faulty row among the lines `i..height`.
pub open spec fn rows_fault(text: Seq<char>, width: int, height: int, i: int) -> Option<Fault>
    decreases height - i,
{
    if i >= height {
        None
    } else {
        let span = line_spans(text)[i];
        match row_fault(text, span.0, span.1, i, width) {
            Some(fault) => Some(fault),
            None => rows_fault(text, width, height, i + 1),
        }
    }
}

/// The goals among the first `count` characters of the row that begins at
/// `from` and lies at height `y`, from left to right.
pub open spec fn row_goals(text: Seq<char>, from: int, y: int, count: int) -> Seq<Goal>
    decreases count,
{
    if count <= 0 {
        Seq::empty()
    } else {
        let before = row_goals(text, from, y, count - 1);
        let position = Vec2 { x: (count - 1) as i32, y: y as i32 };
        let c = text[from + count - 1];
        if c == 'r' {
            before.push(Goal { position, color: Color::Red })
        } else if c == 'b' {
            before.push(Goal { position, color: Color::Blue })
        } else {
            before
        }
    }
}

/// The goals of the first `count` rows, top row first.
pub open spec fn goals_of(text: Seq<char>, width: int, height: int, count: int) -> Seq<Goal>
    decreases count,
{
    if count <= 0 {
        Seq::empty()
    } else {
        goals_of(text, width, height, count - 1) + row_goals(
            text,
            line_spans(text)[count - 1].0,
            height - count,
            width,
        )
    }
}

/// The board that `height` valid rows of the given width describe. The
/// first line is the top row.
pub open spec fn board_of(text: Seq<char>, width: int, height: int) -> Board {
    Board {
        width,
        height,
        cells: Seq::new(
            (width * height) as nat,
            |k: int| tile_of(text[line_spans(text)[height - 1 - k / width].0 + k % width]),
        ),
        goals: goals_of(text, width, height, height),
    }
}

/// The actor that the line at `from..to` defines, or what is wrong with it.
pub open spec fn actor_of(text: Seq<char>, from: int, to: int, line_number: int) -> Result<
    Actor,
    Fault,
> {
    let s0 = next_in(text, ' ', from, to);
    let name = text.subrange(from, s0);
    let s1 = next_in(text, ' ', s0 + 1, to);
    let s2 = next_in(text, ' ', s1 + 1, to);
    if name != seq!['R'] && name != seq!['B'] {
        Err(Fault::InvalidActorColor { line_number, color: name })
    } else if s0 >= to {
        Err(Fault::MissingActorX { line_number })
    } else {
        match decimal_i32(text.subrange(s0 + 1, s1)) {
            None => Err(Fault::InvalidActorX { line_number }),
            Some(x) => if s1 >= to {
                Err(Fault::MissingActorY { line_number })
            } else {
                match decimal_i32(text.subrange(s1 + 1, s2)) {
                    None => Err(Fault::InvalidActorY { line_number }),
                    Some(y) => Ok(
                        Actor {
                            position: Vec2 { x, y },
                            color: if name == seq!['R'] {
                                Color::Red
                            } else {
                                Color::Blue
                            },
                        },
                    ),
                }
            },
        }
    }
}

/// Some actor of the list stands at the position.
pub open spec fn occupied(actors: Seq<Actor>, position: Vec2) -> bool {
    exists|k: int| 0 <= k < actors.len() && (#[trigger] actors[k]).position == position
}

/// The actors defined by the lines from line `i` on, in the order of their
/// lines, appended to `found`; or the first fault: a line that defines no
/// actor, or a ninth actor, whatever cell it names.
pub open spec fn actors_from(text: Seq<char>, i: int, found: Seq<Actor>) -> Result<
    Seq<Actor>,
    Fault,
>
    decreases line_spans(text).len() - i,
{
    if i >= line_spans(text).len() {
        Ok(found)
    } else {
        let span = line_spans(text)[i];
        match actor_of(text, span.0, span.1, i) {
            Err(fault) => Err(fault),
            Ok(actor) => if found.len() >= MAX_ACTORS {
                Err(Fault::TooManyActors { line_number: i })
            } else {
                actors_from(text, i + 1, found.push(actor))
            },
        }
    }
}

/// The first place at or after `j` whose actor stands on a cell that an
/// earlier actor of the list stands on, or the length of the list if there
/// is none.
pub open spec fn first_overlap(actors: Seq<Actor>, j: int) -> int
    decreases actors.len() - j,
{
    if j >= actors.len() {
        actors.len() as int
    } else if occupied(actors.take(j), actors[j].position) {
        j
    } else {
        first_overlap(actors, j + 1)
    }
}

/// The puzzle that a text describes: the actors in canonical order, whatever
/// the order of their lines, and the board; or the first fault met when
/// reading the text from the top. Whether two actors stand on one cell is
/// looked at last, when every line is read: the fault names the line of the
/// first actor that stands where an earlier one does.
pub open spec fn read_puzzle(text: Seq<char>) -> Result<(Seq<Actor>, Board), Fault> {
    let width = byte_len(line(text, 0)) as int;
    let height = blank_line(text, 0);
    if line_spans(text).len() == 0 {
        Err(Fault::NoRows)
    } else if height >= line_spans(text).len() {
        Err(Fault::NoLineBreakAfterRows)
    } else {
        match rows_fault(text, width, height, 0) {
            Some(fault) => Err(fault),
            None => match actors_from(text, height + 1, Seq::empty()) {
                Err(fault) => Err(fault),
                Ok(actors) => if first_overlap(actors, 0) < actors.len() {
                    Err(
                        Fault::OverlappingActors {
                            line_number: height + 1 + first_overlap(actors, 0),
                        },
                    )
                } else {
                    Ok((canonical(actors), board_of(text, width, height)))
                },
            },
        }
    }
}

} // verus!
