//! Reading a puzzle from text.

use crate::actors::{actors_of, list_get, list_len, list_new, list_push};
use crate::format::{
    actor_of, actors_from, bad_char, blank_line, board_of, first_overlap, goals_of,
    is_tile_char, line, occupied, read_puzzle, row_fault, row_goals, rows_fault, tile_of, Fault,
};
use crate::canonical::{
    lemma_canonical_is_sorted_permutation, lemma_permutation_collision_free, sort_list,
};
use crate::model::{canonical, collision_free, Actor, Color, Goal, Tile, MAX_ACTORS};
use crate::puzzle::{Data, State};
use crate::text::{
    byte_len, find, lemma_byte_len_chars, lemma_byte_len_concat, lemma_byte_len_one,
    lemma_byte_len_part, line_spans, parse_i32, scan_lines, span_width, split_lines, to_chars,
};
use crate::vec2::Vec2;
use arrayvec::ArrayVec;
use core::num::ParseIntError;
use vstd::arithmetic::div_mod::lemma_fundamental_div_mod_converse;
use vstd::prelude::*;
use vstd::string::StrSliceExecFns;

verus! {

/// Why a text could not be read as a puzzle. Lines are numbered from 0,
/// columns from 1.
#[derive(Debug)]
pub enum ParseError {
    /// The text is empty.
    NoRows,
    /// No empty line ends the block of rows.
    NoLineBreakAfterRows,
    /// A row is not as wide, in bytes, as the first row.
    UnevenRows { line_number: usize, data_width: usize, line_width: usize },
    /// A row holds a character other than `.`, space, `r` and `b`.
    UnexpectedCharacter { line_number: usize, column_number: usize, character: char },
    /// An actor line holds nothing at all. No text gives this error: a line
    /// without text has an empty colour and is an `InvalidActorColor`.
    EmptyActorDefinition { line_number: usize },
    /// An actor line begins with something other than `R` or `B`.
    InvalidActorColor { line_number: usize, color: String },
    /// An actor line ends after the colour.
    MissingActorX { line_number: usize },
    /// An actor line ends after the column.
    MissingActorY { line_number: usize },
    /// The column of an actor is no `i32`.
    InvalidActorX { line_number: usize, parse_error: ParseIntError },
    /// The row of an actor is no `i32`.
    InvalidActorY { line_number: usize, parse_error: ParseIntError },
    /// The text defines more actors than a state can hold. The line is that
    /// of the ninth actor, whatever cells the actors stand on.
    TooManyActors { line_number: usize },
    /// The text puts an actor on a cell where an earlier actor stands. The
    /// line is that of the first such actor. This is looked at last, when
    /// every actor line is read.
    OverlappingActors { line_number: usize },
}

impl View for ParseError {
    type V = Fault;

    open spec fn view(&self) -> Fault {
        match *self {
            ParseError::NoRows => Fault::NoRows,
            ParseError::NoLineBreakAfterRows => Fault::NoLineBreakAfterRows,
            ParseError::UnevenRows { line_number, data_width, line_width } => Fault::UnevenRows {
                line_number: line_number as int,
                data_width: data_width as int,
                line_width: line_width as int,
            },
            ParseError::UnexpectedCharacter {
                line_number,
                column_number,
                character,
            } => Fault::UnexpectedCharacter {
                line_number: line_number as int,
                column_number: column_number as int,
                character,
            },
            ParseError::EmptyActorDefinition { line_number } => Fault::EmptyActorDefinition {
                line_number: line_number as int,
            },
            ParseError::InvalidActorColor { line_number, color } => Fault::InvalidActorColor {
                line_number: line_number as int,
                color: color@,
            },
            ParseError::MissingActorX { line_number } => Fault::MissingActorX {
                line_number: line_number as int,
            },
            ParseError::MissingActorY { line_number } => Fault::MissingActorY {
                line_number: line_number as int,
            },
            ParseError::InvalidActorX { line_number, parse_error } => Fault::InvalidActorX {
                line_number: line_number as int,
            },
            ParseError::InvalidActorY { line_number, parse_error } => Fault::InvalidActorY {
                line_number: line_number as int,
            },
            ParseError::TooManyActors { line_number } => Fault::TooManyActors {
                line_number: line_number as int,
            },
            ParseError::OverlappingActors { line_number } => Fault::OverlappingActors {
                line_number: line_number as int,
            },
        }
    }
}

/// A text has no more lines than characters.
pub proof fn lemma_line_count(text: Seq<char>, begin: int, at: int)
    requires
        0 <= begin <= at,
    ensures
        scan_lines(text, begin, at).len() <= if begin < text.len() {
            text.len() - begin
        } else {
            0
        },
    decreases text.len() - at,
{
    if at < text.len() {
        if text[at] == '\n' {
            lemma_line_count(text, at + 1, at + 1);
        } else {
            lemma_line_count(text, begin, at + 1);
        }
    }
}

/// Row characters take one byte each.
pub proof fn lemma_row_width(text: Seq<char>, from: int, to: int)
    requires
        0 <= from <= to <= text.len(),
        forall|i: int| from <= i < to ==> is_tile_char(#[trigger] text[i]),
    ensures
        byte_len(text.subrange(from, to)) == to - from,
    decreases to - from,
{
    if from < to {
        lemma_row_width(text, from + 1, to);
        let c = text[from];
        assert(text.subrange(from, to) == seq![c] + text.subrange(from + 1, to));
        lemma_byte_len_concat(seq![c], text.subrange(from + 1, to));
        lemma_byte_len_one(c);
    } else {
        assert(text.subrange(from, to) == Seq::<char>::empty());
    }
}

/// Every goal of a row lies in the row on a goal character.
pub proof fn lemma_row_goals(text: Seq<char>, from: int, y: int, count: int, k: int)
    requires
        0 <= count <= i32::MAX,
        0 <= y <= i32::MAX,
        0 <= k < row_goals(text, from, y, count).len(),
    ensures
        ({
            let goal = row_goals(text, from, y, count)[k];
            &&& 0 <= goal.position.x < count
            &&& goal.position.y == y
            &&& text[from + goal.position.x] == 'r' || text[from + goal.position.x] == 'b'
        }),
    decreases count,
{
    if count > 0 {
        let before = row_goals(text, from, y, count - 1);
        if k < before.len() {
            lemma_row_goals(text, from, y, count - 1, k);
        }
    }
}

/// Every goal of the board lies inside the grid on a goal character.
pub proof fn lemma_goals_of(text: Seq<char>, width: int, height: int, count: int, k: int)
    requires
        0 <= width <= i32::MAX,
        0 <= count <= height <= i32::MAX,
        0 <= k < goals_of(text, width, height, count).len(),
    ensures
        ({
            let goal = goals_of(text, width, height, count)[k];
            let from = line_spans(text)[height - 1 - goal.position.y].0;
            &&& 0 <= goal.position.x < width
            &&& height - count <= goal.position.y < height
            &&& text[from + goal.position.x] == 'r' || text[from + goal.position.x] == 'b'
        }),
    decreases count,
{
    if count > 0 {
        let before = goals_of(text, width, height, count - 1);
        if k < before.len() {
            lemma_goals_of(text, width, height, count - 1, k);
        } else {
            lemma_row_goals(
                text,
                line_spans(text)[count - 1].0,
                height - count,
                width,
                k - before.len(),
            );
        }
    }
}

/// A ninth actor is one too many, whatever cells the actors stand on: when
/// `found` holds some actors already and the next lines define actors up to
/// a ninth, the line of the ninth is reported as holding one actor too many.
pub proof fn lemma_ninth_actor_is_too_many(text: Seq<char>, i: int, found: Seq<Actor>)
    requires
        0 <= i,
        found.len() <= MAX_ACTORS,
        i + (MAX_ACTORS - found.len()) < line_spans(text).len(),
        forall|k: int|
            i <= k <= i + (MAX_ACTORS - found.len()) ==> (#[trigger] actor_of(
                text,
                line_spans(text)[k].0,
                line_spans(text)[k].1,
                k,
            )) is Ok,
    ensures
        actors_from(text, i, found) == Err::<Seq<Actor>, Fault>(
            Fault::TooManyActors { line_number: i + (MAX_ACTORS - found.len()) },
        ),
    decreases MAX_ACTORS - found.len(),
{
    let span = line_spans(text)[i];
    let here = actor_of(text, span.0, span.1, i);
    assert(here is Ok);
    if found.len() < MAX_ACTORS {
        lemma_ninth_actor_is_too_many(text, i + 1, found.push(here->Ok_0));
    }
}

/// Checks one row and collects its goals.
fn check_row(
    chars: &Vec<char>,
    from: usize,
    to: usize,
    line_number: usize,
    width: usize,
    y: usize,
    goals: &mut Vec<Goal>,
) -> (r: Result<(), ParseError>)
    requires
        from <= to <= chars@.len(),
        byte_len(chars@) <= i32::MAX,
        y <= i32::MAX,
    ensures
        match r {
            Ok(_) => {
                &&& row_fault(chars@, from as int, to as int, line_number as int, width as int)
                    is None
                &&& final(goals)@ == old(goals)@ + row_goals(
                    chars@,
                    from as int,
                    y as int,
                    width as int,
                )
                &&& to - from == width
                &&& forall|i: int| from <= i < to ==> is_tile_char(#[trigger] chars@[i])
            },
            Err(e) => row_fault(chars@, from as int, to as int, line_number as int, width as int)
                == Some(e@),
        },
{
    proof {
        lemma_byte_len_part(chars@, from as int, to as int);
    }
    let line_width = span_width(chars, from, to);
    if line_width != width {
        return Err(ParseError::UnevenRows { line_number, data_width: width, line_width });
    }
    let mut x: usize = 0;
    while x < to - from
        invariant
            from <= to <= chars@.len(),
            x <= to - from,
            to - from <= i32::MAX,
            y <= i32::MAX,
            byte_len(chars@.subrange(from as int, to as int)) == width,
            bad_char(chars@, from as int, to as int) == bad_char(chars@, from + x, to as int),
            goals@ == old(goals)@ + row_goals(chars@, from as int, y as int, x as int),
            forall|i: int| from <= i < from + x ==> is_tile_char(#[trigger] chars@[i]),
        decreases to - from - x,
    {
        let c = chars[from + x];
        let position = Vec2::new(x as i32, y as i32);
        if c == 'r' {
            goals.push(Goal { position, color: Color::Red });
        } else if c == 'b' {
            goals.push(Goal { position, color: Color::Blue });
        } else if c == '.' || c == ' ' {
        } else {
            assert(!is_tile_char(chars@[from + x]));
            assert(bad_char(chars@, from + x, to as int) == from + x);
            return Err(
                ParseError::UnexpectedCharacter { line_number, column_number: x + 1, character: c },
            );
        }
        assert(is_tile_char(chars@[from + x]));
        x += 1;
    }
    proof {
        lemma_row_width(chars@, from as int, to as int);
    }
    Ok(())
}

/// Reads the actor that the line at `from..to` defines.
fn read_actor(s: &str, chars: &Vec<char>, from: usize, to: usize, line_number: usize) -> (r: Result<
    Actor,
    ParseError,
>)
    requires
        chars@ == s@,
        from <= to <= chars@.len(),
    ensures
        match r {
            Ok(actor) => actor_of(chars@, from as int, to as int, line_number as int) == Ok::<
                Actor,
                Fault,
            >(actor),
            Err(e) => actor_of(chars@, from as int, to as int, line_number as int) == Err::<
                Actor,
                Fault,
            >(e@),
        },
{
    let s0 = find(chars, ' ', from, to);
    let ghost name = chars@.subrange(from as int, s0 as int);
    let color = if s0 - from == 1 && chars[from] == 'R' {
        assert(name == seq!['R']);
        Color::Red
    } else if s0 - from == 1 && chars[from] == 'B' {
        assert(name == seq!['B']);
        assert(name != seq!['R']) by {
            assert(name[0] == 'B');
        }
        Color::Blue
    } else {
        proof {
            if name == seq!['R'] || name == seq!['B'] {
                assert(name.len() == 1);
                assert(name[0] == chars@[from as int]);
            }
        }
        return Err(
            ParseError::InvalidActorColor {
                line_number,
                color: s.substring_char(from, s0).to_owned(),
            },
        );
    };
    if s0 >= to {
        return Err(ParseError::MissingActorX { line_number });
    }
    let s1 = find(chars, ' ', s0 + 1, to);
    let x = match parse_i32(s.substring_char(s0 + 1, s1)) {
        Ok(x) => x,
        Err(parse_error) => {
            return Err(ParseError::InvalidActorX { line_number, parse_error });
        },
    };
    if s1 >= to {
        return Err(ParseError::MissingActorY { line_number });
    }
    let s2 = find(chars, ' ', s1 + 1, to);
    let y = match parse_i32(s.substring_char(s1 + 1, s2)) {
        Ok(y) => y,
        Err(parse_error) => {
            return Err(ParseError::InvalidActorY { line_number, parse_error });
        },
    };
    Ok(Actor { position: Vec2::new(x, y), color })
}

/// Whether one of the first `count` actors of the list stands at the
/// position.
fn taken_before(list: &ArrayVec<Actor, 8>, count: usize, position: Vec2) -> (taken: bool)
    requires
        count <= actors_of(*list).len(),
    ensures
        taken == occupied(actors_of(*list).take(count as int), position),
{
    let ghost earlier = actors_of(*list).take(count as int);
    let mut k: usize = 0;
    while k < count
        invariant
            k <= count <= actors_of(*list).len(),
            earlier == actors_of(*list).take(count as int),
            forall|j: int| 0 <= j < k ==> (#[trigger] earlier[j]).position != position,
        decreases count - k,
    {
        if list_get(list, k).position == position {
            assert(earlier[k as int].position == position);
            return true;
        }
        k += 1;
    }
    false
}

/// The tile that a row character stands for.
fn tile_for(c: char) -> (tile: Tile)
    ensures
        tile == tile_of(c),
{
    if c == ' ' {
        Tile::Impassable
    } else {
        Tile::Passable
    }
}

/// The tiles of `height` checked rows of the given width, bottom row first.
fn read_tiles(chars: &Vec<char>, spans: &Vec<(usize, usize)>, width: usize, height: usize) -> (tiles:
    Vec<Tile>)
    requires
        height <= spans@.len(),
        spans@.len() == line_spans(chars@).len(),
        forall|j: int|
            0 <= j < height ==> (#[trigger] spans@[j]).0 == line_spans(chars@)[j].0 && spans@[j].0
                + width <= chars@.len(),
    ensures
        tiles@ == board_of(chars@, width as int, height as int).cells,
{
    let ghost cells = board_of(chars@, width as int, height as int).cells;
    let mut tiles: Vec<Tile> = Vec::new();
    let mut y: usize = 0;
    let total = chars.len();
    assert(0 * width == 0) by (nonlinear_arith);
    assert(0 <= width * height) by (nonlinear_arith);
    while y < height
        invariant
            y <= height <= spans@.len(),
            spans@.len() == line_spans(chars@).len(),
            forall|j: int|
                0 <= j < height ==> (#[trigger] spans@[j]).0 == line_spans(chars@)[j].0
                    && spans@[j].0 + width <= chars@.len(),
            cells == board_of(chars@, width as int, height as int).cells,
            chars@.len() <= usize::MAX,
            tiles@.len() == y * width,
            tiles@.len() <= cells.len(),
            forall|k: int| 0 <= k < tiles@.len() ==> tiles@[k] == cells[k],
        decreases height - y,
    {
        let from = spans[height - 1 - y].0;
        let mut x: usize = 0;
        while x < width
            invariant
                y < height <= spans@.len(),
                x <= width,
                height <= line_spans(chars@).len(),
                from == line_spans(chars@)[height - 1 - y].0,
                from + width <= chars@.len(),
                chars@.len() <= usize::MAX,
                cells == board_of(chars@, width as int, height as int).cells,
                tiles@.len() == y * width + x,
                tiles@.len() <= cells.len(),
                forall|k: int| 0 <= k < tiles@.len() ==> tiles@[k] == cells[k],
            decreases width - x,
        {
            proof {
                let k = y * width + x;
                lemma_fundamental_div_mod_converse(k, width as int, y as int, x as int);
                assert(k < width * height) by (nonlinear_arith)
                    requires
                        k == y * width + x,
                        0 <= x < width,
                        0 <= y < height,
                ;
            }
            tiles.push(tile_for(chars[from + x]));
            x += 1;
        }
        assert((y + 1) * width == y * width + width && (y + 1) * width <= width * height)
            by (nonlinear_arith)
            requires
                y < height,
        ;
        y += 1;
    }
    assert(height * width == width * height) by (nonlinear_arith);
    assert(tiles@ =~= cells);
    tiles
}

impl State {
    /// Reads a puzzle: the block of rows, an empty line, and one line for
    /// each actor. The order of the actor lines has no influence on the
    /// state: it lists the actors in canonical order. The first thing that is wrong with the text, reading from
    /// the top, is reported as the error. Board coordinates are `i32`, so the
    /// text must be shorter than 2 GiB.
    pub fn parse(s: &str) -> (r: Result<(State, Data), ParseError>)
        requires
            byte_len(s@) <= i32::MAX,
        ensures
            match r {
                Ok(puzzle) => {
                    &&& read_puzzle(s@) == Ok::<(Seq<Actor>, crate::model::Board), Fault>(
                        (puzzle.0@, puzzle.1@),
                    )
                    &&& puzzle.0.wf()
                    &&& puzzle.1.wf()
                },
                Err(e) => read_puzzle(s@) == Err::<(Seq<Actor>, crate::model::Board), Fault>(e@),
            },
    {
        let chars = to_chars(s);
        let spans = split_lines(&chars);
        let ghost text = s@;
        proof {
            lemma_line_count(text, 0, 0);
            lemma_byte_len_chars(text);
        }
        let count = spans.len();
        if count == 0 {
            return Err(ParseError::NoRows);
        }
        proof {
            lemma_byte_len_part(text, spans@[0].0 as int, spans@[0].1 as int);
        }
        let width = span_width(&chars, spans[0].0, spans[0].1);
        assert(width == byte_len(line(text, 0)));

        let mut height: usize = 0;
        while height < count && spans[height].0 != spans[height].1
            invariant
                height <= count,
                count == spans@.len(),
                chars@ == text,
                spans@.len() == line_spans(text).len(),
                forall|i: int|
                    0 <= i < spans@.len() ==> (#[trigger] spans@[i]).0 == line_spans(text)[i].0
                        && spans@[i].1 == line_spans(text)[i].1 && spans@[i].0 <= spans@[i].1
                        <= text.len(),
                blank_line(text, 0) == blank_line(text, height as int),
            decreases count - height,
        {
            height += 1;
        }
        if height >= count {
            return Err(ParseError::NoLineBreakAfterRows);
        }
        assert(blank_line(text, 0) == height);

        let mut goals: Vec<Goal> = Vec::new();
        let mut i: usize = 0;
        while i < height
            invariant
                i <= height < count,
                count == spans@.len(),
                count <= i32::MAX,
                chars@ == text,
                text == s@,
                byte_len(text) <= i32::MAX,
                blank_line(text, 0) == height,
                width == byte_len(line(text, 0)),
                spans@.len() == line_spans(text).len(),
                forall|i: int|
                    0 <= i < spans@.len() ==> (#[trigger] spans@[i]).0 == line_spans(text)[i].0
                        && spans@[i].1 == line_spans(text)[i].1 && spans@[i].0 <= spans@[i].1
                        <= text.len(),
                rows_fault(text, width as int, height as int, 0) == rows_fault(
                    text,
                    width as int,
                    height as int,
                    i as int,
                ),
                goals@ == goals_of(text, width as int, height as int, i as int),
                forall|j: int| 0 <= j < i ==> (#[trigger] spans@[j]).1 - spans@[j].0 == width,
            decreases height - i,
        {
            match check_row(&chars, spans[i].0, spans[i].1, i, width, height - 1 - i, &mut goals) {
                Err(e) => {
                    return Err(e);
                },
                Ok(_) => {},
            }
            i += 1;
        }
        assert(rows_fault(text, width as int, height as int, 0) is None);
        let tiles = read_tiles(&chars, &spans, width, height);

        let mut list = list_new();
        let mut i: usize = height + 1;
        while i < count
            invariant
                height < i <= count,
                count == spans@.len(),
                chars@ == text,
                chars@ == s@,
                blank_line(text, 0) == height,
                width == byte_len(line(text, 0)),
                rows_fault(text, width as int, height as int, 0) is None,
                spans@.len() == line_spans(text).len(),
                forall|i: int|
                    0 <= i < spans@.len() ==> (#[trigger] spans@[i]).0 == line_spans(text)[i].0
                        && spans@[i].1 == line_spans(text)[i].1 && spans@[i].0 <= spans@[i].1
                        <= text.len(),
                actors_from(text, height + 1, Seq::empty()) == actors_from(
                    text,
                    i as int,
                    actors_of(list),
                ),
                actors_of(list).len() == i - (height + 1),
                actors_of(list).len() <= 8,
            decreases count - i,
        {
            let actor = match read_actor(s, &chars, spans[i].0, spans[i].1, i) {
                Ok(actor) => actor,
                Err(e) => {
                    return Err(e);
                },
            };
            if list_len(&list) >= MAX_ACTORS {
                return Err(ParseError::TooManyActors { line_number: i });
            }
            list_push(&mut list, actor);
            i += 1;
        }
        let ghost listed = actors_of(list);
        assert(actors_from(text, height + 1, Seq::empty()) == Ok::<Seq<Actor>, Fault>(listed));
        let n = list_len(&list);
        let mut j: usize = 0;
        while j < n
            invariant
                j <= n,
                n == listed.len(),
                n == count - (height + 1),
                listed == actors_of(list),
                first_overlap(listed, 0) == first_overlap(listed, j as int),
                collision_free(listed.take(j as int)),
                text == s@,
                height < count,
                count == line_spans(text).len(),
                blank_line(text, 0) == height,
                width == byte_len(line(text, 0)),
                rows_fault(text, width as int, height as int, 0) is None,
                actors_from(text, height + 1, Seq::empty()) == Ok::<Seq<Actor>, Fault>(listed),
            decreases n - j,
        {
            if taken_before(&list, j, list_get(&list, j).position) {
                return Err(ParseError::OverlappingActors { line_number: height + 1 + j });
            }
            proof {
                let before = listed.take(j as int);
                let after = listed.take(j + 1);
                assert forall|p: int, q: int| 0 <= p < q < after.len() implies (
                #[trigger] after[p]).position != (#[trigger] after[q]).position by {
                    if q < before.len() {
                        assert(before[p].position != before[q].position);
                    } else {
                        assert(before[p].position == after[p].position);
                    }
                }
            }
            j += 1;
        }
        proof {
            assert(listed.take(n as int) == listed);
            lemma_canonical_is_sorted_permutation(listed);
            lemma_permutation_collision_free(listed, canonical(listed));
        }
        sort_list(&mut list);
        let size = Vec2::new(width as i32, height as i32);
        let state = State::from_list(list);
        proof {
            let board = board_of(text, width as int, height as int);
            assert(board == (crate::model::Board {
                width: size.x as int,
                height: size.y as int,
                cells: tiles@,
                goals: goals@,
            }));
            assert(board.cells.len() == board.width * board.height);
            assert forall|k: int| 0 <= k < board.goals.len() implies board.passable(
                (#[trigger] board.goals[k]).position.x as int,
                board.goals[k].position.y as int,
            ) by {
                lemma_goals_of(text, width as int, height as int, height as int, k);
                let goal = board.goals[k];
                let gx = goal.position.x as int;
                let gy = goal.position.y as int;
                lemma_fundamental_div_mod_converse(gx + gy * width, width as int, gy, gx);
                assert(0 <= gx + gy * width < width * height) by (nonlinear_arith)
                    requires
                        0 <= gx < width,
                        0 <= gy < height,
                ;
            }
        }
        let data = Data::from_parts(size, tiles, goals);
        Ok((state, data))
    }
}

} // verus!
