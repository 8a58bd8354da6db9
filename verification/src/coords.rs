//! Vertex names and board diagrams: the two ways a position gets in and out.
//!
//! Columns are lettered A..T with I left out, the way every Go program and every
//! Go app labels them; rows count up from 1 at the bottom.

use vstd::prelude::*;

use crate::board::{Board, Cell, Color, Move, Point, Position};
use crate::laws;
use crate::rebuild;
use crate::rules;
use crate::text;

verus! {

/// The letter of the column `x`: A to T, without I.
pub open spec fn letter(x: int) -> char {
    if x < 8 {
        ('A' as int + x) as char
    } else {
        ('A' as int + x + 1) as char
    }
}

/// The column that a letter names, in either case.
pub open spec fn column(c: char) -> Option<int> {
    let l = text::lower(c);
    if 'a' <= l <= 'h' {
        Some(l as int - 'a' as int)
    } else if 'j' <= l <= 't' {
        Some(l as int - 'a' as int - 1)
    } else {
        None
    }
}

/// Is `mv` a move that has a name: one whose point, if it plays one, lies in a
/// lettered column and a numbered row?
pub open spec fn has_name(mv: Move) -> bool {
    mv matches Move::Play(pt) ==> 1 <= pt % 21 <= 19 && pt / 21 >= 1
}

/// The name of a move: `pass`, `resign`, or column letter and row number.
pub open spec fn move_name(mv: Move) -> Seq<char> {
    match mv {
        Move::Pass => "pass"@,
        Move::Resign => "resign"@,
        Move::Play(pt) => seq![letter(pt % 21 - 1)] + text::decimal((pt / 21) as nat),
    }
}

/// The move that a text names on a board of this size, if it names one.
pub open spec fn named_move(size: int, s: Seq<char>) -> Option<Move> {
    let t = text::trim(s);
    if text::lowered(t) == "pass"@ {
        Some(Move::Pass)
    } else if text::lowered(t) == "resign"@ {
        Some(Move::Resign)
    } else if t.len() < 2 {
        None
    } else {
        match (column(t[0]), text::number(text::trim(t.skip(1)))) {
            (Some(x), Some(row)) => if x < size && 1 <= row <= size {
                Some(Move::Play(rules::point_at(x, row - 1) as Point))
            } else {
                None
            },
            _ => None,
        }
    }
}

pub fn column_letter(x: usize) -> (c: char)
    requires
        x < 19,
    ensures
        c == letter(x as int),
{
    if x < 8 {
        (65 + x as u8) as char
    } else {
        (66 + x as u8) as char
    }
}

/// Does the move have a name?
pub fn can_name(mv: Move) -> (r: bool)
    ensures
        r == has_name(mv),
{
    match mv {
        Move::Play(pt) => {
            let column: Point = pt % 21;
            1 <= column && column <= 19 && pt / 21 >= 1
        },
        _ => true,
    }
}

pub fn format_move(board: &Board, mv: Move) -> (r: String)
    requires
        has_name(mv),
    ensures
        r@ == move_name(mv),
{
    match mv {
        Move::Pass => "pass".to_owned(),
        Move::Resign => "resign".to_owned(),
        Move::Play(pt) => {
            let (x, y) = board.coords(pt);
            let mut out: String = String::new();
            out.push(column_letter(x));
            text::push_number(&mut out, (y + 1) as u64);
            assert(out@ =~= move_name(mv));
            out
        },
    }
}

fn column_of(c: char) -> (r: Option<usize>)
    ensures
        r is Some <==> column(c) is Some,
        r matches Some(x) ==> column(c) == Some(x as int) && x < 19,
{
    let l: char = text::to_lower(c);
    if 'a' <= l && l <= 'h' {
        Some((l as u32 - 'a' as u32) as usize)
    } else if 'j' <= l && l <= 't' {
        Some((l as u32 - 'a' as u32 - 1) as usize)
    } else {
        None
    }
}

/// Parses `d4`, `D4`, `pass` or `resign`. Case does not matter and `i` is
/// rejected rather than guessed at, because a column `I` does not exist.
pub fn parse_move(board: &Board, text: &str) -> (r: Option<Move>)
    requires
        board@.wf(),
    ensures
        r == named_move(board@.size, text@),
{
    read_move(board, &text::chars_of(text))
}

/// The move that some characters name on this board.
pub fn read_move(board: &Board, s: &Vec<char>) -> (r: Option<Move>)
    requires
        board@.wf(),
    ensures
        r == named_move(board@.size, s@),
{
    let t: Vec<char> = text::trimmed(s);
    let low: Vec<char> = text::to_lowered(&t);
    if text::same(&low, "pass") {
        return Some(Move::Pass);
    }
    if text::same(&low, "resign") {
        return Some(Move::Resign);
    }
    if t.len() < 2 {
        return None;
    }
    let x: usize = match column_of(t[0]) {
        Some(x) => x,
        None => {
            return None;
        },
    };
    let rest: Vec<char> = text::trimmed(&text::slice(&t, 1, t.len()));
    assert(t@.subrange(1, t@.len() as int) =~= t@.skip(1));
    let size: usize = board.size();
    let row: u64 = match text::parse_number(&rest, 19) {
        Some(row) => row,
        None => {
            return None;
        },
    };
    if x >= size || row == 0 || row > size as u64 {
        return None;
    }
    Some(Move::Play(board.point(x, row as usize - 1)))
}

/// A move that a text names is on the board.
pub proof fn lemma_named_move(size: int, s: Seq<char>)
    requires
        2 <= size <= 19,
    ensures
        named_move(size, s) matches Some(Move::Play(pt)) ==> rules::on_board(size, pt as int),
{
}

/// The name of a move on a board reads back as the move.
pub proof fn law_move_names_round_trip(size: int, mv: Move)
    requires
        2 <= size <= 19,
        mv matches Move::Play(pt) ==> rules::on_board(size, pt as int),
    ensures
        named_move(size, move_name(mv)) == Some(mv),
{
    let s = move_name(mv);
    reveal_strlit("pass");
    reveal_strlit("resign");
    match mv {
        Move::Pass => {
            text::lemma_trim_inked(s);
            assert(text::lowered(s) =~= s);
        },
        Move::Resign => {
            text::lemma_trim_inked(s);
            assert(text::lowered(s) =~= s);
            assert(s[0] != "pass"@[0]);
        },
        Move::Play(pt) => {
            let row = (pt / 21) as nat;
            let x = pt % 21 - 1;
            let digits = text::decimal(row);
            text::lemma_decimal(row);
            assert(s.skip(1) =~= digits);
            assert(text::is_digit(digits[0]) && text::is_digit(digits.last()));
            assert(text::is_digit(digits[digits.len() - 1]));
            text::lemma_trim_inked(s);
            text::lemma_trim_inked(digits);
            text::law_number_round_trip(row);
            assert(text::lowered(s)[1] == text::lower(digits[0]));
            assert(text::lowered(s)[1] == digits[0]);
            assert("pass"@[1] == 'a' && "resign"@[1] == 'e');
            assert(column(letter(x)) == Some(x));
            assert(digits.len() > 0 && digits[0] != '+');
            assert(rules::point_at(x, row - 1) == pt);
        },
    }
}

/// Does the star-point pattern of a board of this size include the coordinate
/// `v`: near an edge, or in the middle of an odd board?
pub open spec fn on_star_line(size: int, v: int) -> bool {
    let edge = if size >= 13 {
        3int
    } else {
        2
    };
    v == edge || v == size - 1 - edge || (size % 2 == 1 && v == size / 2)
}

/// Is (x, y) a star point? Boards under 7 have none.
pub open spec fn star(size: int, x: int, y: int) -> bool {
    size >= 7 && on_star_line(size, x) && on_star_line(size, y)
}

/// The blanks before the column letters, as wide as a row's label and the space
/// after it.
pub open spec fn margin(size: int) -> Seq<char> {
    if size >= 10 {
        seq![' ', ' ', ' ']
    } else {
        seq![' ', ' ']
    }
}

/// The letters of the first `n` columns, each followed by a space.
pub open spec fn letters_upto(n: nat) -> Seq<char>
    decreases n,
{
    if n == 0 {
        Seq::empty()
    } else {
        letters_upto((n - 1) as nat) + seq![letter(n - 1), ' ']
    }
}

/// The line of column letters.
pub open spec fn header(size: int) -> Seq<char> {
    margin(size) + letters_upto(size as nat)
}

/// A row number, set flush right.
pub open spec fn label(size: int, n: nat) -> Seq<char> {
    if size >= 10 && n < 10 {
        seq![' '] + text::decimal(n)
    } else {
        text::decimal(n)
    }
}

/// What stands between two neighbours in a row: a space, or the brackets of
/// those that are marked.
pub open spec fn gap(left: bool, right: bool) -> Seq<char> {
    if left && right {
        seq![')', '(']
    } else if left {
        seq![')']
    } else if right {
        seq!['(']
    } else {
        seq![' ']
    }
}

pub open spec fn is_marked(marks: Seq<Point>, x: int, y: int) -> bool {
    marks.contains(rules::point_at(x, y) as Point)
}

/// How the point (x, y) is drawn.
pub open spec fn glyph(pos: Position, marks: Seq<Point>, x: int, y: int) -> char {
    match pos.cells[rules::point_at(x, y)] {
        Cell::Black => 'X',
        Cell::White => 'O',
        _ => if is_marked(marks, x, y) {
            '*'
        } else if star(pos.size, x, y) {
            '+'
        } else {
            '.'
        },
    }
}

/// The row `y` as far as its first `n` points.
pub open spec fn row_upto(pos: Position, marks: Seq<Point>, y: int, n: nat) -> Seq<char>
    decreases n,
{
    if n == 0 {
        label(pos.size, (y + 1) as nat)
    } else {
        row_upto(pos, marks, y, (n - 1) as nat) + gap(
            n > 1 && is_marked(marks, n - 2, y),
            is_marked(marks, n - 1, y),
        ) + seq![glyph(pos, marks, n - 1, y)]
    }
}

/// The row `y`, with its number on both sides.
pub open spec fn row_text(pos: Position, marks: Seq<Point>, y: int) -> Seq<char> {
    row_upto(pos, marks, y, pos.size as nat) + gap(is_marked(marks, pos.size - 1, y), false)
        + label(pos.size, (y + 1) as nat)
}

/// The lines of a diagram: the rows, the highest first, between two lines of
/// column letters.
pub open spec fn diagram_lines(pos: Position, marks: Seq<Point>) -> Seq<Seq<char>> {
    Seq::new(
        (pos.size + 2) as nat,
        |i: int|
            if i == 0 || i == pos.size + 1 {
                header(pos.size)
            } else {
                row_text(pos, marks, pos.size - i)
            },
    )
}

fn is_star_point(size: usize, x: usize, y: usize) -> (r: bool)
    requires
        2 <= size <= 19,
    ensures
        r == star(size as int, x as int, y as int),
{
    if size < 7 {
        return false;
    }
    let edge: usize = if size >= 13 {
        3
    } else {
        2
    };
    let mid: usize = size / 2;
    let x_on: bool = x == edge || x == size - 1 - edge || (size % 2 == 1 && x == mid);
    let y_on: bool = y == edge || y == size - 1 - edge || (size % 2 == 1 && y == mid);
    x_on && y_on
}

fn contains(marks: &[Point], pt: Point) -> (r: bool)
    ensures
        r == marks@.contains(pt),
{
    let mut i: usize = 0;
    while i < marks.len()
        invariant
            i <= marks.len(),
            forall|j: int| 0 <= j < i ==> #[trigger] marks@[j] != pt,
        decreases marks.len() - i,
    {
        if marks[i] == pt {
            return true;
        }
        i += 1;
    }
    false
}

fn push_gap(out: &mut String, left: bool, right: bool)
    ensures
        final(out)@ == old(out)@ + gap(left, right),
{
    if left {
        out.push(')');
    }
    if right {
        out.push('(');
    }
    if !left && !right {
        out.push(' ');
    }
    assert(out@ =~= old(out)@ + gap(left, right));
}

fn push_label(out: &mut String, size: usize, n: usize)
    ensures
        final(out)@ == old(out)@ + label(size as int, n as nat),
{
    if size >= 10 && n < 10 {
        out.push(' ');
    }
    text::push_number(out, n as u64);
    assert(out@ =~= old(out)@ + label(size as int, n as nat));
}

fn push_header(out: &mut String, size: usize)
    requires
        2 <= size <= 19,
    ensures
        final(out)@ == old(out)@ + header(size as int),
{
    out.push(' ');
    out.push(' ');
    if size >= 10 {
        out.push(' ');
    }
    assert(out@ =~= old(out)@ + margin(size as int) + letters_upto(0));
    let mut x: usize = 0;
    while x < size
        invariant
            x <= size <= 19,
            out@ == old(out)@ + margin(size as int) + letters_upto(x as nat),
        decreases size - x,
    {
        out.push(column_letter(x));
        out.push(' ');
        x += 1;
        assert(out@ =~= old(out)@ + margin(size as int) + letters_upto(x as nat));
    }
    assert(out@ =~= old(out)@ + header(size as int));
}

fn push_row(out: &mut String, board: &Board, marks: &[Point], y: usize)
    requires
        board@.wf(),
        y < board@.size,
    ensures
        final(out)@ == old(out)@ + row_text(board@, marks@, y as int),
{
    let size: usize = board.size();
    let ghost pos = board@;
    push_label(out, size, y + 1);
    let mut before: bool = false;
    let mut x: usize = 0;
    while x < size
        invariant
            x <= size,
            size == pos.size,
            pos == board@,
            pos.wf(),
            y < size,
            out@ == old(out)@ + row_upto(pos, marks@, y as int, x as nat),
            before == (x > 0 && is_marked(marks@, x - 1, y as int)),
        decreases size - x,
    {
        let pt: Point = board.point(x, y);
        let marked: bool = contains(marks, pt);
        let shown: char = match board.cell(pt) {
            Cell::Black => 'X',
            Cell::White => 'O',
            // A marked empty point is the one being recommended, and `(.)`
            // reads as nothing at all.
            _ => if marked {
                '*'
            } else if is_star_point(size, x, y) {
                '+'
            } else {
                '.'
            },
        };
        push_gap(out, before, marked);
        out.push(shown);
        before = marked;
        x += 1;
        assert(out@ =~= old(out)@ + row_upto(pos, marks@, y as int, x as nat));
    }
    push_gap(out, before, false);
    push_label(out, size, y + 1);
    assert(out@ =~= old(out)@ + row_text(pos, marks@, y as int));
}

/// A diagram of the board, row `size` at the top, so that it matches what a Go
/// app shows. `marks` are highlighted with brackets.
pub fn diagram(board: &Board, marks: &[Point]) -> (r: String)
    requires
        board@.wf(),
    ensures
        r@ == text::unlines(diagram_lines(board@, marks@)),
{
    let size: usize = board.size();
    let ghost all = diagram_lines(board@, marks@);
    let mut out: String = String::new();
    push_header(&mut out, size);
    out.push('\n');
    proof {
        assert(all.take(0) =~= Seq::<Seq<char>>::empty());
        assert(text::unlines(all.take(0)) =~= Seq::<char>::empty());
        assert(all.take(1).drop_last() =~= all.take(0));
        assert(all.take(1).last() == header(size as int));
        assert(out@ =~= text::unlines(all.take(1)));
    }
    let mut y: usize = size;
    while y > 0
        invariant
            y <= size,
            board@.wf(),
            size == board@.size,
            all == diagram_lines(board@, marks@),
            out@ == text::unlines(all.take(size - y + 1)),
        decreases y,
    {
        y -= 1;
        push_row(&mut out, board, marks, y);
        out.push('\n');
        proof {
            let i = size - y;
            assert(all.take(i + 1).drop_last() =~= all.take(i));
            assert(all.take(i + 1).last() == row_text(board@, marks@, y as int));
            assert(out@ =~= text::unlines(all.take(i + 1)));
        }
    }
    push_header(&mut out, size);
    out.push('\n');
    proof {
        assert(all.take(size + 2) =~= all);
        assert(all.drop_last() =~= all.take(size + 1));
        assert(all.last() == header(size as int));
        assert(out@ =~= text::unlines(all));
    }
    out
}

/// What a character of a diagram stands for.
#[derive(Clone, Copy, PartialEq, Eq, Debug, Structural)]
pub enum Glyph {
    /// A point of the board.
    Point(Cell),
    /// Decoration: blanks, row numbers and brackets.
    Skip,
    /// Nothing that belongs on a row of stones.
    Foreign,
}

/// What the character `c` of a diagram stands for.
pub open spec fn glyph_of(c: char) -> Glyph {
    if c == 'X' || c == 'x' || c == '#' || c == 'B' || c == 'b' {
        Glyph::Point(Cell::Black)
    } else if c == 'O' || c == 'o' || c == 'W' || c == 'w' {
        Glyph::Point(Cell::White)
    } else if c == '.' || c == '+' || c == '-' || c == '*' || c == ',' || c == '@' {
        Glyph::Point(Cell::Empty)
    } else if text::is_white(c) || text::is_digit(c) || c == '(' || c == ')' || c == '[' || c == ']'
        || c == '|' {
        Glyph::Skip
    } else {
        Glyph::Foreign
    }
}

/// The points that a line of a diagram shows.
pub open spec fn row_cells(line: Seq<char>) -> Seq<Cell>
    decreases line.len(),
{
    if line.len() == 0 {
        Seq::empty()
    } else {
        match glyph_of(line.last()) {
            Glyph::Point(cell) => row_cells(line.drop_last()).push(cell),
            _ => row_cells(line.drop_last()),
        }
    }
}

/// A line is a row of stones only if everything on it, once the labels and
/// decoration are dropped, is a stone glyph, and there is at least one.
pub open spec fn is_row(line: Seq<char>) -> bool {
    &&& forall|i: int| 0 <= i < line.len() ==> glyph_of(#[trigger] line[i]) != Glyph::Foreign
    &&& row_cells(line).len() > 0
}

/// The rows of stones among some lines.
pub open spec fn stone_rows(all: Seq<Seq<char>>) -> Seq<Seq<Cell>>
    decreases all.len(),
{
    if all.len() == 0 {
        Seq::empty()
    } else if is_row(all.last()) {
        stone_rows(all.drop_last()).push(row_cells(all.last()))
    } else {
        stone_rows(all.drop_last())
    }
}

/// The first row, from `from` on, that is not `size` points long; the number of
/// rows if there is none.
pub open spec fn first_misfit(rows: Seq<Seq<Cell>>, size: int, from: nat) -> nat
    decreases rows.len() - from,
{
    if from >= rows.len() {
        rows.len()
    } else if rows[from as int].len() != size {
        from
    } else {
        first_misfit(rows, size, from + 1)
    }
}

/// What does not line up in the rows of a diagram, if anything does not.
pub open spec fn diagram_error(rows: Seq<Seq<Cell>>, size: int) -> Option<Seq<char>> {
    let bad = first_misfit(rows, size, 0);
    if rows.len() == 0 {
        Some("no stone rows found in the diagram"@)
    } else if rows.len() != size {
        Some(
            "the diagram has "@ + text::decimal(rows.len()) + " rows, but the board is "@
                + text::decimal(size as nat) + "x"@ + text::decimal(size as nat),
        )
    } else if bad < rows.len() {
        Some(
            "row "@ + text::decimal(bad + 1) + " of the diagram has "@ + text::decimal(
                rows[bad as int].len(),
            ) + " points, expected "@ + text::decimal(size as nat),
        )
    } else {
        None
    }
}

/// The stones on the first `n` points of the rows, in the order in which they are
/// read: top row first, from left to right.
pub open spec fn stones_upto(rows: Seq<Seq<Cell>>, size: int, n: nat) -> Seq<(Point, Color)>
    decreases n,
{
    if n == 0 {
        Seq::empty()
    } else {
        let i = (n - 1) / size;
        let x = (n - 1) % size;
        let before = stones_upto(rows, size, (n - 1) as nat);
        let pt = rules::point_at(x, size - 1 - i) as Point;
        match rows[i][x] {
            Cell::Black => before.push((pt, Color::Black)),
            Cell::White => before.push((pt, Color::White)),
            _ => before,
        }
    }
}

/// All the stones that the rows show.
pub open spec fn stones_in(rows: Seq<Seq<Cell>>, size: int) -> Seq<(Point, Color)> {
    stones_upto(rows, size, (size * size) as nat)
}

/// The position after setting up the stones one after the other.
pub open spec fn set_up(pos: Position, stones: Seq<(Point, Color)>) -> Position
    decreases stones.len(),
{
    if stones.len() == 0 {
        pos
    } else {
        set_up(pos, stones.drop_last()).after_setup(stones.last().0 as int, stones.last().1)
    }
}

/// The points of those stones that are not on the board.
pub open spec fn missing(cells: Seq<Cell>, stones: Seq<(Point, Color)>) -> Seq<Point>
    decreases stones.len(),
{
    if stones.len() == 0 {
        Seq::empty()
    } else {
        let before = missing(cells, stones.drop_last());
        let (pt, c) = stones.last();
        if cells[pt as int] != c.spec_cell() {
            before.push(pt)
        } else {
            before
        }
    }
}

/// The position that some rows lay out: their stones set up in the order in which
/// they are read.
pub open spec fn laid_out(rows: Seq<Seq<Cell>>, size: int) -> Position {
    set_up(Position::empty(size), stones_in(rows, size))
}

/// The position that some rows show: what they lay out, without the stones that have
/// no liberties.
pub open spec fn shown_position(rows: Seq<Seq<Cell>>, size: int) -> Position {
    laid_out(rows, size).settled()
}

/// Is every stone on the board one of these?
pub open spec fn only_these(cells: Seq<Cell>, stones: Seq<(Point, Color)>) -> bool {
    forall|p: int|
        0 <= p < 441 && rules::is_stone(#[trigger] cells[p]) ==> exists|j: int|
            0 <= j < stones.len() && (#[trigger] stones[j]).0 == p && stones[j].1.spec_cell()
                == cells[p]
}

/// Setting up stones makes a sound board, and puts no others on it.
pub proof fn lemma_only_these(size: int, stones: Seq<(Point, Color)>)
    requires
        2 <= size <= 19,
    ensures
        ({
            let built = set_up(Position::empty(size), stones);
            &&& built.wf()
            &&& built.size == size
            &&& only_these(built.cells, stones)
            &&& only_these(built.settled().cells, stones)
        }),
    decreases stones.len(),
{
    let start = Position::empty(size);
    let built = set_up(start, stones);
    rebuild::lemma_empty_board(size);
    if stones.len() > 0 {
        let less = stones.drop_last();
        let (pt, c) = stones.last();
        lemma_only_these(size, less);
        let before = set_up(start, less);
        if before.on_board(pt as int) {
            rules::lemma_after_own(size, before.cells, pt as int, c);
        }
        assert forall|p: int| 0 <= p < 441 && rules::is_stone(#[trigger] built.cells[p]) implies exists|
            j: int,
        |
            0 <= j < stones.len() && (#[trigger] stones[j]).0 == p && stones[j].1.spec_cell()
                == built.cells[p] by {
            if before.on_board(pt as int) && p == pt {
                assert(built.cells[p] == rules::place(before.cells, pt as int, c)[p]);
                assert(stones[stones.len() - 1] == (pt, c));
            } else {
                assert(built.cells[p] == before.cells[p]);
                let j = choose|j: int|
                    0 <= j < less.len() && (#[trigger] less[j]).0 == p && less[j].1.spec_cell()
                        == before.cells[p];
                assert(stones[j] == less[j]);
            }
        }
    }
    assert forall|p: int| 0 <= p < 441 && rules::is_stone(#[trigger] built.settled().cells[p]) implies exists|
        j: int,
    |
        0 <= j < stones.len() && (#[trigger] stones[j]).0 == p && stones[j].1.spec_cell()
            == built.settled().cells[p] by {
        assert(built.settled().cells[p] == built.cells[p]);
    }
}

fn read_glyph(c: char) -> (r: Glyph)
    ensures
        r == glyph_of(c),
{
    if c == 'X' || c == 'x' || c == '#' || c == 'B' || c == 'b' {
        Glyph::Point(Cell::Black)
    } else if c == 'O' || c == 'o' || c == 'W' || c == 'w' {
        Glyph::Point(Cell::White)
    } else if c == '.' || c == '+' || c == '-' || c == '*' || c == ',' || c == '@' {
        Glyph::Point(Cell::Empty)
    } else if text::is_white_space(c) || ('0' <= c && c <= '9') || c == '(' || c == ')' || c == '['
        || c == ']' || c == '|' {
        Glyph::Skip
    } else {
        Glyph::Foreign
    }
}

/// The points that a line shows, if it is a row of stones.
fn read_row(line: &Vec<char>) -> (r: Option<Vec<Cell>>)
    ensures
        r is Some <==> is_row(line@),
        r matches Some(row) ==> row@ == row_cells(line@),
{
    let mut row: Vec<Cell> = Vec::new();
    let mut i: usize = 0;
    assert(line@.take(0) =~= Seq::<char>::empty());
    while i < line.len()
        invariant
            i <= line.len(),
            row@ == row_cells(line@.take(i as int)),
            forall|j: int| 0 <= j < i ==> glyph_of(#[trigger] line@[j]) != Glyph::Foreign,
        decreases line.len() - i,
    {
        assert(line@.take(i + 1).drop_last() =~= line@.take(i as int));
        match read_glyph(line[i]) {
            Glyph::Point(cell) => {
                row.push(cell);
            },
            Glyph::Skip => {},
            Glyph::Foreign => {
                assert(glyph_of(line@[i as int]) == Glyph::Foreign);
                return None;
            },
        }
        i += 1;
    }
    assert(line@.take(i as int) =~= line@);
    if row.len() == 0 {
        None
    } else {
        Some(row)
    }
}

/// The rows of a diagram, as sequences of cells.
pub open spec fn cell_rows(rows: Seq<Vec<Cell>>) -> Seq<Seq<Cell>> {
    Seq::new(rows.len(), |i: int| rows[i]@)
}

fn read_rows(s: &str) -> (r: Vec<Vec<Cell>>)
    ensures
        cell_rows(r@) == stone_rows(text::lines(s@)),
{
    let all: Vec<Vec<char>> = text::lines_of(&text::chars_of(s));
    let ghost views = text::views(all@);
    let mut rows: Vec<Vec<Cell>> = Vec::new();
    let mut i: usize = 0;
    assert(cell_rows(rows@) =~= stone_rows(views.take(0)));
    while i < all.len()
        invariant
            i <= all.len(),
            views == text::views(all@),
            cell_rows(rows@) == stone_rows(views.take(i as int)),
        decreases all.len() - i,
    {
        let ghost before = cell_rows(rows@);
        assert(views.take(i + 1).drop_last() =~= views.take(i as int));
        if let Some(row) = read_row(&all[i]) {
            let ghost cells = row@;
            rows.push(row);
            assert(cell_rows(rows@) =~= before.push(cells));
        }
        i += 1;
    }
    assert(views.take(i as int) =~= views);
    rows
}

pub proof fn lemma_fits(rows: Seq<Seq<Cell>>, size: int, from: nat, i: nat)
    requires
        from <= i <= rows.len(),
        forall|j: int| from <= j < i ==> (#[trigger] rows[j]).len() == size,
        i < rows.len() ==> rows[i as int].len() != size,
    ensures
        first_misfit(rows, size, from) == i,
    decreases i - from,
{
    if from < i {
        assert(rows[from as int].len() == size);
        lemma_fits(rows, size, from + 1, i);
    }
}

/// Reads a position from a diagram. `X`, `x`, `#`, `b`, `B` are black stones,
/// `O`, `o`, `w`, `W` are white, anything else on a stone row is empty. Rows are
/// taken top-first; column letter and row number labels are ignored. Returns the
/// board, or an error naming what did not line up.
///
/// The stones are set up in the order in which they are read, each taking what it
/// captures. Nothing else is taken off: a chain that closes itself in is left as it
/// was drawn, to be scored with the rest. `parse_diagram_report` takes it off.
pub fn parse_diagram(text: &str, size: usize) -> (r: Result<Board, String>)
    requires
        stone_rows(text::lines(text@)).len() == size && size > 0 ==> 2 <= size <= 19,
    ensures
        ({
            let rows = stone_rows(text::lines(text@));
            match diagram_error(rows, size as int) {
                Some(why) => r matches Err(e) && e@ == why,
                None => r matches Ok(board) && board@ == laid_out(rows, size as int)
                    && board@.wf(),
            }
        }),
{
    match lay_out(text, size) {
        Ok((board, _)) => Ok(board),
        Err(why) => Err(why),
    }
}

/// As `parse_diagram`, but for the stones that are left with no liberties, and with
/// the points whose stones did not survive.
///
/// A stone with no liberties cannot be on a board, so one that is typed in gets
/// taken off, which is right, and silent, and means a single mis-copied point
/// turns the position into a different one without saying so. The caller is
/// expected to tell whoever typed it.
pub fn parse_diagram_report(text: &str, size: usize) -> (r: Result<(Board, Vec<Point>), String>)
    requires
        stone_rows(text::lines(text@)).len() == size && size > 0 ==> 2 <= size <= 19,
    ensures
        ({
            let rows = stone_rows(text::lines(text@));
            match diagram_error(rows, size as int) {
                Some(why) => r matches Err(e) && e@ == why,
                None => {
                    &&& r matches Ok((board, dropped))
                    &&& board@ == shown_position(rows, size as int)
                    &&& board@.wf()
                    &&& rules::all_breathe(board@.cells)
                    &&& only_these(board@.cells, stones_in(rows, size as int))
                    &&& dropped@ == missing(board@.cells, stones_in(rows, size as int))
                    &&& forall|j: int|
                        0 <= j < dropped@.len() ==> board@.on_board(#[trigger] dropped@[j] as int)
                },
            }
        }),
{
    match lay_out(text, size) {
        Ok((drawn, stones)) => {
            let mut board: Board = drawn;
            board.settle();
            proof {
                lemma_only_these(size as int, stones@);
            }
            let dropped: Vec<Point> = missing_stones(&board, &stones);
            Ok((board, dropped))
        },
        Err(why) => Err(why),
    }
}

/// The board that a diagram lays out, and the stones that it draws.
fn lay_out(text: &str, size: usize) -> (r: Result<(Board, Vec<(Point, Color)>), String>)
    requires
        stone_rows(text::lines(text@)).len() == size && size > 0 ==> 2 <= size <= 19,
    ensures
        ({
            let rows = stone_rows(text::lines(text@));
            match diagram_error(rows, size as int) {
                Some(why) => r matches Err(e) && e@ == why,
                None => {
                    &&& r matches Ok((board, stones))
                    &&& 2 <= size <= 19
                    &&& board@ == laid_out(rows, size as int)
                    &&& board@.wf()
                    &&& board@.size == size
                    &&& stones@ == stones_in(rows, size as int)
                    &&& forall|j: int|
                        0 <= j < stones@.len() ==> rules::on_board(
                            size as int,
                            (#[trigger] stones@[j]).0 as int,
                        )
                },
            }
        }),
{
    let rows: Vec<Vec<Cell>> = read_rows(text);
    let ghost all = cell_rows(rows@);
    if rows.len() == 0 {
        return Err("no stone rows found in the diagram".to_owned());
    }
    if rows.len() != size {
        let mut out: String = "the diagram has ".to_owned();
        text::push_number(&mut out, rows.len() as u64);
        out.append(" rows, but the board is ");
        text::push_number(&mut out, size as u64);
        out.append("x");
        text::push_number(&mut out, size as u64);
        return Err(out);
    }
    let mut i: usize = 0;
    while i < rows.len()
        invariant
            i <= rows.len(),
            rows.len() == size,
            size > 0,
            all == cell_rows(rows@),
            all == stone_rows(text::lines(text@)),
            forall|j: int| 0 <= j < i ==> (#[trigger] all[j]).len() == size,
        decreases rows.len() - i,
    {
        assert(all[i as int] == rows@[i as int]@);
        if rows[i].len() != size {
            proof {
                lemma_fits(all, size as int, 0, i as nat);
            }
            let mut out: String = "row ".to_owned();
            text::push_number(&mut out, i as u64 + 1);
            out.append(" of the diagram has ");
            text::push_number(&mut out, rows[i].len() as u64);
            out.append(" points, expected ");
            text::push_number(&mut out, size as u64);
            return Err(out);
        }
        i += 1;
    }
    proof {
        lemma_fits(all, size as int, 0, all.len());
    }
    let stones: Vec<(Point, Color)> = collect_stones(&rows, size);
    let mut board: Board = Board::new(size);
    place_stones(&mut board, &stones);
    Ok((board, stones))
}

pub fn collect_stones(rows: &Vec<Vec<Cell>>, size: usize) -> (r: Vec<(Point, Color)>)
    requires
        2 <= size <= 19,
        rows.len() == size,
        forall|j: int| 0 <= j < size ==> (#[trigger] cell_rows(rows@)[j]).len() == size,
    ensures
        r@ == stones_in(cell_rows(rows@), size as int),
        forall|j: int| 0 <= j < r@.len() ==> rules::on_board(size as int, (#[trigger] r@[j]).0 as int),
{
    let ghost all = cell_rows(rows@);
    let mut out: Vec<(Point, Color)> = Vec::new();
    assert(size * size <= 361) by (nonlinear_arith)
        requires
            size <= 19,
    ;
    let n: usize = size * size;
    let mut k: usize = 0;
    while k < n
        invariant
            k <= n,
            2 <= size <= 19,
            n == size * size,
            rows.len() == size,
            all == cell_rows(rows@),
            forall|j: int| 0 <= j < size ==> (#[trigger] all[j]).len() == size,
            out@ == stones_upto(all, size as int, k as nat),
            forall|j: int|
                0 <= j < out@.len() ==> rules::on_board(
                    size as int,
                    (#[trigger] out@[j]).0 as int,
                ),
        decreases n - k,
    {
        let i: usize = k / size;
        let x: usize = k % size;
        proof {
            crate::board::lemma_points_on_board(size as int, k as int);
            assert(all[i as int] == rows@[i as int]@);
            let y = size - 1 - i;
            laws::law_points_and_coordinates_are_inverse(size as int, 0, x as int, y as int);
        }
        let pt: Point = ((size - 1 - i + 1) * 21 + (x + 1)) as Point;
        match rows[i][x] {
            Cell::Black => {
                out.push((pt, Color::Black));
            },
            Cell::White => {
                out.push((pt, Color::White));
            },
            _ => {},
        }
        k += 1;
    }
    out
}

/// Sets up the stones one after the other.
pub fn place_stones(board: &mut Board, stones: &Vec<(Point, Color)>)
    requires
        old(board)@.wf(),
        forall|j: int|
            0 <= j < stones@.len() ==> rules::on_board(
                old(board)@.size,
                (#[trigger] stones@[j]).0 as int,
            ),
    ensures
        final(board)@ == set_up(old(board)@, stones@),
        final(board)@.wf(),
        final(board)@.size == old(board)@.size,
{
    let mut i: usize = 0;
    assert(stones@.take(0) =~= Seq::<(Point, Color)>::empty());
    while i < stones.len()
        invariant
            i <= stones.len(),
            board@ == set_up(old(board)@, stones@.take(i as int)),
            board@.wf(),
            board@.size == old(board)@.size,
            forall|j: int|
                0 <= j < stones@.len() ==> rules::on_board(
                    old(board)@.size,
                    (#[trigger] stones@[j]).0 as int,
                ),
        decreases stones.len() - i,
    {
        let (pt, colour) = stones[i];
        proof {
            assert(rules::on_board(old(board)@.size, stones@[i as int].0 as int));
            assert(stones@.take(i + 1).drop_last() =~= stones@.take(i as int));
        }
        board.setup_stone(pt, colour);
        i += 1;
    }
    assert(stones@.take(i as int) =~= stones@);
}

/// The points of those stones that are not on the board.
pub fn missing_stones(board: &Board, stones: &Vec<(Point, Color)>) -> (r: Vec<Point>)
    requires
        board@.wf(),
        forall|j: int|
            0 <= j < stones@.len() ==> rules::on_board(
                board@.size,
                (#[trigger] stones@[j]).0 as int,
            ),
    ensures
        r@ == missing(board@.cells, stones@),
        forall|j: int| 0 <= j < r@.len() ==> rules::on_board(board@.size, #[trigger] r@[j] as int),
{
    let mut out: Vec<Point> = Vec::new();
    let mut i: usize = 0;
    assert(stones@.take(0) =~= Seq::<(Point, Color)>::empty());
    while i < stones.len()
        invariant
            i <= stones.len(),
            board@.wf(),
            out@ == missing(board@.cells, stones@.take(i as int)),
            forall|j: int|
                0 <= j < out@.len() ==> rules::on_board(board@.size, #[trigger] out@[j] as int),
            forall|j: int|
                0 <= j < stones@.len() ==> rules::on_board(
                    board@.size,
                    (#[trigger] stones@[j]).0 as int,
                ),
        decreases stones.len() - i,
    {
        let (pt, colour) = stones[i];
        proof {
            assert(rules::on_board(board@.size, stones@[i as int].0 as int));
            assert(stones@.take(i + 1).drop_last() =~= stones@.take(i as int));
        }
        if board.cell(pt) != colour.cell() {
            out.push(pt);
        }
        i += 1;
    }
    assert(stones@.take(i as int) =~= stones@);
    out
}

/// The handicap points of a board: corners first, then sides, with the centre
/// filling each odd count from five on.
pub open spec fn handicap_layout(size: usize, stones: usize) -> Seq<(usize, usize)> {
    let edge = if size >= 13 {
        3usize
    } else {
        2usize
    };
    let far = (size - 1 - edge) as usize;
    let mid = (size / 2) as usize;
    let corners = seq![(edge, edge), (far, far), (edge, far), (far, edge)];
    let sides = seq![(edge, mid), (far, mid), (mid, edge), (mid, far)];
    let n_corners = if stones < 4 {
        stones as int
    } else {
        4
    };
    let n_sides = if stones >= 8 {
        4int
    } else if stones >= 6 {
        2
    } else {
        0
    };
    corners.take(n_corners) + sides.take(n_sides) + if stones >= 5 && stones % 2 == 1 {
        seq![(mid, mid)]
    } else {
        Seq::empty()
    }
}

/// Why a board of this size cannot take so many handicap stones, if it cannot.
pub open spec fn handicap_error(size: usize, stones: usize) -> Option<Seq<char>> {
    let board = "a "@ + text::decimal(size as nat) + "x"@ + text::decimal(size as nat);
    if !(2 <= stones <= 9) {
        Some("handicap is 2 to 9 stones"@)
    } else if size < 7 {
        Some(board + " board has no handicap points"@)
    } else if stones > 4 && size % 2 == 0 {
        Some(board + " board has no centre point, so at most 4 stones"@)
    } else {
        None
    }
}

/// The conventional handicap points for a board of this size, in the order the
/// stones go down: two corners, then the other two, then the sides, with the
/// centre filling each odd count. Even boards and boards under 7 have no centre
/// or no star points, so they stop at four.
pub fn handicap_points(size: usize, stones: usize) -> (r: Result<Vec<(usize, usize)>, String>)
    ensures
        match handicap_error(size, stones) {
            Some(why) => r matches Err(e) && e@ == why,
            None => r matches Ok(points) && points@ == handicap_layout(size, stones),
        },
{
    if !(2 <= stones && stones <= 9) {
        return Err("handicap is 2 to 9 stones".to_owned());
    }
    if size < 7 {
        let mut out: String = board_text(size);
        out.append(" board has no handicap points");
        return Err(out);
    }
    let edge: usize = if size >= 13 {
        3
    } else {
        2
    };
    let far: usize = size - 1 - edge;
    let mid: usize = size / 2;
    let has_centre: bool = size % 2 == 1;
    if stones > 4 && !has_centre {
        let mut out: String = board_text(size);
        out.append(" board has no centre point, so at most 4 stones");
        return Err(out);
    }
    let mut out: Vec<(usize, usize)> = Vec::new();
    out.push((edge, edge));
    out.push((far, far));
    if stones >= 3 {
        out.push((edge, far));
    }
    if stones >= 4 {
        out.push((far, edge));
    }
    if stones >= 6 {
        out.push((edge, mid));
        out.push((far, mid));
    }
    if stones >= 8 {
        out.push((mid, edge));
        out.push((mid, far));
    }
    if stones >= 5 && stones % 2 == 1 {
        out.push((mid, mid));
    }
    assert(out@ =~= handicap_layout(size, stones));
    Ok(out)
}

fn board_text(size: usize) -> (r: String)
    ensures
        r@ == "a "@ + text::decimal(size as nat) + "x"@ + text::decimal(size as nat),
{
    let mut out: String = "a ".to_owned();
    text::push_number(&mut out, size as u64);
    out.append("x");
    text::push_number(&mut out, size as u64);
    out
}

/// Handicap points are on the board.
pub proof fn lemma_handicap_inside(size: usize, stones: usize)
    requires
        handicap_error(size, stones) is None,
    ensures
        forall|i: int|
            0 <= i < handicap_layout(size, stones).len() ==> (
            #[trigger] handicap_layout(size, stones)[i]).0 < size && handicap_layout(
                size,
                stones,
            )[i].1 < size,
{
}

/// Handicap stones go on as many different star points as there are stones.
pub proof fn law_handicap_points_are_star_points(size: usize, stones: usize, i: int, j: int)
    requires
        handicap_error(size, stones) is None,
        0 <= i < j < stones,
    ensures
        ({
            let points = handicap_layout(size, stones);
            &&& points.len() == stones
            &&& points[i] != points[j]
            &&& star(size as int, points[i].0 as int, points[i].1 as int)
            &&& star(size as int, points[j].0 as int, points[j].1 as int)
        }),
{
}

/// Where each of the handicap stones goes.
proof fn lemma_layout(size: usize, stones: usize, i: int)
    requires
        handicap_error(size, stones) is None,
        0 <= i < stones,
    ensures
        handicap_layout(size, stones).len() == stones,
        ({
            let edge: int = if size >= 13 {
                3
            } else {
                2
            };
            let far = size - 1 - edge;
            let mid = size as int / 2;
            let (x, y) = handicap_layout(size, stones)[i];
            if stones >= 5 && stones % 2 == 1 && i == stones - 1 {
                x == mid && y == mid
            } else {
                &&& i == 0 ==> x == edge && y == edge
                &&& i == 1 ==> x == far && y == far
                &&& i == 2 ==> x == edge && y == far
                &&& i == 3 ==> x == far && y == edge
                &&& i == 4 ==> x == edge && y == mid
                &&& i == 5 ==> x == far && y == mid
                &&& i == 6 ==> x == mid && y == edge
                &&& i == 7 ==> x == mid && y == far
            }
        }),
{
}

/// Are the two points each other's place after half a turn of the board?
pub open spec fn opposite(size: int, p: (usize, usize), q: (usize, usize)) -> bool {
    p.0 + q.0 == size - 1 && p.1 + q.1 == size - 1
}

/// Handicap stones favour no side of the board: but for three of them, each stands
/// opposite another, or in the centre. Two or three stand in corners, and one stands in
/// the centre exactly if there are five, seven or nine.
#[verifier::rlimit(40)]
pub proof fn law_handicap_stones_are_balanced(size: usize, stones: usize)
    requires
        handicap_error(size, stones) is None,
    ensures
        ({
            let points = handicap_layout(size, stones);
            &&& points.len() == stones
            &&& opposite(size as int, points[0], points[1])
            &&& stones != 3 ==> forall|i: int|
                0 <= i < points.len() ==> exists|j: int|
                    0 <= j < points.len() && opposite(
                        size as int,
                        #[trigger] points[i],
                        #[trigger] points[j],
                    )
            &&& forall|i: int|
                0 <= i < points.len() ==> (opposite(
                    size as int,
                    #[trigger] points[i],
                    points[i],
                ) <==> i == stones - 1 && (stones == 5 || stones == 7 || stones == 9))
            &&& forall|i: int|
                0 <= i < points.len() && i < 4 ==> (#[trigger] points[i]).0 * 2 != size - 1
                    && points[i].1 * 2 != size - 1
        }),
{
    let points = handicap_layout(size, stones);
    lemma_layout(size, stones, 0);
    lemma_layout(size, stones, 1);
    assert forall|i: int| 0 <= i < points.len() implies (opposite(
        size as int,
        #[trigger] points[i],
        points[i],
    ) <==> i == stones - 1 && (stones == 5 || stones == 7 || stones == 9)) && (i < 4
        ==> points[i].0 * 2 != size - 1 && points[i].1 * 2 != size - 1) by {
        lemma_layout(size, stones, i);
    }
    if stones != 3 {
        assert forall|i: int| 0 <= i < points.len() implies exists|j: int|
            0 <= j < points.len() && opposite(
                size as int,
                #[trigger] points[i],
                #[trigger] points[j],
            ) by {
            let j = if stones >= 5 && stones % 2 == 1 && i == stones - 1 {
                i
            } else if i % 2 == 0 {
                i + 1
            } else {
                i - 1
            };
            lemma_layout(size, stones, i);
            lemma_layout(size, stones, j);
            assert(opposite(size as int, points[i], points[j]));
        }
    }
}

} // verus!
