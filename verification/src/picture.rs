//! What a diagram shows: every point where its name says it is.

use vstd::prelude::*;

use crate::board::{Cell, Color, Move, Point, Position};
use crate::coords;
use crate::rules;
use crate::text;

verus! {

/// How wide the row numbers of a board are.
pub open spec fn number_width(size: int) -> int {
    if size >= 10 {
        2
    } else {
        1
    }
}

proof fn lemma_number_len(n: nat)
    requires
        1 <= n <= 19,
    ensures
        text::decimal(n).len() == if n >= 10 {
            2int
        } else {
            1
        },
{
    reveal_with_fuel(text::decimal, 3);
}

proof fn lemma_label(size: int, n: nat)
    requires
        2 <= size <= 19,
        1 <= n <= size,
    ensures
        ({
            let w = number_width(size);
            let d = text::decimal(n);
            let l = coords::label(size, n);
            &&& l.len() == w
            &&& d.len() <= w
            &&& forall|i: int| 0 <= i < w - d.len() ==> #[trigger] l[i] == ' '
            &&& l.subrange(w - d.len(), w) == d
        }),
{
    lemma_number_len(n);
    let w = number_width(size);
    let d = text::decimal(n);
    let l = coords::label(size, n);
    assert(l.subrange(w - d.len(), w) =~= d);
}

/// A row only grows: what has been drawn of it stays.
proof fn lemma_row_prefix(pos: Position, marks: Seq<Point>, y: int, n: nat, m: nat)
    requires
        n <= m,
    ensures
        coords::row_upto(pos, marks, y, n).len() <= coords::row_upto(pos, marks, y, m).len(),
        coords::row_upto(pos, marks, y, m).take(
            coords::row_upto(pos, marks, y, n).len() as int,
        ) == coords::row_upto(pos, marks, y, n),
    decreases m,
{
    let part = coords::row_upto(pos, marks, y, n);
    let whole = coords::row_upto(pos, marks, y, m);
    if n < m {
        lemma_row_prefix(pos, marks, y, n, (m - 1) as nat);
        let less = coords::row_upto(pos, marks, y, (m - 1) as nat);
        assert(whole.take(less.len() as int) =~= less);
        assert(whole.take(part.len() as int) =~= less.take(part.len() as int));
    } else {
        assert(whole.take(part.len() as int) =~= part);
    }
}

/// The row of a diagram is labelled at both ends with the row number in the names of
/// the points on it: for every point, the line that shows it starts and ends, blanks
/// aside, with the digits that follow the column letter in its name.
#[verifier::rlimit(40)]
pub proof fn law_rows_are_labelled_by_name(pos: Position, marks: Seq<Point>, pt: Point)
    requires
        pos.wf(),
        pos.on_board(pt as int),
    ensures
        ({
            let w = number_width(pos.size);
            let d = coords::move_name(Move::Play(pt)).skip(1);
            let line = coords::diagram_lines(pos, marks)[pos.size - (pt / 21 - 1)];
            &&& coords::diagram_lines(pos, marks).len() == pos.size + 2
            &&& line.len() > w + d.len()
            &&& forall|i: int| 0 <= i < w - d.len() ==> #[trigger] line[i] == ' '
            &&& line.subrange(w - d.len(), w) == d
            &&& line[w] == ' ' || line[w] == '('
            &&& line.subrange(line.len() - d.len(), line.len() as int) == d
            &&& line[line.len() - d.len() - 1] == ' ' || line[line.len() - d.len() - 1] == ')'
        }),
{
    let size = pos.size;
    let y = pt / 21 - 1;
    let w = number_width(size);
    let name = coords::move_name(Move::Play(pt));
    let d = text::decimal((y + 1) as nat);
    assert(name.skip(1) =~= d);
    let line = coords::row_text(pos, marks, y);
    assert(line == coords::diagram_lines(pos, marks)[size - y]);
    let label = coords::label(size, (y + 1) as nat);
    lemma_label(size, (y + 1) as nat);
    lemma_number_len((y + 1) as nat);
    lemma_row_prefix(pos, marks, y, 0, size as nat);
    lemma_row_prefix(pos, marks, y, 1, size as nat);
    let row = coords::row_upto(pos, marks, y, size as nat);
    let first = coords::row_upto(pos, marks, y, 1);
    assert(coords::row_upto(pos, marks, y, 0) == label);
    assert(first == label + coords::gap(false, coords::is_marked(marks, 0, y)) + seq![
        coords::glyph(pos, marks, 0, y),
    ]);
    assert(row.take(w) == label);
    assert(row[w] == row.take(first.len() as int)[w]);
    assert forall|i: int| 0 <= i < w implies #[trigger] line[i] == label[i] by {
        assert(row.take(w)[i] == row[i]);
    }
    assert(line.subrange(w - d.len(), w) =~= label.subrange(w - d.len(), w));
    let end = coords::gap(coords::is_marked(marks, size - 1, y), false);
    assert(line == row + end + label);
    assert(line.subrange(line.len() - d.len(), line.len() as int) =~= label.subrange(
        w - d.len(),
        w,
    ));
    if d.len() < w {
        assert(line[line.len() - d.len() - 1] == label[0]);
    } else {
        assert(line[line.len() - d.len() - 1] == end[0]);
    }
}

/// Where nothing is marked, or one point is, each point takes up two characters.
proof fn lemma_row_len(pos: Position, marks: Seq<Point>, y: int, n: nat)
    requires
        2 <= pos.size <= 19,
        0 <= y < pos.size,
        n <= pos.size,
        marks.len() <= 1,
    ensures
        coords::row_upto(pos, marks, y, n).len() == number_width(pos.size) + 2 * n,
    decreases n,
{
    if n == 0 {
        lemma_label(pos.size, (y + 1) as nat);
    } else {
        lemma_row_len(pos, marks, y, (n - 1) as nat);
        if n > 1 && coords::is_marked(marks, n - 2, y) && coords::is_marked(marks, n - 1, y) {
            let one = rules::point_at(n - 2, y) as Point;
            let other = rules::point_at(n - 1, y) as Point;
            let i = choose|i: int| 0 <= i < marks.len() && marks[i] == one;
            let j = choose|j: int| 0 <= j < marks.len() && marks[j] == other;
            assert(one == other);
        }
    }
}

proof fn lemma_letters(n: nat, x: int)
    requires
        0 <= x < n,
    ensures
        coords::letters_upto(n).len() == 2 * n,
        coords::letters_upto(n)[2 * x] == coords::letter(x),
    decreases n,
{
    if x < n - 1 {
        lemma_letters((n - 1) as nat, x);
    } else if n > 1 {
        lemma_letters((n - 1) as nat, 0);
    } else {
        assert(coords::letters_upto(0).len() == 0);
    }
}

/// A diagram lines up: the character for a point stands straight below and above the
/// letter of its name in the two lines of column letters. It is `X` exactly for a black
/// stone and `O` exactly for a white one; and a point that is marked stands in brackets.
#[verifier::rlimit(40)]
pub proof fn law_columns_stand_under_their_letters(pos: Position, marks: Seq<Point>, pt: Point)
    requires
        pos.wf(),
        pos.on_board(pt as int),
        marks.len() <= 1,
    ensures
        ({
            let lines = coords::diagram_lines(pos, marks);
            let line = lines[pos.size - (pt / 21 - 1)];
            let at = number_width(pos.size) + 1 + 2 * (pt % 21 - 1);
            let letter = coords::move_name(Move::Play(pt))[0];
            &&& 0 < at < line.len() - 1
            &&& at < lines[0].len()
            &&& lines[0][at] == letter
            &&& lines[pos.size + 1] == lines[0]
            &&& line[at] == 'X' <==> pos.cells[pt as int] == Cell::Black
            &&& line[at] == 'O' <==> pos.cells[pt as int] == Cell::White
            &&& marks.contains(pt) ==> line[at - 1] == '(' && line[at + 1] == ')'
            &&& marks.contains(pt) && pos.cells[pt as int] == Cell::Empty ==> line[at] == '*'
            &&& !marks.contains(pt) ==> line[at - 1] != '(' && line[at + 1] != ')'
        }),
{
    let size = pos.size;
    let x = pt % 21 - 1;
    let y = pt / 21 - 1;
    let w = number_width(size);
    let at = w + 1 + 2 * x;
    assert(rules::point_at(x, y) == pt);
    let row = coords::row_upto(pos, marks, y, size as nat);
    let line = coords::row_text(pos, marks, y);
    assert(line == coords::diagram_lines(pos, marks)[size - y]);
    lemma_row_len(pos, marks, y, x as nat);
    lemma_row_len(pos, marks, y, (x + 1) as nat);
    lemma_row_len(pos, marks, y, size as nat);
    lemma_row_prefix(pos, marks, y, (x + 1) as nat, size as nat);
    let here = coords::row_upto(pos, marks, y, (x + 1) as nat);
    let before = coords::row_upto(pos, marks, y, x as nat);
    let gap = coords::gap(x > 0 && coords::is_marked(marks, x - 1, y), coords::is_marked(marks, x, y));
    assert(here == before + gap + seq![coords::glyph(pos, marks, x, y)]);
    assert(here[at] == coords::glyph(pos, marks, x, y));
    assert(row.take(here.len() as int)[at] == row[at]);
    assert(row.take(here.len() as int)[at - 1] == row[at - 1]);
    assert(line[at] == row[at]);
    assert(here[at - 1] == gap[0]);
    lemma_letters(size as nat, x);
    assert(coords::header(size)[at] == coords::letter(x));
    if x + 1 < size {
        lemma_row_len(pos, marks, y, (x + 2) as nat);
        lemma_row_prefix(pos, marks, y, (x + 2) as nat, size as nat);
        let next = coords::row_upto(pos, marks, y, (x + 2) as nat);
        let after = coords::gap(
            coords::is_marked(marks, x, y),
            coords::is_marked(marks, x + 1, y),
        );
        assert(next == here + after + seq![coords::glyph(pos, marks, x + 1, y)]);
        assert(next[at + 1] == after[0]);
        assert(row.take(next.len() as int)[at + 1] == row[at + 1]);
    } else {
        let after = coords::gap(coords::is_marked(marks, x, y), false);
        assert(line[at + 1] == after[0]);
    }
    if marks.contains(pt) && x + 1 < size && coords::is_marked(marks, x + 1, y) {
        let other = rules::point_at(x + 1, y) as Point;
        let i = choose|i: int| 0 <= i < marks.len() && marks[i] == pt;
        let j = choose|j: int| 0 <= j < marks.len() && marks[j] == other;
        assert(other == pt);
    }
    if marks.contains(pt) && x > 0 && coords::is_marked(marks, x - 1, y) {
        let other = rules::point_at(x - 1, y) as Point;
        let i = choose|i: int| 0 <= i < marks.len() && marks[i] == pt;
        let j = choose|j: int| 0 <= j < marks.len() && marks[j] == other;
        assert(other == pt);
    }
    assert((pos.cells[pt as int] != Cell::Border) <==> rules::on_board(size, pt as int));
}

/// A point is named by its column and its row, counted from the lower left. The letters
/// go from A up, without I, and the rows from one up: on a board the lower left corner
/// is A1, a step to the right is the next letter, and a step up is the next number.
pub proof fn law_names_count_from_the_lower_left(size: int, x: int, y: int)
    requires
        2 <= size <= 19,
        0 <= x < size,
        0 <= y < size,
    ensures
        ({
            let pt = (21 * (y + 1) + (x + 1)) as Point;
            let name = coords::move_name(Move::Play(pt));
            &&& name.len() >= 2
            &&& text::number(name.skip(1)) == Some((y + 1) as nat)
            &&& 'A' <= name[0] <= 'T' && name[0] != 'I'
            &&& x == 0 ==> name[0] == 'A'
            &&& x == 7 ==> name[0] == 'H'
            &&& x == 8 ==> name[0] == 'J'
            &&& x > 0 && x != 8 ==> name[0] as int == coords::move_name(
                Move::Play((21 * (y + 1) + x) as Point),
            )[0] as int + 1
            &&& rules::point_at(x, y) == pt
        }),
{
    let pt = (21 * (y + 1) + (x + 1)) as Point;
    let name = coords::move_name(Move::Play(pt));
    assert(pt % 21 == x + 1 && pt / 21 == y + 1);
    let d = text::decimal((y + 1) as nat);
    assert(name.skip(1) =~= d);
    text::law_number_round_trip((y + 1) as nat);
    text::lemma_decimal((y + 1) as nat);
    if x > 0 {
        let before = (21 * (y + 1) + x) as Point;
        assert(before % 21 == x && before / 21 == y + 1);
    }
}

/// What the characters of a diagram stand for: `X`, `x`, `#`, `B` and `b` are black
/// stones, `O`, `o`, `W` and `w` white ones, and no other character is a stone.
pub proof fn law_stones_have_their_characters(c: char)
    ensures
        coords::glyph_of(c) == coords::Glyph::Point(Cell::Black) <==> seq!['X', 'x', '#', 'B', 'b'].contains(
            c,
        ),
        coords::glyph_of(c) == coords::Glyph::Point(Cell::White) <==> seq!['O', 'o', 'W', 'w'].contains(
            c,
        ),
        text::is_digit(c) || c == ' ' || c == '(' || c == ')' ==> coords::glyph_of(c)
            == coords::Glyph::Skip,
        'A' == c || 'C' <= c <= 'H' || 'J' <= c <= 'N' || 'P' <= c <= 'T' ==> coords::glyph_of(c)
            == coords::Glyph::Foreign,
{
    let black = seq!['X', 'x', '#', 'B', 'b'];
    let white = seq!['O', 'o', 'W', 'w'];
    assert(black[0] == 'X' && black[1] == 'x' && black[2] == '#' && black[3] == 'B' && black[4]
        == 'b');
    assert(white[0] == 'O' && white[1] == 'o' && white[2] == 'W' && white[3] == 'w');
}

/// A row is read character by character: what two texts show side by side is what each
/// of them shows, one after the other.
pub proof fn law_rows_are_read_character_by_character(a: Seq<char>, b: Seq<char>)
    ensures
        coords::row_cells(a + b) == coords::row_cells(a) + coords::row_cells(b),
        b.len() == 1 ==> coords::row_cells(b) == match coords::glyph_of(b[0]) {
            coords::Glyph::Point(cell) => seq![cell],
            _ => Seq::empty(),
        },
    decreases b.len(),
{
    let whole = a + b;
    if b.len() == 0 {
        assert(whole =~= a);
        assert(coords::row_cells(whole) =~= coords::row_cells(a) + coords::row_cells(b));
    } else {
        let less = b.drop_last();
        assert(whole.drop_last() =~= a + less);
        law_rows_are_read_character_by_character(a, less);
        assert(coords::row_cells(whole) =~= coords::row_cells(a) + coords::row_cells(b));
        if b.len() == 1 {
            assert(coords::row_cells(less) =~= Seq::empty());
            assert(coords::row_cells(b) =~= match coords::glyph_of(b[0]) {
                coords::Glyph::Point(cell) => seq![cell],
                _ => Seq::empty(),
            });
        }
    }
}

/// Star points lie the same way from every side of the board: mirroring it or turning
/// it takes them to each other. In each corner there is one, on the third line of small
/// boards and on the fourth of large ones; the others lie midway between those, so only
/// odd boards have them; and boards under seven have none at all.
pub proof fn law_star_points_are_symmetric(size: int, x: int, y: int)
    requires
        2 <= size <= 19,
        0 <= x < size,
        0 <= y < size,
    ensures
        coords::star(size, x, y) == coords::star(size, y, x),
        coords::star(size, x, y) == coords::star(size, size - 1 - x, y),
        size < 7 ==> !coords::star(size, x, y),
        size >= 7 && 2 * x < size - 1 && 2 * y < size - 1 ==> (coords::star(size, x, y) <==> x == y
            && x == if size >= 13 {
            3int
        } else {
            2
        }),
        size >= 7 && 2 * x == size - 1 ==> coords::star(size, x, x),
        size % 2 == 0 ==> !(2 * x == size - 1),
{
}

/// A vertex that is read names the point that bears its name: its letter, in either
/// case, is that of the point's column, and the number after it that of its row. What
/// names no point of the board is not read as one, nor is anything that starts with I.
#[verifier::rlimit(40)]
pub proof fn law_vertices_are_read_by_name(size: int, s: Seq<char>)
    requires
        2 <= size <= 19,
    ensures
        ({
            let t = text::trim(s);
            match coords::named_move(size, s) {
                Some(Move::Play(pt)) => {
                    let name = coords::move_name(Move::Play(pt));
                    &&& rules::on_board(size, pt as int)
                    &&& text::lower(t[0]) == text::lower(name[0])
                    &&& text::number(text::trim(t.skip(1))) == text::number(name.skip(1))
                },
                Some(Move::Pass) => text::lowered(t) == "pass"@,
                Some(Move::Resign) => text::lowered(t) == "resign"@,
                None => text::lowered(t) != "pass"@ && text::lowered(t) != "resign"@,
            }
        }),
        text::trim(s).len() > 0 && text::lower(text::trim(s)[0]) == 'i' ==> coords::named_move(size, s)
            is None,
        ({
            let t = text::trim(s);
            t.len() >= 2 && !(text::lowered(t) == "pass"@) && !(text::lowered(t) == "resign"@)
                ==> (text::number(text::trim(t.skip(1))) matches Some(row) ==> row < 1 || row > size
                ==> coords::named_move(size, s) is None)
        }),
{
    let t = text::trim(s);
    reveal_strlit("pass");
    reveal_strlit("resign");
    if text::trim(s).len() > 0 && text::lower(t[0]) == 'i' {
        assert(text::lowered(t)[0] == 'i');
    }
    if let Some(Move::Play(pt)) = coords::named_move(size, s) {
        let row = text::number(text::trim(t.skip(1)))->0;
        let x = coords::column(t[0])->0;
        assert(pt == 21 * row + x + 1);
        assert(pt / 21 == row && pt % 21 == x + 1);
        let name = coords::move_name(Move::Play(pt));
        assert(name.skip(1) =~= text::decimal(row));
        text::law_number_round_trip(row);
    }
}

/// The stones that are named as left off are exactly those that were shown and are not
/// on the board, in the order in which they were shown.
pub proof fn law_missing_stones_are_named(cells: Seq<Cell>, stones: Seq<(Point, Color)>)
    ensures
        forall|i: int|
            0 <= i < stones.len() && cells[(#[trigger] stones[i]).0 as int]
                != stones[i].1.spec_cell() ==> coords::missing(cells, stones).contains(stones[i].0),
        forall|k: int|
            0 <= k < coords::missing(cells, stones).len() ==> exists|i: int|
                0 <= i < stones.len() && (#[trigger] stones[i]).0 == #[trigger] coords::missing(
                    cells,
                    stones,
                )[k] && cells[stones[i].0 as int] != stones[i].1.spec_cell(),
    decreases stones.len(),
{
    if stones.len() > 0 {
        let less = stones.drop_last();
        law_missing_stones_are_named(cells, less);
        let before = coords::missing(cells, less);
        let all = coords::missing(cells, stones);
        let (pt, c) = stones.last();
        assert(stones[stones.len() - 1] == stones.last());
        assert forall|i: int|
            0 <= i < stones.len() && cells[(#[trigger] stones[i]).0 as int]
                != stones[i].1.spec_cell() implies all.contains(stones[i].0) by {
            if i < less.len() {
                assert(less[i] == stones[i]);
                let k = choose|k: int| 0 <= k < before.len() && before[k] == stones[i].0;
                assert(all[k] == stones[i].0);
            } else {
                assert(all[before.len() as int] == pt);
            }
        }
        assert forall|k: int| 0 <= k < all.len() implies exists|i: int|
            0 <= i < stones.len() && (#[trigger] stones[i]).0 == #[trigger] all[k]
                && cells[stones[i].0 as int] != stones[i].1.spec_cell() by {
            if k < before.len() {
                assert(all[k] == before[k]);
                let i = choose|i: int|
                    0 <= i < less.len() && (#[trigger] less[i]).0 == before[k]
                        && cells[less[i].0 as int] != less[i].1.spec_cell();
                assert(stones[i] == less[i]);
            } else {
                assert(stones[stones.len() - 1].0 == all[k]);
            }
        }
    }
}

} // verus!
