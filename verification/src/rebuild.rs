//! Boards that are written out and read back: setting up the stones of a board
//! rebuilds it, and so does reading its diagram.

use vstd::prelude::*;

use crate::board;
use crate::board::{Cell, Color, Point, Position};
use crate::coords;
use crate::coords::Glyph;
use crate::laws;
use crate::rules;
use crate::text;

verus! {

/// The row `y` of a board, from left to right.
pub open spec fn row_of(pos: Position, y: int) -> Seq<Cell> {
    Seq::new(pos.size as nat, |x: int| pos.cells[rules::point_at(x, y)])
}

/// The rows of a board, the highest first.
pub open spec fn rows_of(pos: Position) -> Seq<Seq<Cell>> {
    Seq::new(pos.size as nat, |i: int| row_of(pos, pos.size - 1 - i))
}

/// The `k`-th point in reading order: top row first, from left to right.
pub open spec fn read_point(size: int, k: int) -> int {
    rules::point_at(k % size, size - 1 - k / size)
}

/// Is `q` one of the first `n` points in reading order?
pub open spec fn read_upto(size: int, n: int, q: int) -> bool {
    exists|k: int| 0 <= k < n && #[trigger] read_point(size, k) == q
}

proof fn lemma_read_point(size: int, k: int)
    requires
        2 <= size <= 19,
        0 <= k < size * size,
    ensures
        rules::on_board(size, read_point(size, k)),
        0 <= k % size < size,
        0 <= k / size < size,
        read_point(size, k) % 21 == k % size + 1,
        read_point(size, k) / 21 == size - k / size,
{
    board::lemma_points_on_board(size, k);
    laws::law_points_and_coordinates_are_inverse(size, 0, k % size, size - 1 - k / size);
}

proof fn lemma_read_distinct(size: int, j: int, k: int)
    requires
        2 <= size <= 19,
        0 <= j < size * size,
        0 <= k < size * size,
        read_point(size, j) == read_point(size, k),
    ensures
        j == k,
{
    lemma_read_point(size, j);
    lemma_read_point(size, k);
    assert(j == k) by (nonlinear_arith)
        requires
            size > 0,
            j % size == k % size,
            j / size == k / size,
    ;
}

proof fn lemma_read_cover(size: int, q: int)
    requires
        2 <= size <= 19,
        rules::on_board(size, q),
    ensures
        read_upto(size, size * size, q),
{
    let x = q % 21 - 1;
    let i = size - q / 21;
    board::lemma_row_major(size, x, i);
    let k = i * size + x;
    assert(read_point(size, k) == q);
}

/// What the empty board is: framed, and with no stones.
pub proof fn lemma_empty_board(size: int)
    requires
        2 <= size <= 19,
    ensures
        Position::empty(size).wf(),
{
    let cells = Position::empty(size).cells;
    crate::zobrist::lemma_no_stones_hash(cells, 441);
}

/// Setting up the stones of the first `n` points of a board leaves those stones
/// on the board and nothing else.
proof fn lemma_set_up(pos: Position, n: nat)
    requires
        pos.wf(),
        rules::all_breathe(pos.cells),
        n <= pos.size * pos.size,
    ensures
        ({
            let built = coords::set_up(
                Position::empty(pos.size),
                coords::stones_upto(rows_of(pos), pos.size, n),
            );
            &&& built.wf()
            &&& built.size == pos.size
            &&& forall|q: int|
                0 <= q < 441 ==> #[trigger] built.cells[q] == if read_upto(pos.size, n as int, q) {
                    pos.cells[q]
                } else {
                    Position::empty(pos.size).cells[q]
                }
        }),
        forall|j: int|
            0 <= j < coords::stones_upto(rows_of(pos), pos.size, n).len() ==> {
                let (pt, c) = #[trigger] coords::stones_upto(rows_of(pos), pos.size, n)[j];
                pos.cells[pt as int] == c.spec_cell()
            },
    decreases n,
{
    let size = pos.size;
    let rows = rows_of(pos);
    let start = Position::empty(size);
    lemma_empty_board(size);
    if n > 0 {
        let k = n - 1;
        lemma_set_up(pos, k as nat);
        lemma_read_point(size, k);
        let before = coords::stones_upto(rows, size, k as nat);
        let now = coords::stones_upto(rows, size, n);
        let part = coords::set_up(start, before);
        let p = read_point(size, k);
        let i = k / size;
        let x = k % size;
        assert(rows[i] == row_of(pos, size - 1 - i));
        assert(rows[i][x] == pos.cells[p]);
        assert((pos.cells[p] != Cell::Border) <==> rules::on_board(size, p));
        assert(!read_upto(size, k, p)) by {
            if read_upto(size, k, p) {
                let j = choose|j: int| 0 <= j < k && #[trigger] read_point(size, j) == p;
                lemma_read_distinct(size, j, k);
            }
        }
        assert(part.cells[p] == Cell::Empty);
        assert(laws::part_of(part.cells, pos.cells)) by {
            assert forall|q: int|
                0 <= q < part.cells.len() && #[trigger] part.cells[q] != pos.cells[q] implies part.cells[q]
                == Cell::Empty && rules::is_stone(pos.cells[q]) by {
                assert((pos.cells[q] != Cell::Border) <==> rules::on_board(size, q));
            }
        }
        let built = coords::set_up(start, now);
        if rules::is_stone(pos.cells[p]) {
            let c = if pos.cells[p] == Cell::Black {
                Color::Black
            } else {
                Color::White
            };
            assert(now == before.push((p as Point, c)));
            assert(now.drop_last() =~= before);
            laws::law_missing_stone_may_be_played(size, pos.cells, part.cells, p, c);
            rules::lemma_after_own(size, part.cells, p, c);
            assert(built == part.after_setup(p, c));
        } else {
            assert(now == before);
        }
        assert forall|q: int| 0 <= q < 441 implies #[trigger] built.cells[q] == if read_upto(
            size,
            n as int,
            q,
        ) {
            pos.cells[q]
        } else {
            start.cells[q]
        } by {
            if q == p {
                assert(read_point(size, k) == q);
                assert(read_upto(size, n as int, q));
            } else {
                assert(built.cells[q] == part.cells[q]);
                if read_upto(size, n as int, q) {
                    let j = choose|j: int| 0 <= j < n && #[trigger] read_point(size, j) == q;
                    assert(j < k);
                    assert(read_upto(size, k, q));
                }
                if read_upto(size, k, q) {
                    let j = choose|j: int| 0 <= j < k && #[trigger] read_point(size, j) == q;
                    assert(0 <= j < n && read_point(size, j) == q);
                }
            }
        }
        assert forall|j: int| 0 <= j < now.len() implies {
            let (pt, c) = #[trigger] now[j];
            pos.cells[pt as int] == c.spec_cell()
        } by {
            if j < before.len() {
                assert(now[j] == before[j]);
            }
        }
    }
}

proof fn lemma_none_missing(cells: Seq<Cell>, stones: Seq<(Point, Color)>)
    requires
        forall|j: int|
            0 <= j < stones.len() ==> {
                let (pt, c) = #[trigger] stones[j];
                cells[pt as int] == c.spec_cell()
            },
    ensures
        coords::missing(cells, stones) == Seq::<Point>::empty(),
    decreases stones.len(),
{
    if stones.len() > 0 {
        let before = stones.drop_last();
        assert forall|j: int| 0 <= j < before.len() implies {
            let (pt, c) = #[trigger] before[j];
            cells[pt as int] == c.spec_cell()
        } by {
            assert(before[j] == stones[j]);
        }
        lemma_none_missing(cells, before);
        let (pt, c) = stones[stones.len() - 1];
    }
}

/// Setting up the stones of a board on which every chain has a liberty, row by
/// row, rebuilds the board, and loses none of them on the way.
pub proof fn law_setting_up_rebuilds_position(pos: Position)
    requires
        pos.wf(),
        rules::all_breathe(pos.cells),
    ensures
        ({
            let stones = coords::stones_in(rows_of(pos), pos.size);
            let built = coords::set_up(Position::empty(pos.size), stones);
            &&& built.wf()
            &&& built.size == pos.size
            &&& built.cells == pos.cells
            &&& built.hash == pos.hash
            &&& coords::missing(pos.cells, stones) == Seq::<Point>::empty()
        }),
{
    let size = pos.size;
    let n = size * size;
    assert(0 <= n) by (nonlinear_arith)
        requires
            n == size * size,
    ;
    lemma_set_up(pos, n as nat);
    let stones = coords::stones_in(rows_of(pos), size);
    let built = coords::set_up(Position::empty(size), stones);
    assert forall|q: int| 0 <= q < 441 implies built.cells[q] == pos.cells[q] by {
        assert((pos.cells[q] != Cell::Border) <==> rules::on_board(size, q));
        if rules::on_board(size, q) {
            lemma_read_cover(size, q);
        } else {
            assert(!read_upto(size, n, q)) by {
                if read_upto(size, n, q) {
                    let k = choose|k: int| 0 <= k < n && #[trigger] read_point(size, k) == q;
                    lemma_read_point(size, k);
                }
            }
        }
    }
    assert(built.cells =~= pos.cells);
    lemma_none_missing(pos.cells, stones);
}

/// Is there nothing on this piece of a line but decoration?
spec fn plain(s: Seq<char>) -> bool {
    forall|i: int| 0 <= i < s.len() ==> coords::glyph_of(#[trigger] s[i]) == Glyph::Skip
}

/// Is there nothing on this piece of a line that ends one?
spec fn unbroken(s: Seq<char>) -> bool {
    forall|i: int| 0 <= i < s.len() ==> #[trigger] s[i] != '\n' && s[i] != '\r'
}

/// Is there nothing foreign to a row of stones on this piece of a line?
spec fn native(s: Seq<char>) -> bool {
    forall|i: int| 0 <= i < s.len() ==> coords::glyph_of(#[trigger] s[i]) != Glyph::Foreign
}

proof fn lemma_row_cells_concat(a: Seq<char>, b: Seq<char>)
    ensures
        coords::row_cells(a + b) == coords::row_cells(a) + coords::row_cells(b),
    decreases b.len(),
{
    if b.len() == 0 {
        assert(a + b =~= a);
        assert(coords::row_cells(a) + coords::row_cells(b) =~= coords::row_cells(a));
    } else {
        assert((a + b).drop_last() =~= a + b.drop_last());
        lemma_row_cells_concat(a, b.drop_last());
        if let Glyph::Point(cell) = coords::glyph_of(b.last()) {
            assert(coords::row_cells(a) + coords::row_cells(b.drop_last()).push(cell) =~= (
            coords::row_cells(a) + coords::row_cells(b.drop_last())).push(cell));
        }
    }
}

proof fn lemma_row_cells_plain(s: Seq<char>)
    requires
        plain(s),
    ensures
        coords::row_cells(s) == Seq::<Cell>::empty(),
    decreases s.len(),
{
    if s.len() > 0 {
        assert(coords::glyph_of(s[s.len() - 1]) == Glyph::Skip);
        assert forall|i: int| 0 <= i < s.drop_last().len() implies coords::glyph_of(
            #[trigger] s.drop_last()[i],
        ) == Glyph::Skip by {
            assert(s.drop_last()[i] == s[i]);
        }
        lemma_row_cells_plain(s.drop_last());
    }
}

proof fn lemma_label(size: int, n: nat)
    ensures
        plain(coords::label(size, n)),
        unbroken(coords::label(size, n)),
{
    text::lemma_decimal(n);
    let d = text::decimal(n);
    let s = coords::label(size, n);
    assert forall|i: int| 0 <= i < s.len() implies coords::glyph_of(#[trigger] s[i]) == Glyph::Skip
        && s[i] != '\n' && s[i] != '\r' by {
        if size >= 10 && n < 10 {
            if i > 0 {
                assert(s[i] == d[i - 1]);
                assert(text::is_digit(d[i - 1]));
            }
        } else {
            assert(text::is_digit(d[i]));
        }
    }
}

proof fn lemma_row_upto(pos: Position, marks: Seq<Point>, y: int, n: nat)
    requires
        pos.wf(),
        0 <= y < pos.size,
        n <= pos.size,
    ensures
        ({
            let s = coords::row_upto(pos, marks, y, n);
            &&& native(s)
            &&& unbroken(s)
            &&& coords::row_cells(s) == row_of(pos, y).take(n as int)
        }),
    decreases n,
{
    let s = coords::row_upto(pos, marks, y, n);
    if n == 0 {
        lemma_label(pos.size, (y + 1) as nat);
        lemma_row_cells_plain(s);
        assert(row_of(pos, y).take(0) =~= Seq::<Cell>::empty());
    } else {
        let x = n - 1;
        lemma_row_upto(pos, marks, y, x as nat);
        let before = coords::row_upto(pos, marks, y, x as nat);
        let gap = coords::gap(
            n > 1 && coords::is_marked(marks, n - 2, y),
            coords::is_marked(marks, x, y),
        );
        let shown = coords::glyph(pos, marks, x, y);
        let p = rules::point_at(x, y);
        laws::law_points_and_coordinates_are_inverse(pos.size, 0, x, y);
        assert((pos.cells[p] != Cell::Border) <==> rules::on_board(pos.size, p));
        assert(coords::glyph_of(shown) == Glyph::Point(pos.cells[p]));
        assert(s =~= before + gap + seq![shown]);
        assert(plain(gap));
        lemma_row_cells_plain(gap);
        lemma_row_cells_concat(before, gap);
        lemma_row_cells_concat(before + gap, seq![shown]);
        assert(seq![shown].drop_last() =~= Seq::<char>::empty());
        assert(seq![shown].last() == shown);
        assert(coords::row_cells(Seq::<char>::empty()) =~= Seq::<Cell>::empty());
        assert(coords::row_cells(seq![shown]) =~= seq![pos.cells[p]]);
        assert(coords::row_cells(s) =~= row_of(pos, y).take(n as int));
        assert forall|i: int| 0 <= i < s.len() implies coords::glyph_of(#[trigger] s[i])
            != Glyph::Foreign && s[i] != '\n' && s[i] != '\r' by {
            if i < before.len() {
                assert(s[i] == before[i]);
            } else if i < before.len() + gap.len() {
                assert(s[i] == gap[i - before.len()]);
            } else {
                assert(s[i] == shown);
            }
        }
    }
}

/// A row of a diagram reads back as the row of the board.
proof fn lemma_row_text(pos: Position, marks: Seq<Point>, y: int)
    requires
        pos.wf(),
        0 <= y < pos.size,
    ensures
        coords::is_row(coords::row_text(pos, marks, y)),
        coords::row_cells(coords::row_text(pos, marks, y)) == row_of(pos, y),
        text::is_line(coords::row_text(pos, marks, y)),
{
    let s = coords::row_text(pos, marks, y);
    let body = coords::row_upto(pos, marks, y, pos.size as nat);
    let gap = coords::gap(coords::is_marked(marks, pos.size - 1, y), false);
    let label = coords::label(pos.size, (y + 1) as nat);
    lemma_row_upto(pos, marks, y, pos.size as nat);
    lemma_label(pos.size, (y + 1) as nat);
    lemma_row_cells_plain(label);
    assert(plain(gap));
    lemma_row_cells_plain(gap);
    assert(s =~= body + gap + label);
    lemma_row_cells_concat(body, gap);
    lemma_row_cells_concat(body + gap, label);
    assert(row_of(pos, y).take(pos.size) =~= row_of(pos, y));
    assert(coords::row_cells(s) =~= row_of(pos, y));
    assert forall|i: int| 0 <= i < s.len() implies coords::glyph_of(#[trigger] s[i])
        != Glyph::Foreign && s[i] != '\n' && s[i] != '\r' by {
        if i < body.len() {
            assert(s[i] == body[i]);
        } else if i < body.len() + gap.len() {
            assert(s[i] == gap[i - body.len()]);
        } else {
            assert(s[i] == label[i - body.len() - gap.len()]);
        }
    }
    if s.len() > 0 {
        assert(s[s.len() - 1] != '\r');
    }
}

proof fn lemma_letters(n: nat)
    requires
        n <= 19,
    ensures
        unbroken(coords::letters_upto(n)),
        n > 0 ==> coords::letters_upto(n).len() > 0 && coords::letters_upto(n)[0] == 'A',
    decreases n,
{
    if n > 0 {
        lemma_letters((n - 1) as nat);
        let before = coords::letters_upto((n - 1) as nat);
        let s = coords::letters_upto(n);
        assert forall|i: int| 0 <= i < s.len() implies #[trigger] s[i] != '\n' && s[i] != '\r' by {
            if i < before.len() {
                assert(s[i] == before[i]);
            }
        }
        if n > 1 {
            assert(s[0] == before[0]);
        }
    }
}

/// The line of column letters is no row of stones: there is no A among the
/// glyphs.
proof fn lemma_header(size: int)
    requires
        2 <= size <= 19,
    ensures
        !coords::is_row(coords::header(size)),
        text::is_line(coords::header(size)),
{
    lemma_letters(size as nat);
    let s = coords::header(size);
    let m = coords::margin(size);
    let letters = coords::letters_upto(size as nat);
    assert(s[m.len() as int] == letters[0]);
    assert(coords::glyph_of(s[m.len() as int]) == Glyph::Foreign);
    assert forall|i: int| 0 <= i < s.len() implies #[trigger] s[i] != '\n' && s[i] != '\r' by {
        if i >= m.len() {
            assert(s[i] == letters[i - m.len()]);
        }
    }
    assert(s[s.len() - 1] != '\r');
}

proof fn lemma_stone_rows(pos: Position, marks: Seq<Point>, k: int)
    requires
        pos.wf(),
        0 <= k <= pos.size + 2,
    ensures
        coords::stone_rows(coords::diagram_lines(pos, marks).take(k)) == rows_of(pos).take(
            if k == 0 {
                0
            } else if k <= pos.size + 1 {
                k - 1
            } else {
                pos.size
            },
        ),
    decreases k,
{
    let all = coords::diagram_lines(pos, marks);
    let rows = rows_of(pos);
    if k == 0 {
        assert(coords::stone_rows(all.take(0)) =~= rows.take(0));
    } else {
        lemma_stone_rows(pos, marks, k - 1);
        assert(all.take(k).drop_last() =~= all.take(k - 1));
        lemma_header(pos.size);
        if 1 < k <= pos.size + 1 {
            let y = pos.size - (k - 1);
            lemma_row_text(pos, marks, y);
            assert(all.take(k).last() == coords::row_text(pos, marks, y));
            assert(rows[k - 2] == row_of(pos, y));
            assert(rows.take(k - 2).push(rows[k - 2]) =~= rows.take(k - 1));
        }
    }
}

/// A diagram survives a round trip: reading the diagram of a board on which every
/// chain has a liberty, whatever is marked on it, gives the board's stones back,
/// with their hash, and drops none of them. The same holds of what it lays out.
pub proof fn law_diagram_round_trip(pos: Position, marks: Seq<Point>)
    requires
        pos.wf(),
        rules::all_breathe(pos.cells),
    ensures
        ({
            let rows = coords::stone_rows(
                text::lines(text::unlines(coords::diagram_lines(pos, marks))),
            );
            let read = coords::shown_position(rows, pos.size);
            &&& coords::diagram_error(rows, pos.size) is None
            &&& read.size == pos.size
            &&& read.cells == pos.cells
            &&& read.hash == pos.hash
            &&& coords::laid_out(rows, pos.size).cells == pos.cells
            &&& coords::laid_out(rows, pos.size).hash == pos.hash
            &&& coords::missing(read.cells, coords::stones_in(rows, pos.size)) == Seq::<
                Point,
            >::empty()
        }),
{
    let size = pos.size;
    let all = coords::diagram_lines(pos, marks);
    assert forall|i: int| 0 <= i < all.len() implies text::is_line(#[trigger] all[i]) by {
        lemma_header(size);
        if 0 < i <= size {
            lemma_row_text(pos, marks, size - i);
        }
    }
    text::law_lines_round_trip(all);
    lemma_stone_rows(pos, marks, size + 2);
    assert(all.take(size + 2) =~= all);
    assert(rows_of(pos).take(size) =~= rows_of(pos));
    let rows = rows_of(pos);
    assert forall|j: int| 0 <= j < rows.len() implies (#[trigger] rows[j]).len() == size by {
        assert(rows[j] == row_of(pos, size - 1 - j));
    }
    coords::lemma_fits(rows, size, 0, rows.len());
    law_setting_up_rebuilds_position(pos);
    let built = coords::set_up(Position::empty(size), coords::stones_in(rows, size));
    laws::law_settled_boards_breathe(built);
}

/// Whatever rows are read, the board that comes out is one on which every chain has a
/// liberty, so that its own diagram gives it back.
pub proof fn law_read_boards_survive_a_diagram(
    rows: Seq<Seq<Cell>>,
    size: int,
    marks: Seq<Point>,
)
    requires
        2 <= size <= 19,
    ensures
        ({
            let pos = coords::shown_position(rows, size);
            let again = coords::stone_rows(
                text::lines(text::unlines(coords::diagram_lines(pos, marks))),
            );
            &&& rules::all_breathe(pos.cells)
            &&& coords::shown_position(again, size).cells == pos.cells
            &&& coords::shown_position(again, size).hash == pos.hash
        }),
{
    coords::lemma_only_these(size, coords::stones_in(rows, size));
    laws::law_settled_boards_breathe(coords::laid_out(rows, size));
    law_diagram_round_trip(coords::shown_position(rows, size), marks);
}

} // verus!
