//! The board and the rules: stones, chains, captures, ko, and area scoring.

use vstd::prelude::*;

use crate::area;
use crate::bits::Bits;
use crate::laws;
use crate::rules;
use crate::zobrist;

verus! {

pub const MAX_SIZE: usize = 19;

pub const STRIDE: usize = 21;

pub const NUM_CELLS: usize = 441;

/// What stands on a cell of the padded board.
#[derive(Clone, Copy, PartialEq, Eq, Debug, Structural)]
pub enum Cell {
    Empty,
    Black,
    White,
    Border,
}

#[derive(Clone, Copy, PartialEq, Eq, Debug, Hash, Structural)]
pub enum Color {
    Black,
    White,
}

impl Color {
    pub open spec fn spec_other(self) -> Color {
        match self {
            Color::Black => Color::White,
            Color::White => Color::Black,
        }
    }

    pub open spec fn spec_cell(self) -> Cell {
        match self {
            Color::Black => Cell::Black,
            Color::White => Cell::White,
        }
    }

    pub open spec fn spec_index(self) -> int {
        match self {
            Color::Black => 0,
            Color::White => 1,
        }
    }

    #[inline]
    pub fn other(self) -> (r: Color)
        ensures
            r == self.spec_other(),
    {
        match self {
            Color::Black => Color::White,
            Color::White => Color::Black,
        }
    }

    #[inline]
    pub fn cell(self) -> (r: Cell)
        ensures
            r == self.spec_cell(),
    {
        match self {
            Color::Black => Cell::Black,
            Color::White => Cell::White,
        }
    }

    #[inline]
    pub fn index(self) -> (r: usize)
        ensures
            r == self.spec_index(),
    {
        match self {
            Color::Black => 0,
            Color::White => 1,
        }
    }

    pub fn name(self) -> (r: &'static str)
        ensures
            r@ == (match self {
                Color::Black => "black"@,
                Color::White => "white"@,
            }),
    {
        match self {
            Color::Black => "black",
            Color::White => "white",
        }
    }
}

/// An index into the padded cell array, not an (x, y) pair.
pub type Point = u16;

#[derive(Clone, Copy, PartialEq, Eq, Debug, Structural)]
pub enum Move {
    Play(Point),
    Pass,
    Resign,
}

/// Why the rules refuse a move.
#[derive(Clone, Copy, PartialEq, Eq, Debug, Structural)]
pub enum Illegal {
    NotEmpty,
    Suicide,
    Ko,
    OffBoard,
}

/// What a board says: the stones, whose turn it is, and what the next move needs
/// to know of the moves before it.
pub struct Position {
    pub size: int,
    /// The contents of every cell, border ring included.
    pub cells: Seq<Cell>,
    pub to_move: Color,
    /// The one point the side to move may not retake.
    pub ko: Option<Point>,
    /// Stones Black has taken.
    pub black_prisoners: int,
    /// Stones White has taken.
    pub white_prisoners: int,
    /// The positional hash.
    pub hash: u64,
    /// How many passes in a row ended the game so far.
    pub passes: int,
    pub last_move: Option<Move>,
}

impl Position {
    /// The empty board of this size, Black to move.
    pub open spec fn empty(size: int) -> Position {
        Position {
            size,
            cells: Seq::new(
                441,
                |p: int|
                    if rules::on_board(size, p) {
                        Cell::Empty
                    } else {
                        Cell::Border
                    },
            ),
            to_move: Color::Black,
            ko: None,
            black_prisoners: 0,
            white_prisoners: 0,
            hash: 0,
            passes: 0,
            last_move: None,
        }
    }

    pub open spec fn prisoners(self, c: Color) -> int {
        match c {
            Color::Black => self.black_prisoners,
            Color::White => self.white_prisoners,
        }
    }

    /// The board is framed and the hash is that of the stones on it.
    pub open spec fn wf(self) -> bool {
        &&& rules::framed(self.size, self.cells)
        &&& self.hash == zobrist::position_hash(self.cells)
    }

    pub open spec fn on_board(self, p: int) -> bool {
        rules::on_board(self.size, p)
    }

    /// The same board with other stones on it.
    pub open spec fn with_cells(self, cells: Seq<Cell>) -> Position {
        Position { cells, hash: zobrist::position_hash(cells), ..self }
    }

    /// The position with a stone of colour `c` set up on `pt`: captures are
    /// resolved, nobody has moved, and there is no ko.
    pub open spec fn after_setup(self, pt: int, c: Color) -> Position {
        if self.on_board(pt) {
            Position { ko: None, ..self.with_cells(rules::after(self.cells, pt, c)) }
        } else {
            self
        }
    }

    /// Why `c` may not play at `pt`, if it may not: the first of the reasons off
    /// the board, not empty, ko and suicide that holds.
    pub open spec fn illegal(self, pt: Point, c: Color) -> Option<Illegal> {
        if !self.on_board(pt as int) {
            Some(Illegal::OffBoard)
        } else if self.cells[pt as int] != Cell::Empty {
            Some(Illegal::NotEmpty)
        } else if self.ko == Some(pt) {
            Some(Illegal::Ko)
        } else if rules::suicide(self.cells, pt as int, c) {
            Some(Illegal::Suicide)
        } else {
            None
        }
    }

    /// The ko point that the side to move leaves by playing at `pt`. A ko is a
    /// one-for-one exchange: one stone taken by a lone stone that itself has a
    /// single liberty.
    pub open spec fn ko_after(self, pt: Point) -> Option<Point> {
        let taken = rules::prisoners_of(self.cells, pt as int, self.to_move);
        let cells = rules::after(self.cells, pt as int, self.to_move);
        if taken.len() == 1 && rules::chain(cells, pt as int).len() == 1 && rules::liberties(
            cells,
            pt as int,
        ).len() == 1 {
            Some(taken.choose() as Point)
        } else {
            None
        }
    }

    /// The position after the side to move has played at `pt`.
    pub open spec fn after_stone(self, pt: Point) -> Position {
        let c = self.to_move;
        let taken = rules::prisoners_of(self.cells, pt as int, c).len() as int;
        Position {
            to_move: c.spec_other(),
            ko: self.ko_after(pt),
            black_prisoners: self.black_prisoners + if c == Color::Black {
                taken
            } else {
                0
            },
            white_prisoners: self.white_prisoners + if c == Color::White {
                taken
            } else {
                0
            },
            passes: 0,
            last_move: Some(Move::Play(pt)),
            ..self.with_cells(rules::after(self.cells, pt as int, c))
        }
    }

    /// The position after the side to move has passed or resigned.
    pub open spec fn after_pass(self, mv: Move) -> Position {
        Position {
            to_move: self.to_move.spec_other(),
            ko: None,
            passes: self.passes + 1,
            last_move: Some(mv),
            ..self
        }
    }

    /// The outcome of the side to move making the move `mv`.
    pub open spec fn outcome(self, mv: Move) -> Result<Position, Illegal> {
        match mv {
            Move::Play(pt) => match self.illegal(pt, self.to_move) {
                Some(why) => Err(why),
                None => Ok(self.after_stone(pt)),
            },
            _ => Ok(self.after_pass(mv)),
        }
    }

    /// Is every point of the board taken?
    pub open spec fn is_full(self) -> bool {
        forall|p: int| #[trigger] self.on_board(p) ==> self.cells[p] != Cell::Empty
    }

    /// The position without the chains that have no liberty.
    pub open spec fn settled(self) -> Position {
        self.with_cells(rules::lift(self.cells, rules::breathless(self.cells)))
    }

    /// The points where `c` may play without filling one of its own eyes, in
    /// row-major order, and `Pass` last.
    pub open spec fn candidate_moves(self, c: Color) -> Seq<Move> {
        points_of(self.size).filter(
            |pt: Point| area::candidate(self.cells, self.ko, c, pt),
        ).map_values(|pt: Point| Move::Play(pt)).push(Move::Pass)
    }

    /// The counters have room for whatever move comes next.
    pub open spec fn roomy(self) -> bool {
        &&& laws::stones(self.cells).len() + self.black_prisoners + self.white_prisoners < u32::MAX
        &&& self.passes < u32::MAX
    }

    /// The move names a cell, and the counters have room for what it adds.
    pub open spec fn has_room(self, mv: Move) -> bool {
        &&& mv matches Move::Play(pt) ==> pt < NUM_CELLS
        &&& self.outcome(mv) matches Ok(next) ==> {
            &&& next.passes <= u32::MAX
            &&& next.black_prisoners <= u32::MAX
            &&& next.white_prisoners <= u32::MAX
        }
    }
}

/// The points of a board of this size, in row-major order from the bottom-left.
pub open spec fn points_of(size: int) -> Seq<Point> {
    Seq::new((size * size) as nat, |k: int| rules::point_at(k % size, k / size) as Point)
}

/// A board in a ring of border cells, so that neighbour lookups need no bounds
/// check, and small enough to copy once per playout.
#[derive(Clone, Copy)]
pub struct Board {
    cells: [Cell; 441],
    size: u8,
    to_move: Color,
    ko: Option<Point>,
    prisoners: [u32; 2],
    hash: u64,
    passes: u32,
    last_move: Option<Move>,
}

impl View for Board {
    type V = Position;

    closed spec fn view(&self) -> Position {
        Position {
            size: self.size as int,
            cells: self.cells@,
            to_move: self.to_move,
            ko: self.ko,
            black_prisoners: self.prisoners@[0] as int,
            white_prisoners: self.prisoners@[1] as int,
            hash: self.hash,
            passes: self.passes as int,
            last_move: self.last_move,
        }
    }
}

/// What a flood fill found before it stopped.
struct Flood {
    stones: Bits,
    libs: Bits,
    n_stones: u32,
    n_libs: u32,
}

impl Board {
    /// Every number of a board fits its machine type.
    pub proof fn lemma_ranges(&self)
        ensures
            0 <= self@.black_prisoners <= u32::MAX,
            0 <= self@.white_prisoners <= u32::MAX,
            0 <= self@.passes <= u32::MAX,
    {
    }

    /// An empty board, Black to move.
    pub fn new(size: usize) -> (b: Board)
        requires
            2 <= size <= MAX_SIZE,
        ensures
            b@.wf(),
            b@ == Position::empty(size as int),
    {
        let mut cells: [Cell; 441] = [Cell::Border; 441];
        let mut i: usize = 0;
        while i < 441
            invariant
                2 <= size <= 19,
                i <= 441,
                forall|p: int|
                    0 <= p < i ==> (#[trigger] cells@[p]) == if rules::on_board(size as int, p) {
                        Cell::Empty
                    } else {
                        Cell::Border
                    },
            decreases 441 - i,
        {
            let x: usize = i % 21;
            let y: usize = i / 21;
            if 1 <= x && x <= size && 1 <= y && y <= size {
                cells[i] = Cell::Empty;
            } else {
                cells[i] = Cell::Border;
            }
            i += 1;
        }
        proof {
            zobrist::lemma_no_stones_hash(cells@, 441);
            assert(cells@ =~= Position::empty(size as int).cells);
        }
        Board {
            cells,
            size: size as u8,
            to_move: Color::Black,
            ko: None,
            prisoners: [0, 0],
            hash: 0,
            passes: 0,
            last_move: None,
        }
    }

    pub fn size(&self) -> (r: usize)
        ensures
            r == self@.size,
    {
        self.size as usize
    }

    #[inline]
    pub fn to_move(&self) -> (r: Color)
        ensures
            r == self@.to_move,
    {
        self.to_move
    }

    /// Says whose turn it is. The ko point belongs to the turn and goes with it.
    pub fn set_to_move(&mut self, c: Color)
        ensures
            final(self)@ == (Position { to_move: c, ko: None, ..old(self)@ }),
    {
        self.to_move = c;
        self.ko = None;
    }

    /// Restores the turn and the ko point together on a board that was rebuilt
    /// from stones alone. A position has no memory of the capture that made it,
    /// so anything that reconstructs one has to be told. Both at once, because
    /// setting the turn alone clears the ko.
    pub fn resume(&mut self, c: Color, ko: Option<Point>)
        ensures
            final(self)@ == (Position { to_move: c, ko, ..old(self)@ }),
    {
        self.set_to_move(c);
        self.ko = ko;
    }

    /// Positional hash: stones only, so it identifies a position and not a turn.
    pub fn hash(&self) -> (r: u64)
        ensures
            r == self@.hash,
            self@.wf() ==> r == zobrist::position_hash(self@.cells),
    {
        self.hash
    }

    /// How many stones `c` has taken.
    #[inline]
    pub fn prisoners(&self, c: Color) -> (r: u32)
        ensures
            r == self@.prisoners(c),
    {
        self.prisoners[c.index()]
    }

    #[inline]
    pub fn passes(&self) -> (r: u32)
        ensures
            r == self@.passes,
    {
        self.passes
    }

    #[inline]
    pub fn last_move(&self) -> (r: Option<Move>)
        ensures
            r == self@.last_move,
    {
        self.last_move
    }

    pub fn ko_point(&self) -> (r: Option<Point>)
        ensures
            r == self@.ko,
    {
        self.ko
    }

    /// The point `x` columns from the left and `y` rows from the bottom.
    pub fn point(&self, x: usize, y: usize) -> (r: Point)
        requires
            rules::point_at(x as int, y as int) <= usize::MAX,
        ensures
            r == rules::point_at(x as int, y as int) % 0x1_0000,
    {
        let i: usize = (y + 1) * 21 + (x + 1);
        assert(i as u16 == i % 0x1_0000) by (bit_vector);
        i as Point
    }

    /// (x, y) with x rightwards and y upwards from the bottom-left corner.
    pub fn coords(&self, pt: Point) -> (r: (usize, usize))
        requires
            pt % 21 >= 1,
            pt / 21 >= 1,
        ensures
            r.0 == pt % 21 - 1,
            r.1 == pt / 21 - 1,
    {
        let i: usize = pt as usize;
        (i % 21 - 1, i / 21 - 1)
    }

    #[inline]
    pub fn cell(&self, pt: Point) -> (r: Cell)
        requires
            pt < NUM_CELLS,
        ensures
            r == self@.cells[pt as int],
    {
        self.cells[pt as usize]
    }

    #[inline]
    pub fn is_on_board(&self, pt: Point) -> (r: bool)
        requires
            pt < NUM_CELLS,
        ensures
            r == (self@.cells[pt as int] != Cell::Border),
            self@.wf() ==> r == self@.on_board(pt as int),
    {
        self.cells[pt as usize] != Cell::Border
    }

    /// How many stones are on the board.
    pub fn stone_count(&self) -> (r: u32)
        requires
            self@.wf(),
        ensures
            r == laws::stones(self@.cells).len(),
    {
        let mut n: u32 = 0;
        let mut i: usize = 0;
        let ghost mut found = Set::<int>::empty();
        while i < 441
            invariant
                i <= 441,
                self@.cells == self.cells@,
                found.finite(),
                found.len() == n,
                n <= i,
                forall|p: int| #[trigger]
                    found.contains(p) <==> 0 <= p < i && rules::is_stone(self.cells@[p]),
            decreases 441 - i,
        {
            let c: Cell = self.cells[i];
            if c == Cell::Black || c == Cell::White {
                proof {
                    found = found.insert(i as int);
                }
                n += 1;
            }
            i += 1;
        }
        assert(found =~= laws::stones(self@.cells));
        n
    }

    /// Every point of the board, in row-major order from the bottom-left.
    pub fn points(&self) -> (r: Vec<Point>)
        requires
            self@.wf(),
        ensures
            r@ == points_of(self@.size),
    {
        let size: usize = self.size();
        let mut out: Vec<Point> = Vec::with_capacity(361);
        let mut y: usize = 0;
        while y < size
            invariant
                2 <= size <= 19,
                y <= size,
                out@ =~= points_of(size as int).take(y * size),
            decreases size - y,
        {
            let mut x: usize = 0;
            proof {
                assert(0 <= y * size && y * size + size <= size * size) by (nonlinear_arith)
                    requires
                        0 <= y < size,
                ;
            }
            while x < size
                invariant
                    2 <= size <= 19,
                    y < size,
                    x <= size,
                    out@ =~= points_of(size as int).take(y * size + x),
                    0 <= y * size,
                    y * size + size <= size * size,
                decreases size - x,
            {
                out.push(((y + 1) * 21 + (x + 1)) as Point);
                proof {
                    lemma_row_major(size as int, x as int, y as int);
                }
                x += 1;
            }
            y += 1;
            proof {
                assert((y - 1) * size + size == y * size) by (nonlinear_arith);
            }
        }
        out
    }

    /// The four orthogonal neighbours of a point.
    #[inline]
    fn neighbours(pt: Point) -> (r: [Point; 4])
        requires
            22 <= pt <= 418,
        ensures
            r@[0] == pt - 1,
            r@[1] == pt + 1,
            r@[2] == pt - 21,
            r@[3] == pt + 21,
    {
        [pt - 1, pt + 1, pt - 21, pt + 21]
    }

    /// The four diagonal neighbours of a point.
    #[inline]
    fn diagonals(pt: Point) -> (r: [Point; 4])
        requires
            22 <= pt <= 418,
        ensures
            r@[0] == pt - 22,
            r@[1] == pt - 20,
            r@[2] == pt + 20,
            r@[3] == pt + 22,
    {
        [pt - 22, pt - 20, pt + 20, pt + 22]
    }

    /// Fills the chain at `pt` and its liberties, stopping as soon as `cap`
    /// liberties have been found.
    fn flood(&self, pt: Point, cap: u32) -> (f: Flood)
        requires
            self@.wf(),
            self@.on_board(pt as int),
            cap >= 1,
        ensures
            f.n_libs == f.libs@.len(),
            f.n_libs <= cap,
            self@.cells[pt as int] == Cell::Empty ==> f.n_libs == 0,
            forall|q: int| #[trigger] f.libs@.contains(q) ==> rules::liberty(self@.cells, pt as int, q),
            f.n_libs < cap ==> {
                &&& f.stones@ == rules::chain(self@.cells, pt as int)
                &&& f.n_stones == f.stones@.len()
                &&& self@.cells[pt as int] != Cell::Empty ==> f.libs@ == rules::liberties(
                    self@.cells,
                    pt as int,
                )
            },
    {
        let ghost cells = self@.cells;
        let ghost p0 = pt as int;
        let who: Cell = self.cells[pt as usize];
        let mut seen: Bits = Bits::new();
        let mut pending: Bits = Bits::new();
        let mut libs: Bits = Bits::new();
        seen.set(pt as usize);
        pending.set(pt as usize);
        let mut n_stones: u32 = 0;
        let mut n_libs: u32 = 0;
        let ghost mut done = Set::<int>::empty();
        proof {
            rules::lemma_chain_inside(self@.size, cells, p0);
            rules::lemma_connected_refl(cells, p0);
        }
        loop
            invariant
                self@.wf(),
                self@.on_board(p0),
                cells == self@.cells,
                cells == self.cells@,
                p0 == pt,
                who == cells[p0],
                cap >= 1,
                forall|q: int| #[trigger]
                    rules::connected(cells, p0, q) ==> 0 <= q < 441 && cells[q] == who,
                seen@.contains(p0),
                forall|q: int| #[trigger] seen@.contains(q) ==> rules::connected(cells, p0, q),
                forall|q: int| #[trigger]
                    seen@.contains(q) <==> done.contains(q) || pending@.contains(q),
                forall|q: int| !(#[trigger] done.contains(q) && pending@.contains(q)),
                forall|q: int, r: int|
                    done.contains(q) && #[trigger] rules::linked(cells, q, r) ==> seen@.contains(r),
                forall|q: int, r: int|
                    who != Cell::Empty && done.contains(q) && #[trigger] rules::adjacent(q, r)
                        && cells[r] == Cell::Empty ==> libs@.contains(r),
                forall|q: int| #[trigger] libs@.contains(q) ==> rules::liberty(cells, p0, q),
                who == Cell::Empty ==> n_libs == 0,
                libs@.finite(),
                done.finite(),
                n_libs == libs@.len(),
                n_libs < cap,
                n_stones == done.len(),
                n_stones <= 448,
                n_libs <= 448,
            ensures
                forall|q: int| !pending@.contains(q),
            decreases 448 - done.len(),
        {
            let next: Option<Point> = pending.take_lowest();
            let p: Point = match next {
                None => {
                    break;
                },
                Some(p) => p,
            };
            proof {
                assert(seen@.contains(p as int));
                seen.lemma_finite();
                vstd::set_lib::lemma_len_subset(done.insert(p as int), seen@);
                assert(done.insert(p as int).len() == done.len() + 1);
            }
            n_stones += 1;
            let ns: [Point; 4] = Self::neighbours(p);
            let mut k: usize = 0;
            while k < 4
                invariant
                    self@.wf(),
                    cells == self@.cells,
                    cells == self.cells@,
                    p0 == pt,
                    who == cells[p0],
                    cap >= 1,
                    forall|q: int| #[trigger]
                        rules::connected(cells, p0, q) ==> 0 <= q < 441 && cells[q] == who,
                    seen@.contains(p0),
                    rules::connected(cells, p0, p as int),
                    22 <= p <= 418,
                    ns@ == seq![(p - 1) as Point, (p + 1) as Point, (p - 21) as Point, (p
                        + 21) as Point],
                    forall|q: int| #[trigger]
                        seen@.contains(q) ==> rules::connected(cells, p0, q),
                    forall|q: int| #[trigger]
                        seen@.contains(q) <==> done.contains(q) || pending@.contains(q) || q == p,
                    forall|q: int| !(#[trigger] done.contains(q) && pending@.contains(q)),
                    !done.contains(p as int),
                    !pending@.contains(p as int),
                    forall|q: int, r: int|
                        done.contains(q) && #[trigger] rules::linked(cells, q, r)
                            ==> seen@.contains(r),
                    forall|q: int, r: int|
                        who != Cell::Empty && done.contains(q) && #[trigger] rules::adjacent(q, r)
                            && cells[r] == Cell::Empty ==> libs@.contains(r),
                    forall|q: int| #[trigger] libs@.contains(q) ==> rules::liberty(cells, p0, q),
                    forall|j: int|
                        0 <= j < k && cells[#[trigger] ns@[j] as int] == who ==> seen@.contains(
                            ns@[j] as int,
                        ),
                    forall|j: int|
                        0 <= j < k && who != Cell::Empty && cells[#[trigger] ns@[j] as int]
                            == Cell::Empty ==> libs@.contains(ns@[j] as int),
                    who == Cell::Empty ==> n_libs == 0,
                    libs@.finite(),
                    n_libs == libs@.len(),
                    n_libs < cap,
                    n_libs <= 448,
                    k <= 4,
                decreases 4 - k,
            {
                let n: Point = ns[k];
                let i: usize = n as usize;
                let c: Cell = self.cells[i];
                assert(rules::adjacent(p as int, n as int));
                if c == who {
                    if !seen.get(i) {
                        proof {
                            assert(rules::linked(cells, p as int, n as int));
                            rules::lemma_connected_step(cells, p0, p as int, n as int);
                        }
                        seen.set(i);
                        pending.set(i);
                    }
                } else if c == Cell::Empty {
                    if !libs.get(i) {
                        libs.set(i);
                        n_libs += 1;
                        proof {
                            libs.lemma_finite();
                        }
                        if n_libs >= cap {
                            return Flood { stones: seen, libs, n_stones, n_libs };
                        }
                    }
                }
                k += 1;
            }
            proof {
                let old_done = done;
                done = done.insert(p as int);
                assert forall|q: int, r: int|
                    done.contains(q) && #[trigger] rules::linked(cells, q, r) implies seen@.contains(
                    r,
                ) by {
                    if q == p {
                        assert(r == ns@[0] || r == ns@[1] || r == ns@[2] || r == ns@[3]);
                    }
                }
                assert forall|q: int, r: int|
                    who != Cell::Empty && done.contains(q) && #[trigger] rules::adjacent(q, r)
                        && cells[r] == Cell::Empty implies libs@.contains(r) by {
                    if q == p {
                        assert(r == ns@[0] || r == ns@[1] || r == ns@[2] || r == ns@[3]);
                    }
                }
            }
        }
        proof {
            assert(rules::closed(cells, seen@));
            rules::lemma_connected_within(cells, p0, seen@);
            assert(seen@ =~= rules::chain(cells, p0));
            assert(done =~= seen@);
            if who != Cell::Empty {
                assert forall|q: int| rules::liberty(cells, p0, q) implies libs@.contains(q) by {
                    let r = choose|r: int|
                        rules::connected(cells, p0, r) && #[trigger] rules::adjacent(r, q);
                    assert(seen@.contains(r));
                }
                assert(libs@ =~= rules::liberties(cells, p0));
            }
        }
        Flood { stones: seen, libs, n_stones, n_libs }
    }

    /// How many liberties has the chain at `pt`? Stops counting at `cap`, so
    /// `chain_liberties(pt, 2) == 1` means "in atari". A cap of zero counts as
    /// one.
    pub fn chain_liberties(&self, pt: Point, cap: u32) -> (r: u32)
        requires
            self@.wf(),
            pt < NUM_CELLS,
            rules::is_stone(self@.cells[pt as int]),
        ensures
            ({
                let libs = rules::liberties(self@.cells, pt as int).len();
                let most = if cap == 0 { 1 } else { cap };
                r == if libs < most { libs } else { most as nat }
            }),
    {
        let most: u32 = if cap == 0 { 1 } else { cap };
        let f = self.flood(pt, most);
        proof {
            let libs = rules::liberties(self@.cells, pt as int);
            rules::lemma_chain_finite(self@.size, self@.cells, pt as int);
            assert(f.libs@.subset_of(libs));
            vstd::set_lib::lemma_len_subset(f.libs@, libs);
        }
        f.n_libs
    }

    /// Adds the liberties of the chain at `pt` to `out`.
    fn chain_liberties_into(&self, pt: Point, out: &mut Bits)
        requires
            self@.wf(),
            pt < NUM_CELLS,
            rules::is_stone(self@.cells[pt as int]),
        ensures
            final(out)@ == old(out)@.union(rules::liberties(self@.cells, pt as int)),
    {
        let f = self.flood(pt, u32::MAX);
        proof {
            f.libs.lemma_finite();
        }
        out.add_all(&f.libs);
    }

    /// The empty neighbours of a point.
    fn open_neighbours(&self, pt: Point) -> (r: Bits)
        requires
            self@.wf(),
            self@.on_board(pt as int),
        ensures
            forall|q: int| #[trigger]
                r@.contains(q) <==> rules::adjacent(pt as int, q) && self@.cells[q] == Cell::Empty,
    {
        let ghost cells = self@.cells;
        let mut out: Bits = Bits::new();
        let ns: [Point; 4] = Self::neighbours(pt);
        let mut k: usize = 0;
        while k < 4
            invariant
                k <= 4,
                22 <= pt <= 418,
                cells == self@.cells,
                cells == self.cells@,
                ns@ == seq![(pt - 1) as Point, (pt + 1) as Point, (pt - 21) as Point, (pt
                    + 21) as Point],
                forall|q: int| #[trigger]
                    out@.contains(q) ==> rules::adjacent(pt as int, q) && cells[q] == Cell::Empty,
                forall|j: int|
                    0 <= j < k && cells[#[trigger] ns@[j] as int] == Cell::Empty ==> out@.contains(
                        ns@[j] as int,
                    ),
            decreases 4 - k,
        {
            let n: Point = ns[k];
            assert(rules::adjacent(pt as int, n as int));
            if self.cells[n as usize] == Cell::Empty {
                out.set(n as usize);
            }
            k += 1;
        }
        proof {
            assert forall|q: int| #[trigger]
                rules::adjacent(pt as int, q) && cells[q] == Cell::Empty implies out@.contains(q) by {
                assert(q == ns@[0] || q == ns@[1] || q == ns@[2] || q == ns@[3]);
            }
        }
        out
    }

    /// The one liberty of a chain in atari, or `None` if it has more or fewer.
    /// For an empty point: its one empty neighbour.
    pub fn chain_single_liberty(&self, pt: Point) -> (r: Option<Point>)
        requires
            self@.wf(),
            self@.on_board(pt as int),
        ensures
            match r {
                Some(lib) => rules::outlets(self@.cells, pt as int) == set![lib as int],
                None => rules::outlets(self@.cells, pt as int).len() != 1,
            },
    {
        let ghost outlets = rules::outlets(self@.cells, pt as int);
        let mut libs: Bits = if self.cells[pt as usize] == Cell::Empty {
            let open: Bits = self.open_neighbours(pt);
            assert(open@ =~= outlets);
            open
        } else {
            let f = self.flood(pt, 2);
            proof {
                rules::lemma_chain_finite(self@.size, self@.cells, pt as int);
                assert(f.libs@.subset_of(outlets));
                vstd::set_lib::lemma_len_subset(f.libs@, outlets);
            }
            f.libs
        };
        proof {
            libs.lemma_finite();
        }
        if libs.count(2) == 1 {
            let ghost all = libs@;
            let r: Option<Point> = libs.take_lowest();
            proof {
                let lib = r->0;
                assert(all.remove(lib as int).len() == 0);
                assert(all.remove(lib as int) =~= Set::<int>::empty());
                assert(all =~= set![lib as int]);
            }
            r
        } else {
            None
        }
    }

    /// The size of the chain at `pt`, in stones.
    pub fn chain_size(&self, pt: Point) -> (r: u32)
        requires
            self@.wf(),
            self@.on_board(pt as int),
        ensures
            r == rules::chain(self@.cells, pt as int).len(),
    {
        let f = self.flood(pt, u32::MAX);
        proof {
            f.libs.lemma_finite();
        }
        f.n_stones
    }

    /// Puts a stone on an empty point.
    #[inline]
    fn put(&mut self, pt: Point, c: Color)
        requires
            old(self)@.wf(),
            pt < NUM_CELLS,
            old(self)@.cells[pt as int] == Cell::Empty,
        ensures
            final(self)@ == old(self)@.with_cells(rules::place(old(self)@.cells, pt as int, c)),
            final(self)@.wf(),
    {
        self.cells[pt as usize] = c.cell();
        let k: u64 = zobrist::zobrist_key(c, pt as usize);
        proof {
            let before = old(self).hash;
            zobrist::lemma_position_hash_update(old(self).cells@, pt as int, c.spec_cell());
            assert(before ^ 0u64 ^ k == before ^ k) by (bit_vector);
            self.lemma_update_framed(old(self), pt as int);
        }
        self.hash = self.hash ^ k;
    }

    /// Takes a stone of colour `c` off a point.
    #[inline]
    fn clear(&mut self, pt: Point, c: Color)
        requires
            old(self)@.wf(),
            pt < NUM_CELLS,
            old(self)@.cells[pt as int] == c.spec_cell(),
        ensures
            final(self)@ == old(self)@.with_cells(old(self)@.cells.update(pt as int, Cell::Empty)),
            final(self)@.wf(),
    {
        self.cells[pt as usize] = Cell::Empty;
        let k: u64 = zobrist::zobrist_key(c, pt as usize);
        proof {
            let before = old(self).hash;
            zobrist::lemma_position_hash_update(old(self).cells@, pt as int, Cell::Empty);
            assert(before ^ k ^ 0u64 == before ^ k) by (bit_vector);
            self.lemma_update_framed(old(self), pt as int);
        }
        self.hash = self.hash ^ k;
    }

    proof fn lemma_update_framed(&self, before: &Board, p: int)
        requires
            rules::framed(before.size as int, before.cells@),
            self.size == before.size,
            0 <= p < 441,
            self.cells@ == before.cells@.update(p, self.cells@[p]),
            self.cells@[p] != Cell::Border,
            before.cells@[p] != Cell::Border,
        ensures
            rules::framed(self.size as int, self.cells@),
    {
        assert forall|q: int| 0 <= q < 441 implies ((#[trigger] self.cells@[q] != Cell::Border)
            <==> rules::on_board(self.size as int, q)) by {
            assert((before.cells@[q] != Cell::Border) <==> rules::on_board(self.size as int, q));
        }
    }

    /// Lifts the chain at `pt` off the board and returns how many stones went.
    fn remove_chain(&mut self, pt: Point) -> (r: u32)
        requires
            old(self)@.wf(),
            pt < NUM_CELLS,
            rules::is_stone(old(self)@.cells[pt as int]),
        ensures
            final(self)@ == old(self)@.with_cells(
                rules::lift(
                    old(self)@.cells,
                    rules::chain(old(self)@.cells, pt as int),
                ),
            ),
            final(self)@.wf(),
            r == rules::chain(old(self)@.cells, pt as int).len(),
    {
        let colour: Color = if self.cells[pt as usize] == Cell::Black {
            Color::Black
        } else {
            Color::White
        };
        let f = self.flood(pt, u32::MAX);
        proof {
            f.libs.lemma_finite();
        }
        let mut rest: Bits = f.stones;
        let ghost before = self@;
        let ghost all = f.stones@;
        let ghost mut gone = Set::<int>::empty();
        proof {
            rules::lemma_chain_inside(before.size, before.cells, pt as int);
            rest.lemma_finite();
            assert(rules::lift(before.cells, gone) =~= before.cells);
        }
        loop
            invariant
                before == old(self)@,
                before.wf(),
                self@.wf(),
                self@ == before.with_cells(rules::lift(before.cells, gone)),
                all == rules::chain(before.cells, pt as int),
                forall|q: int| #[trigger]
                    all.contains(q) ==> 0 <= q < 441 && before.cells[q] == colour.spec_cell(),
                forall|q: int| #[trigger] all.contains(q) <==> gone.contains(q) || rest@.contains(q),
                forall|q: int| !(#[trigger] gone.contains(q) && rest@.contains(q)),
                rest@.finite(),
            ensures
                rest@ == Set::<int>::empty(),
            decreases rest@.len(),
        {
            let next: Option<Point> = rest.take_lowest();
            let p: Point = match next {
                None => {
                    break;
                },
                Some(p) => p,
            };
            assert(all.contains(p as int));
            assert(!gone.contains(p as int));
            self.clear(p, colour);
            proof {
                let was = gone;
                gone = gone.insert(p as int);
                assert(rules::lift(before.cells, was).update(p as int, Cell::Empty)
                    =~= rules::lift(before.cells, gone));
            }
        }
        proof {
            assert(gone =~= all);
        }
        f.n_stones
    }

    /// Takes off the enemy chains around the stone of colour `c` on `pt` that
    /// have no liberty left. Returns how many stones went, and a neighbour of
    /// `pt` in the last chain that did.
    fn capture_around(&mut self, pt: Point, c: Color) -> (r: (u32, Point))
        requires
            old(self)@.wf(),
            old(self)@.on_board(pt as int),
        ensures
            final(self)@ == old(self)@.with_cells(
                rules::lift(
                    old(self)@.cells,
                    rules::captures(old(self)@.cells, pt as int, c),
                ),
            ),
            final(self)@.wf(),
            r.0 == rules::captures(old(self)@.cells, pt as int, c).len(),
            r.0 > 0 ==> rules::captures(old(self)@.cells, pt as int, c).contains(r.1 as int),
    {
        let theirs: Cell = c.other().cell();
        let ghost before = self@;
        let ghost cells = self@.cells;
        let mut taken: u32 = 0;
        let mut last: Point = 0;
        let ns: [Point; 4] = Self::neighbours(pt);
        let mut k: usize = 0;
        proof {
            assert(rules::captures_upto(cells, ns@, c, 0) =~= Set::<int>::empty());
            assert(rules::lift(cells, rules::captures_upto(cells, ns@, c, 0)) =~= cells);
        }
        while k < 4
            invariant
                k <= 4,
                before == old(self)@,
                cells == before.cells,
                before.wf(),
                22 <= pt <= 418,
                theirs == c.spec_other().spec_cell(),
                ns@ == seq![(pt - 1) as Point, (pt + 1) as Point, (pt - 21) as Point, (pt
                    + 21) as Point],
                self@.wf(),
                self@ == before.with_cells(
                    rules::lift(cells, rules::captures_upto(cells, ns@, c, k as int)),
                ),
                taken == rules::captures_upto(cells, ns@, c, k as int).len(),
                rules::captures_upto(cells, ns@, c, k as int).finite(),
                taken <= 441 * k,
                taken > 0 ==> rules::captures_upto(cells, ns@, c, k as int).contains(last as int),
            decreases 4 - k,
        {
            let n: Point = ns[k];
            let ghost was = rules::captures_upto(cells, ns@, c, k as int);
            let ghost now = self@.cells;
            proof {
                rules::lemma_captures_step(before.size, cells, ns@, c, k as int);
                rules::lemma_captures_upto(before.size, cells, ns@, c, k as int);
                rules::lemma_captures_upto(before.size, cells, ns@, c, k + 1);
                rules::lemma_chain_finite(before.size, cells, n as int);
            }
            if self.cells[n as usize] == theirs {
                let libs: u32 = self.chain_liberties(n, 1);
                let ghost libset = rules::liberties(cells, n as int);
                if libs == 0 {
                    last = n;
                    let gone: u32 = self.remove_chain(n);
                    taken += gone;
                    proof {
                        let next = rules::chain(cells, n as int);
                        assert(!rules::breathes(cells, n as int)) by {
                            if rules::breathes(cells, n as int) {
                                let l = choose|l: int| rules::liberty(cells, n as int, l);
                                assert(libset.contains(l));
                                assert(libset.len() == 0);
                                assert(libset =~= Set::<int>::empty());
                            }
                        }
                        rules::lemma_connected_refl(cells, n as int);
                        assert(rules::lift(rules::lift(cells, was), next) =~= rules::lift(
                            cells,
                            was.union(next),
                        ));
                        assert forall|q: int| !(#[trigger] was.contains(q) && next.contains(q)) by {
                            if was.contains(q) && next.contains(q) {
                                assert(rules::connected(cells, n as int, q));
                            }
                        }
                        assert(was.disjoint(next));
                        vstd::set_lib::lemma_set_disjoint_lens(was, next);
                    }
                } else {
                    proof {
                        assert(rules::breathes(cells, n as int)) by {
                            let l = libset.choose();
                            assert(libset.contains(l)) by {
                                assert(libset.len() > 0);
                            }
                            assert(rules::liberty(cells, n as int, l));
                        }
                    }
                }
            }
            k += 1;
        }
        proof {
            let all = rules::captures(cells, pt as int, c);
            let found = rules::captures_upto(cells, ns@, c, 4);
            assert forall|q: int| all.contains(q) == found.contains(q) by {
                if all.contains(q) {
                    let n = choose|n: int| #[trigger]
                        rules::adjacent(pt as int, n) && 0 <= n < cells.len() && rules::connected(
                            cells,
                            n,
                            q,
                        );
                    assert(n == ns@[0] || n == ns@[1] || n == ns@[2] || n == ns@[3]);
                }
                if found.contains(q) {
                    let j = choose|j: int|
                        0 <= j < 4 && rules::connected(cells, #[trigger] ns@[j] as int, q);
                    assert(rules::adjacent(pt as int, ns@[j] as int));
                }
            }
            assert(all =~= found);
        }
        (taken, last)
    }

    /// Would `colour` playing at `pt` be legal? Checks emptiness, the ko point
    /// and suicide, in that order, without touching the board.
    pub fn is_legal(&self, pt: Point, colour: Color) -> (r: bool)
        requires
            self@.wf(),
            pt < NUM_CELLS,
        ensures
            r == rules::legal(self@.cells, self@.ko, pt, colour),
            r == (self@.illegal(pt, colour) is None),
    {
        if self.cells[pt as usize] != Cell::Empty {
            return false;
        }
        if let Some(p) = self.ko {
            if p == pt {
                return false;
            }
        }
        let mine: Cell = colour.cell();
        let theirs: Cell = colour.other().cell();
        let ns: [Point; 4] = Self::neighbours(pt);
        let mut k: usize = 0;
        let ghost cells = self@.cells;
        proof {
            rules::lemma_suicide(self@.size, cells, pt as int, colour);
        }
        while k < 4
            invariant
                k <= 4,
                self@.wf(),
                cells == self@.cells,
                cells == self.cells@,
                22 <= pt <= 418,
                mine == colour.spec_cell(),
                theirs == colour.spec_other().spec_cell(),
                ns@ == seq![(pt - 1) as Point, (pt + 1) as Point, (pt - 21) as Point, (pt
                    + 21) as Point],
                self@.on_board(pt as int),
                cells[pt as int] == Cell::Empty,
                self@.ko != Some(pt),
                !rules::suicide(cells, pt as int, colour) <==> {
                    ||| exists|n: int| #[trigger]
                        rules::adjacent(pt as int, n) && cells[n] == Cell::Empty
                    ||| exists|n: int| #[trigger]
                        rules::friend(cells, pt as int, colour, n) && rules::liberties(
                            cells,
                            n,
                        ).len() > 1
                    ||| exists|n: int| #[trigger]
                        rules::friend(cells, pt as int, colour.spec_other(), n)
                            && rules::liberties(cells, n).len() == 1
                },
                forall|j: int|
                    0 <= j < k ==> {
                        let n = #[trigger] ns@[j] as int;
                        &&& cells[n] != Cell::Empty
                        &&& cells[n] == mine ==> rules::liberties(cells, n).len() <= 1
                        &&& cells[n] == theirs ==> rules::liberties(cells, n).len() != 1
                    },
            decreases 4 - k,
        {
            let n: Point = ns[k];
            let c: Cell = self.cells[n as usize];
            assert(rules::adjacent(pt as int, n as int));
            if c == Cell::Empty {
                // An empty neighbour is a liberty, so the stone lives.
                return true;
            }
            if c == mine {
                assert(rules::friend(cells, pt as int, colour, n as int));
                // Joining a chain that keeps a liberty of its own.
                if self.chain_liberties(n, 2) > 1 {
                    return true;
                }
            } else if c == theirs {
                assert(rules::friend(cells, pt as int, colour.spec_other(), n as int));
                // Capturing leaves the freed point as a liberty.
                if self.chain_liberties(n, 2) == 1 {
                    return true;
                }
            }
            k += 1;
        }
        proof {
            assert forall|n: int| rules::adjacent(pt as int, n) implies n == ns@[0] || n == ns@[1]
                || n == ns@[2] || n == ns@[3] by {}
        }
        false
    }

    /// Why `colour` may not play at `pt`, or `None` if it may.
    pub fn illegal_reason(&self, pt: Point, colour: Color) -> (r: Option<Illegal>)
        requires
            self@.wf(),
            pt < NUM_CELLS,
        ensures
            r == self@.illegal(pt, colour),
    {
        if !self.is_on_board(pt) {
            return Some(Illegal::OffBoard);
        }
        if self.cells[pt as usize] != Cell::Empty {
            return Some(Illegal::NotEmpty);
        }
        if let Some(p) = self.ko {
            if p == pt {
                return Some(Illegal::Ko);
            }
        }
        if !self.is_legal(pt, colour) {
            return Some(Illegal::Suicide);
        }
        None
    }

    /// Places a stone with no legality check and no turn change, for building a
    /// position that a game has already reached. Captures are still resolved.
    pub fn setup_stone(&mut self, pt: Point, colour: Color)
        requires
            old(self)@.wf(),
            pt < NUM_CELLS,
        ensures
            final(self)@ == old(self)@.after_setup(pt as int, colour),
            final(self)@.wf(),
    {
        if !self.is_on_board(pt) {
            return;
        }
        let ghost before = self@.cells;
        let c: Cell = self.cells[pt as usize];
        if c != Cell::Empty {
            self.clear(
                pt,
                if c == Cell::Black {
                    Color::Black
                } else {
                    Color::White
                },
            );
        }
        self.put(pt, colour);
        proof {
            assert(self@.cells =~= rules::place(before, pt as int, colour));
        }
        let _ = self.capture_around(pt, colour);
        self.ko = None;
    }

    /// Is every point of the board taken?
    pub fn is_full(&self) -> (r: bool)
        requires
            self@.wf(),
        ensures
            r == self@.is_full(),
    {
        let pts: Vec<Point> = self.points();
        let mut k: usize = 0;
        while k < pts.len()
            invariant
                k <= pts.len(),
                self@.wf(),
                pts@ == points_of(self@.size),
                forall|j: int| 0 <= j < k ==> self@.cells[#[trigger] pts@[j] as int] != Cell::Empty,
            decreases pts.len() - k,
        {
            proof {
                lemma_points_on_board(self@.size, k as int);
            }
            if self.cell(pts[k]) == Cell::Empty {
                assert(self@.on_board(pts@[k as int] as int));
                return false;
            }
            k += 1;
        }
        proof {
            assert forall|p: int| #[trigger] self@.on_board(p) implies self@.cells[p]
                != Cell::Empty by {
                lemma_points_cover(self@.size, p);
            }
        }
        true
    }

    /// Takes off every chain that has no liberty: such stones cannot be on a board.
    pub fn settle(&mut self)
        requires
            old(self)@.wf(),
        ensures
            final(self)@ == old(self)@.settled(),
            final(self)@.wf(),
            rules::all_breathe(final(self)@.cells),
    {
        let ghost was = self@;
        let ghost cells = was.cells;
        let pts: Vec<Point> = self.points();
        let mut gone: Bits = Bits::new();
        let mut k: usize = 0;
        while k < pts.len()
            invariant
                k <= pts.len(),
                was == self@,
                was.wf(),
                cells == was.cells,
                pts@ == points_of(was.size),
                gone@.subset_of(rules::breathless(cells)),
                forall|j: int|
                    0 <= j < k && rules::breathless(cells).contains(
                        #[trigger] pts@[j] as int,
                    ) ==> gone@.contains(pts@[j] as int),
            decreases pts.len() - k,
        {
            let pt: Point = pts[k];
            proof {
                lemma_points_on_board(was.size, k as int);
            }
            if self.cell(pt) != Cell::Empty {
                let libs: u32 = self.chain_liberties(pt, 1);
                proof {
                    rules::lemma_chain_finite(was.size, cells, pt as int);
                    let all = rules::liberties(cells, pt as int);
                    if libs == 0 {
                        assert(!rules::breathes(cells, pt as int)) by {
                            if rules::breathes(cells, pt as int) {
                                let q = choose|q: int| rules::liberty(cells, pt as int, q);
                                assert(all.contains(q));
                                assert(all.remove(q).len() + 1 == all.len());
                            }
                        }
                    } else {
                        let q = all.choose();
                        assert(all.contains(q));
                        assert(rules::liberty(cells, pt as int, q));
                    }
                }
                if libs == 0 {
                    gone.set(pt as usize);
                }
            }
            k += 1;
        }
        proof {
            assert forall|p: int| rules::breathless(cells).contains(p) implies gone@.contains(p) by {
                assert((cells[p] != Cell::Border) <==> rules::on_board(was.size, p));
                lemma_points_cover(was.size, p);
                let j = choose|j: int| 0 <= j < pts@.len() && #[trigger] pts@[j] == p;
                assert(rules::breathless(cells).contains(pts@[j] as int));
            }
            assert(gone@ =~= rules::breathless(cells));
        }
        let ghost all = gone@;
        let ghost mut done = Set::<int>::empty();
        proof {
            gone.lemma_finite();
            assert(rules::lift(cells, done) =~= cells);
        }
        loop
            invariant
                was.wf(),
                cells == was.cells,
                all == rules::breathless(cells),
                self@ == was.with_cells(rules::lift(cells, done)),
                self@.wf(),
                gone@.finite(),
                all =~= done.union(gone@),
            ensures
                done =~= all,
            decreases gone@.len(),
        {
            let next: Option<Point> = gone.take_lowest();
            let pt: Point = match next {
                None => {
                    break;
                },
                Some(pt) => pt,
            };
            assert(all.contains(pt as int));
            let ghost before = rules::lift(cells, done);
            self.remove_stone(pt);
            proof {
                let more = done.insert(pt as int);
                assert(rules::lift(cells, more) =~= before.update(pt as int, Cell::Empty));
                if before[pt as int] == Cell::Empty {
                    assert(before =~= before.update(pt as int, Cell::Empty));
                }
                done = more;
            }
        }
        proof {
            laws::law_settled_boards_breathe(was);
        }
    }

    /// Takes the stone on `pt` off the board, if there is one.
    pub fn remove_stone(&mut self, pt: Point)
        requires
            old(self)@.wf(),
            pt < NUM_CELLS,
        ensures
            final(self)@ == if rules::is_stone(old(self)@.cells[pt as int]) {
                old(self)@.with_cells(old(self)@.cells.update(pt as int, Cell::Empty))
            } else {
                old(self)@
            },
            final(self)@.wf(),
    {
        match self.cells[pt as usize] {
            Cell::Black => self.clear(pt, Color::Black),
            Cell::White => self.clear(pt, Color::White),
            _ => {},
        }
    }

    /// The side to move plays, passes or resigns. A move that the rules refuse
    /// leaves the board as it was.
    pub fn play(&mut self, mv: Move) -> (r: Result<(), Illegal>)
        requires
            old(self)@.wf(),
            old(self)@.has_room(mv),
        ensures
            match old(self)@.outcome(mv) {
                Ok(next) => r == Ok::<(), Illegal>(()) && final(self)@ == next,
                Err(why) => r == Err::<(), Illegal>(why) && final(self)@ == old(self)@,
            },
            final(self)@.wf(),
    {
        match mv {
            Move::Play(pt) => {
                if let Some(why) = self.illegal_reason(pt, self.to_move) {
                    return Err(why);
                }
                let colour: Color = self.to_move;
                let ghost before = self@;
                self.put(pt, colour);
                let (captured, last_captured) = self.capture_around(pt, colour);
                proof {
                    rules::lemma_captures(
                        before.size,
                        rules::place(before.cells, pt as int, colour),
                        pt as int,
                        colour,
                    );
                    rules::lemma_after_own(before.size, before.cells, pt as int, colour);
                }
                let i: usize = colour.index();
                self.prisoners[i] = self.prisoners[i] + captured;
                let ko: bool = captured == 1 && self.chain_size(pt) == 1 && self.chain_liberties(
                    pt,
                    2,
                ) == 1;
                // One stone taken by a lone stone that itself has a single liberty.
                self.ko = if ko {
                    Some(last_captured)
                } else {
                    None
                };
                proof {
                    let taken = rules::prisoners_of(before.cells, pt as int, colour);
                    if ko {
                        let t = taken.choose();
                        assert(taken.contains(t));
                        assert(taken.remove(t).len() == 0);
                        assert(taken.remove(t) =~= Set::<int>::empty());
                        assert(t == last_captured) by {
                            if t != last_captured {
                                assert(taken.remove(t).contains(last_captured as int));
                            }
                        }
                    }
                }
                self.passes = 0;
                self.to_move = colour.other();
                self.last_move = Some(mv);
                Ok(())
            },
            _ => {
                self.ko = None;
                self.passes = self.passes + 1;
                self.to_move = self.to_move.other();
                self.last_move = Some(mv);
                Ok(())
            },
        }
    }

    /// Is `pt` an eye-shaped point for `colour`? Used to stop playouts from
    /// filling their own eyes, which is what makes a random game terminate.
    /// Orthogonals must all be friendly or off-board; at most one hostile
    /// diagonal is tolerated, and none at the edge.
    pub fn is_eyelike(&self, pt: Point, colour: Color) -> (r: bool)
        requires
            self@.wf(),
            pt < NUM_CELLS,
        ensures
            r == rules::eyelike(self@.cells, pt as int, colour),
    {
        if self.cells[pt as usize] != Cell::Empty {
            return false;
        }
        let ghost cells = self@.cells;
        let mine: Cell = colour.cell();
        let ns: [Point; 4] = Self::neighbours(pt);
        let mut k: usize = 0;
        while k < 4
            invariant
                k <= 4,
                22 <= pt <= 418,
                cells == self@.cells,
                cells == self.cells@,
                mine == colour.spec_cell(),
                ns@ == seq![(pt - 1) as Point, (pt + 1) as Point, (pt - 21) as Point, (pt
                    + 21) as Point],
                forall|j: int|
                    0 <= j < k ==> cells[#[trigger] ns@[j] as int] == mine || cells[ns@[j] as int]
                        == Cell::Border,
            decreases 4 - k,
        {
            let n: Point = ns[k];
            let c: Cell = self.cells[n as usize];
            if c != mine && c != Cell::Border {
                assert(rules::adjacent(pt as int, n as int));
                return false;
            }
            k += 1;
        }
        proof {
            assert forall|n: int| #[trigger] rules::adjacent(pt as int, n) implies cells[n] == mine
                || cells[n] == Cell::Border by {
                assert(n == ns@[0] || n == ns@[1] || n == ns@[2] || n == ns@[3]);
            }
        }
        let theirs: Cell = colour.other().cell();
        let mut hostile: u32 = 0;
        let mut at_edge: bool = false;
        let ds: [Point; 4] = Self::diagonals(pt);
        let ghost mut found = Set::<int>::empty();
        k = 0;
        while k < 4
            invariant
                k <= 4,
                22 <= pt <= 418,
                cells == self@.cells,
                cells == self.cells@,
                theirs == colour.spec_other().spec_cell(),
                ds@ == seq![(pt - 22) as Point, (pt - 20) as Point, (pt + 20) as Point, (pt
                    + 22) as Point],
                forall|d: int| #[trigger]
                    found.contains(d) <==> exists|j: int|
                        0 <= j < k && #[trigger] ds@[j] == d && cells[d] == theirs,
                found.finite(),
                hostile == found.len(),
                hostile <= k,
                at_edge <==> exists|j: int|
                    0 <= j < k && cells[#[trigger] ds@[j] as int] == Cell::Border,
            decreases 4 - k,
        {
            let d: Point = ds[k];
            let c: Cell = self.cells[d as usize];
            let ghost before = found;
            if c == Cell::Border {
                at_edge = true;
                assert(cells[ds@[k as int] as int] == Cell::Border);
            } else if c == theirs {
                proof {
                    assert(!found.contains(d as int)) by {
                        if found.contains(d as int) {
                            let j = choose|j: int|
                                0 <= j < k && #[trigger] ds@[j] == d && cells[d as int] == theirs;
                        }
                    }
                    found = found.insert(d as int);
                }
                hostile += 1;
            }
            proof {
                assert forall|e: int| #[trigger]
                    found.contains(e) <==> exists|j: int|
                        0 <= j < k + 1 && #[trigger] ds@[j] == e && cells[e] == theirs by {
                    if found.contains(e) {
                        if before.contains(e) {
                            let j = choose|j: int|
                                0 <= j < k && #[trigger] ds@[j] == e && cells[e] == theirs;
                            assert(0 <= j < k + 1 && ds@[j] == e);
                        } else {
                            assert(ds@[k as int] == e);
                        }
                    }
                    if exists|j: int|
                        0 <= j < k + 1 && #[trigger] ds@[j] == e && cells[e] == theirs {
                        let j = choose|j: int|
                            0 <= j < k + 1 && #[trigger] ds@[j] == e && cells[e] == theirs;
                        if j < k {
                            assert(before.contains(e));
                        }
                    }
                }
            }
            k += 1;
        }
        proof {
            let all = Set::new(
                |d: int|
                    rules::diagonal(pt as int, d) && cells[d] == colour.spec_other().spec_cell(),
            );
            assert forall|d: int| all.contains(d) == found.contains(d) by {
                if all.contains(d) {
                    assert(d == ds@[0] || d == ds@[1] || d == ds@[2] || d == ds@[3]);
                }
            }
            assert(all =~= found);
            if exists|d: int| #[trigger]
                rules::diagonal(pt as int, d) && cells[d] == Cell::Border {
                let d = choose|d: int| #[trigger]
                    rules::diagonal(pt as int, d) && cells[d] == Cell::Border;
                assert(d == ds@[0] || d == ds@[1] || d == ds@[2] || d == ds@[3]);
            }
            if at_edge {
                let j = choose|j: int|
                    0 <= j < 4 && cells[#[trigger] ds@[j] as int] == Cell::Border;
                assert(rules::diagonal(pt as int, ds@[j] as int));
            }
        }
        hostile == 0 || (hostile == 1 && !at_edge)
    }

    /// Does playing at `pt` put the resulting chain in atari without capturing?
    /// Cheap to ask: two empty neighbours already rule it out, so the liberty
    /// union below only runs for the handful of points that could qualify.
    pub fn is_self_atari(&self, pt: Point, colour: Color) -> (r: bool)
        requires
            self@.wf(),
            self@.on_board(pt as int),
        ensures
            r == rules::self_atari(self@.cells, pt as int, colour),
    {
        let ghost cells = self@.cells;
        let ghost p = pt as int;
        let ghost joint = rules::joint_liberties(cells, p, colour);
        proof {
            let all = vstd::set_lib::set_int_range(0, 441);
            vstd::set_lib::lemma_int_range(0, 441);
            assert(joint.subset_of(all));
            vstd::set_lib::lemma_len_subset(joint, all);
        }
        let mine: Cell = colour.cell();
        let theirs: Cell = colour.other().cell();
        let ns: [Point; 4] = Self::neighbours(pt);
        let mut empties: u32 = 0;
        let ghost mut found = Set::<int>::empty();
        let mut k: usize = 0;
        while k < 4
            invariant
                k <= 4,
                22 <= pt <= 418,
                p == pt,
                cells == self@.cells,
                cells == self.cells@,
                ns@ == seq![(pt - 1) as Point, (pt + 1) as Point, (pt - 21) as Point, (pt
                    + 21) as Point],
                joint == rules::joint_liberties(cells, p, colour),
                found.subset_of(joint),
                forall|q: int| #[trigger]
                    found.contains(q) ==> exists|j: int| 0 <= j < k && #[trigger] ns@[j] == q,
                found.finite(),
                empties == found.len(),
                empties <= k,
            decreases 4 - k,
        {
            let n: Point = ns[k];
            if self.cells[n as usize] == Cell::Empty {
                proof {
                    assert(rules::adjacent(p, n as int));
                    assert(!found.contains(n as int)) by {
                        if found.contains(n as int) {
                            let j = choose|j: int| 0 <= j < k && #[trigger] ns@[j] == n;
                        }
                    }
                    found = found.insert(n as int);
                    assert(ns@[k as int] == n);
                }
                empties += 1;
            }
            k += 1;
        }
        if empties >= 2 {
            proof {
                vstd::set_lib::lemma_len_subset(found, joint);
            }
            return false;
        }
        // Anything that captures gains the freed points as liberties, and is a
        // sacrifice the playout policy has no business vetoing.
        k = 0;
        while k < 4
            invariant
                k <= 4,
                22 <= pt <= 418,
                p == pt,
                self@.wf(),
                cells == self@.cells,
                cells == self.cells@,
                theirs == colour.spec_other().spec_cell(),
                ns@ == seq![(pt - 1) as Point, (pt + 1) as Point, (pt - 21) as Point, (pt
                    + 21) as Point],
                forall|j: int|
                    0 <= j < k ==> !rules::atari_neighbour(
                        cells,
                        p,
                        colour,
                        #[trigger] ns@[j] as int,
                    ),
            decreases 4 - k,
        {
            let n: Point = ns[k];
            if self.cells[n as usize] == theirs {
                if self.chain_liberties(n, 2) == 1 {
                    assert(rules::atari_neighbour(cells, p, colour, n as int));
                    return false;
                }
            }
            k += 1;
        }
        proof {
            assert forall|n: int| !(#[trigger] rules::atari_neighbour(cells, p, colour, n)) by {
                if rules::atari_neighbour(cells, p, colour, n) {
                    assert(n == ns@[0] || n == ns@[1] || n == ns@[2] || n == ns@[3]);
                }
            }
        }
        // The liberties of the chain the new stone would belong to: its own
        // empty neighbours plus those of every friendly chain it joins, less
        // the point it is about to fill.
        let mut libs: Bits = Bits::new();
        k = 0;
        while k < 4
            invariant
                k <= 4,
                22 <= pt <= 418,
                p == pt,
                self@.wf(),
                cells == self@.cells,
                cells == self.cells@,
                joint == rules::joint_liberties(cells, p, colour),
                joint.finite(),
                mine == colour.spec_cell(),
                ns@ == seq![(pt - 1) as Point, (pt + 1) as Point, (pt - 21) as Point, (pt
                    + 21) as Point],
                forall|q: int| #[trigger]
                    libs@.contains(q) <==> exists|j: int|
                        0 <= j < k && rules::adds_liberty(
                            cells,
                            p,
                            colour,
                            #[trigger] ns@[j] as int,
                            q,
                        ),
            decreases 4 - k,
        {
            let n: Point = ns[k];
            let c: Cell = self.cells[n as usize];
            let ghost before = libs@;
            assert(rules::adjacent(p, n as int));
            if c == Cell::Empty {
                libs.set(n as usize);
            } else if c == mine {
                // A chain with three liberties still has two when one is filled.
                if self.chain_liberties(n, 3) >= 3 {
                    proof {
                        let open = rules::liberties(cells, n as int);
                        rules::lemma_chain_finite(self@.size, cells, n as int);
                        assert(rules::friend(cells, p, colour, n as int));
                        assert(open.remove(p).subset_of(joint));
                        vstd::set_lib::lemma_len_subset(open.remove(p), joint);
                    }
                    return false;
                }
                self.chain_liberties_into(n, &mut libs);
            }
            proof {
                assert forall|q: int| #[trigger]
                    libs@.contains(q) <==> exists|j: int|
                        0 <= j < k + 1 && rules::adds_liberty(
                            cells,
                            p,
                            colour,
                            #[trigger] ns@[j] as int,
                            q,
                        ) by {
                    if libs@.contains(q) {
                        if before.contains(q) {
                            let j = choose|j: int|
                                0 <= j < k && rules::adds_liberty(
                                    cells,
                                    p,
                                    colour,
                                    #[trigger] ns@[j] as int,
                                    q,
                                );
                            assert(0 <= j < k + 1);
                        } else {
                            assert(rules::adds_liberty(cells, p, colour, ns@[k as int] as int, q));
                        }
                    }
                    if exists|j: int|
                        0 <= j < k + 1 && rules::adds_liberty(
                            cells,
                            p,
                            colour,
                            #[trigger] ns@[j] as int,
                            q,
                        ) {
                        let j = choose|j: int|
                            0 <= j < k + 1 && rules::adds_liberty(
                                cells,
                                p,
                                colour,
                                #[trigger] ns@[j] as int,
                                q,
                            );
                        if j < k {
                            assert(before.contains(q));
                        }
                    }
                }
            }
            k += 1;
        }
        libs.unset(pt as usize);
        proof {
            assert forall|q: int| libs@.contains(q) == joint.contains(q) by {
                if joint.contains(q) {
                    if rules::adjacent(p, q) && cells[q] == Cell::Empty {
                        assert(q == ns@[0] || q == ns@[1] || q == ns@[2] || q == ns@[3]);
                        assert(rules::adds_liberty(cells, p, colour, q, q));
                    } else {
                        let n = choose|n: int| #[trigger]
                            rules::friend(cells, p, colour, n) && rules::liberty(cells, n, q);
                        assert(n == ns@[0] || n == ns@[1] || n == ns@[2] || n == ns@[3]);
                        assert(rules::adds_liberty(cells, p, colour, n, q));
                    }
                }
                if libs@.contains(q) {
                    let j = choose|j: int|
                        0 <= j < 4 && rules::adds_liberty(
                            cells,
                            p,
                            colour,
                            #[trigger] ns@[j] as int,
                            q,
                        );
                    assert(rules::adjacent(p, ns@[j] as int));
                }
            }
            assert(libs@ =~= joint);
        }
        libs.count(2) < 2
    }

    /// Every legal move that is not filling one's own eye, plus `Pass` last.
    pub fn candidate_moves(&self, colour: Color, out: &mut Vec<Move>)
        requires
            self@.wf(),
        ensures
            final(out)@ == self@.candidate_moves(colour),
    {
        out.clear();
        let pts: Vec<Point> = self.points();
        let ghost good = |pt: Point| area::candidate(self@.cells, self@.ko, colour, pt);
        let mut k: usize = 0;
        proof {
            reveal(Seq::filter);
            assert(pts@.take(0) =~= Seq::<Point>::empty());
            assert(out@ =~= pts@.take(0).filter(good).map_values(|pt: Point| Move::Play(pt)));
        }
        while k < pts.len()
            invariant
                k <= pts.len(),
                self@.wf(),
                pts@ == points_of(self@.size),
                good == (|pt: Point| area::candidate(self@.cells, self@.ko, colour, pt)),
                out@ == pts@.take(k as int).filter(good).map_values(|pt: Point| Move::Play(pt)),
            decreases pts.len() - k,
        {
            let pt: Point = pts[k];
            proof {
                lemma_points_on_board(self@.size, k as int);
                reveal(Seq::filter);
                assert(pts@.take(k + 1).drop_last() =~= pts@.take(k as int));
            }
            if self.cells[pt as usize] == Cell::Empty && !self.is_eyelike(pt, colour)
                && self.is_legal(pt, colour) {
                out.push(Move::Play(pt));
                proof {
                    assert(good(pt));
                    assert(out@ =~= pts@.take(k + 1).filter(good).map_values(
                        |pt: Point| Move::Play(pt),
                    ));
                }
            } else {
                assert(!good(pt));
            }
            k += 1;
        }
        assert(pts@.take(k as int) =~= pts@);
        out.push(Move::Pass);
    }

    /// Whose stones enclose an empty region: does it touch black, and white?
    fn enclosure(&self, region: &Bits, from: Point) -> (r: (bool, bool))
        requires
            self@.wf(),
            self@.on_board(from as int),
            self@.cells[from as int] == Cell::Empty,
            region@ == rules::chain(self@.cells, from as int),
        ensures
            r.0 == area::touches(self@.cells, from as int, Cell::Black),
            r.1 == area::touches(self@.cells, from as int, Cell::White),
    {
        let ghost cells = self@.cells;
        let ghost p0 = from as int;
        proof {
            rules::lemma_chain_inside(self@.size, cells, p0);
        }
        let mut pending: Bits = *region;
        let mut black: bool = false;
        let mut white: bool = false;
        let ghost mut done = Set::<int>::empty();
        proof {
            region.lemma_finite();
        }
        loop
            invariant
                self@.wf(),
                cells == self@.cells,
                cells == self.cells@,
                p0 == from,
                cells[p0] == Cell::Empty,
                region@ == rules::chain(cells, p0),
                forall|q: int| #[trigger]
                    rules::connected(cells, p0, q) ==> 0 <= q < 441 && cells[q] == Cell::Empty,
                pending@.finite(),
                forall|q: int| #[trigger]
                    region@.contains(q) <==> done.contains(q) || pending@.contains(q),
                black ==> area::touches(cells, p0, Cell::Black),
                white ==> area::touches(cells, p0, Cell::White),
                forall|q: int, n: int|
                    done.contains(q) && #[trigger] rules::adjacent(q, n) && 0 <= n < 441 ==> (
                    cells[n] == Cell::Black ==> black) && (cells[n] == Cell::White ==> white),
            ensures
                forall|q: int| !pending@.contains(q),
            decreases pending@.len(),
        {
            let next: Option<Point> = pending.take_lowest();
            let p: Point = match next {
                None => {
                    break;
                },
                Some(p) => p,
            };
            proof {
                assert(region@.contains(p as int));
                assert(rules::connected(cells, p0, p as int));
            }
            let ns: [Point; 4] = Self::neighbours(p);
            let mut k: usize = 0;
            while k < 4
                invariant
                    k <= 4,
                    22 <= p <= 418,
                    self@.wf(),
                    cells == self@.cells,
                    cells == self.cells@,
                    rules::connected(cells, p0, p as int),
                    ns@ == seq![(p - 1) as Point, (p + 1) as Point, (p - 21) as Point, (p
                        + 21) as Point],
                    black ==> area::touches(cells, p0, Cell::Black),
                    white ==> area::touches(cells, p0, Cell::White),
                    forall|q: int, n: int|
                        done.contains(q) && #[trigger] rules::adjacent(q, n) && 0 <= n < 441 ==> (
                        cells[n] == Cell::Black ==> black) && (cells[n] == Cell::White ==> white),
                    forall|j: int|
                        0 <= j < k ==> (cells[#[trigger] ns@[j] as int] == Cell::Black ==> black)
                            && (cells[ns@[j] as int] == Cell::White ==> white),
                decreases 4 - k,
            {
                let n: Point = ns[k];
                assert(rules::adjacent(p as int, n as int));
                match self.cells[n as usize] {
                    Cell::Black => {
                        black = true;
                    },
                    Cell::White => {
                        white = true;
                    },
                    _ => {},
                }
                k += 1;
            }
            proof {
                done = done.insert(p as int);
                assert forall|q: int, n: int|
                    done.contains(q) && #[trigger] rules::adjacent(q, n) && 0 <= n < 441 implies (
                cells[n] == Cell::Black ==> black) && (cells[n] == Cell::White ==> white) by {
                    if q == p {
                        assert(n == ns@[0] || n == ns@[1] || n == ns@[2] || n == ns@[3]);
                    }
                }
            }
        }
        proof {
            assert forall|q: int| #[trigger] rules::connected(cells, p0, q) implies done.contains(
                q,
            ) by {
                assert(region@.contains(q));
            }
        }
        (black, white)
    }

    /// Area score under Tromp-Taylor, before komi: stones plus the empty regions
    /// that touch exactly one colour. Positive means Black is ahead on the board.
    pub fn score_area(&self) -> (r: i32)
        requires
            self@.wf(),
        ensures
            r == area::area_margin(self@.cells),
    {
        let ghost cells = self@.cells;
        let ghost all_black = area::area(cells, Color::Black);
        let ghost all_white = area::area(cells, Color::White);
        proof {
            area::lemma_area_finite(cells, Color::Black);
            area::lemma_area_finite(cells, Color::White);
        }
        let mut black: i32 = 0;
        let mut white: i32 = 0;
        let mut done: Bits = Bits::new();
        let ghost mut b = Set::<int>::empty();
        let ghost mut w = Set::<int>::empty();
        let pts: Vec<Point> = self.points();
        let mut k: usize = 0;
        while k < pts.len()
            invariant
                k <= pts.len(),
                self@.wf(),
                cells == self@.cells,
                cells == self.cells@,
                pts@ == points_of(self@.size),
                all_black == area::area(cells, Color::Black),
                all_white == area::area(cells, Color::White),
                all_black.finite(),
                all_black.len() <= 441,
                all_white.finite(),
                all_white.len() <= 441,
                b.subset_of(all_black),
                w.subset_of(all_white),
                b.finite(),
                w.finite(),
                black == b.len(),
                white == w.len(),
                rules::closed(cells, done@),
                forall|p: int| #[trigger]
                    done@.contains(p) ==> 0 <= p < 441 && cells[p] == Cell::Empty,
                forall|p: int| #[trigger]
                    b.contains(p) && cells[p] == Cell::Empty ==> done@.contains(p),
                forall|p: int| #[trigger]
                    w.contains(p) && cells[p] == Cell::Empty ==> done@.contains(p),
                forall|p: int| #[trigger]
                    done@.contains(p) ==> (all_black.contains(p) ==> b.contains(p)) && (
                    all_white.contains(p) ==> w.contains(p)),
                forall|j: int|
                    0 <= j < k ==> (all_black.contains(#[trigger] pts@[j] as int) ==> b.contains(
                        pts@[j] as int,
                    )) && (all_white.contains(pts@[j] as int) ==> w.contains(pts@[j] as int)),
                forall|p: int| #[trigger]
                    b.contains(p) && rules::is_stone(cells[p]) ==> exists|j: int|
                        0 <= j < k && #[trigger] pts@[j] == p,
                forall|p: int| #[trigger]
                    w.contains(p) && rules::is_stone(cells[p]) ==> exists|j: int|
                        0 <= j < k && #[trigger] pts@[j] == p,
            decreases pts.len() - k,
        {
            let pt: Point = pts[k];
            let i: usize = pt as usize;
            let ghost p = pt as int;
            proof {
                lemma_points_on_board(self@.size, k as int);
                vstd::set_lib::lemma_len_subset(b, all_black);
                vstd::set_lib::lemma_len_subset(w, all_white);
            }
            match self.cells[i] {
                Cell::Black => {
                    proof {
                        self.lemma_fresh(pts@, k as int, b);
                        b = b.insert(p);
                        vstd::set_lib::lemma_len_subset(b, all_black);
                        assert(pts@[k as int] == p);
                    }
                    black += 1;
                },
                Cell::White => {
                    proof {
                        self.lemma_fresh(pts@, k as int, w);
                        w = w.insert(p);
                        vstd::set_lib::lemma_len_subset(w, all_white);
                        assert(pts@[k as int] == p);
                    }
                    white += 1;
                },
                Cell::Empty => {
                    if !done.get(i) {
                        // Flood the empty region and see whose stones enclose it.
                        let f: Flood = self.flood(pt, 1);
                        let region: i32 = f.n_stones as i32;
                        let (touches_black, touches_white) = self.enclosure(&f.stones, pt);
                        proof {
                            self.lemma_region(done@, p);
                        }
                        if touches_black && !touches_white {
                            proof {
                                vstd::set_lib::lemma_set_disjoint_lens(b, f.stones@);
                                b = b + f.stones@;
                                vstd::set_lib::lemma_len_subset(b, all_black);
                            }
                            black += region;
                        }
                        if touches_white && !touches_black {
                            proof {
                                vstd::set_lib::lemma_set_disjoint_lens(w, f.stones@);
                                w = w + f.stones@;
                                vstd::set_lib::lemma_len_subset(w, all_white);
                            }
                            white += region;
                        }
                        done.add_all(&f.stones);
                    }
                },
                Cell::Border => {},
            }
            k += 1;
        }
        proof {
            assert forall|p: int| all_black.contains(p) implies b.contains(p) by {
                lemma_points_cover(self@.size, p);
            }
            assert forall|p: int| all_white.contains(p) implies w.contains(p) by {
                lemma_points_cover(self@.size, p);
            }
            assert(b =~= all_black);
            assert(w =~= all_white);
        }
        black - white
    }

    /// The score a playout ends on, before komi: stones plus the empty points
    /// that have neighbours of one colour alone. At the end of a playout the board
    /// is filled but for eyes, so this agrees with `score_area` there while
    /// costing one pass over the points.
    pub fn score_playout(&self) -> (r: i32)
        requires
            self@.wf(),
        ensures
            r == area::claims_margin(self@.cells),
    {
        let ghost cells = self@.cells;
        let ghost all_black = area::claims(cells, Color::Black);
        let ghost all_white = area::claims(cells, Color::White);
        proof {
            area::lemma_area_finite(cells, Color::Black);
            area::lemma_area_finite(cells, Color::White);
        }
        let mut black: i32 = 0;
        let mut white: i32 = 0;
        let ghost mut b = Set::<int>::empty();
        let ghost mut w = Set::<int>::empty();
        let pts: Vec<Point> = self.points();
        let mut k: usize = 0;
        while k < pts.len()
            invariant
                k <= pts.len(),
                self@.wf(),
                cells == self@.cells,
                cells == self.cells@,
                pts@ == points_of(self@.size),
                all_black == area::claims(cells, Color::Black),
                all_white == area::claims(cells, Color::White),
                all_black.finite(),
                all_black.len() <= 441,
                all_white.finite(),
                all_white.len() <= 441,
                b.subset_of(all_black),
                w.subset_of(all_white),
                b.finite(),
                w.finite(),
                black == b.len(),
                white == w.len(),
                forall|j: int|
                    0 <= j < k ==> (all_black.contains(#[trigger] pts@[j] as int) ==> b.contains(
                        pts@[j] as int,
                    )) && (all_white.contains(pts@[j] as int) ==> w.contains(pts@[j] as int)),
                forall|p: int| #[trigger]
                    b.contains(p) ==> exists|j: int| 0 <= j < k && #[trigger] pts@[j] == p,
                forall|p: int| #[trigger]
                    w.contains(p) ==> exists|j: int| 0 <= j < k && #[trigger] pts@[j] == p,
            decreases pts.len() - k,
        {
            let pt: Point = pts[k];
            let ghost p = pt as int;
            proof {
                lemma_points_on_board(self@.size, k as int);
                vstd::set_lib::lemma_len_subset(b, all_black);
                vstd::set_lib::lemma_len_subset(w, all_white);
                self.lemma_fresh(pts@, k as int, b);
                self.lemma_fresh(pts@, k as int, w);
                assert(pts@[k as int] == p);
            }
            let mut for_black: bool = false;
            let mut for_white: bool = false;
            match self.cells[pt as usize] {
                Cell::Black => {
                    for_black = true;
                },
                Cell::White => {
                    for_white = true;
                },
                Cell::Empty => {
                    let (beside_black, beside_white) = self.beside(pt);
                    for_black = beside_black && !beside_white;
                    for_white = beside_white && !beside_black;
                },
                Cell::Border => {},
            }
            assert(for_black == all_black.contains(p));
            assert(for_white == all_white.contains(p));
            if for_black {
                proof {
                    b = b.insert(p);
                    vstd::set_lib::lemma_len_subset(b, all_black);
                }
                black += 1;
            }
            if for_white {
                proof {
                    w = w.insert(p);
                    vstd::set_lib::lemma_len_subset(w, all_white);
                }
                white += 1;
            }
            k += 1;
        }
        proof {
            assert forall|p: int| all_black.contains(p) implies b.contains(p) by {
                lemma_points_cover(self@.size, p);
            }
            assert forall|p: int| all_white.contains(p) implies w.contains(p) by {
                lemma_points_cover(self@.size, p);
            }
            assert(b =~= all_black);
            assert(w =~= all_white);
        }
        black - white
    }

    /// Has `pt` a black neighbour, and a white one?
    fn beside(&self, pt: Point) -> (r: (bool, bool))
        requires
            self@.wf(),
            self@.on_board(pt as int),
        ensures
            r.0 == area::beside(self@.cells, pt as int, Cell::Black),
            r.1 == area::beside(self@.cells, pt as int, Cell::White),
    {
        let ghost cells = self@.cells;
        let mut black: bool = false;
        let mut white: bool = false;
        let ns: [Point; 4] = Self::neighbours(pt);
        let mut k: usize = 0;
        while k < 4
            invariant
                k <= 4,
                22 <= pt <= 418,
                self@.wf(),
                cells == self@.cells,
                cells == self.cells@,
                ns@ == seq![(pt - 1) as Point, (pt + 1) as Point, (pt - 21) as Point, (pt
                    + 21) as Point],
                black ==> area::beside(cells, pt as int, Cell::Black),
                white ==> area::beside(cells, pt as int, Cell::White),
                forall|j: int|
                    0 <= j < k ==> (cells[#[trigger] ns@[j] as int] == Cell::Black ==> black) && (
                    cells[ns@[j] as int] == Cell::White ==> white),
            decreases 4 - k,
        {
            let n: Point = ns[k];
            assert(rules::adjacent(pt as int, n as int));
            match self.cells[n as usize] {
                Cell::Black => {
                    black = true;
                },
                Cell::White => {
                    white = true;
                },
                _ => {},
            }
            k += 1;
        }
        proof {
            assert forall|n: int| #[trigger]
                rules::adjacent(pt as int, n) && 0 <= n < cells.len() implies (cells[n]
                == Cell::Black ==> black) && (cells[n] == Cell::White ==> white) by {
                assert(n == ns@[0] || n == ns@[1] || n == ns@[2] || n == ns@[3]);
            }
        }
        (black, white)
    }

    /// A point is not counted before its index is reached.
    proof fn lemma_fresh(&self, pts: Seq<Point>, k: int, counted: Set<int>)
        requires
            self@.wf(),
            pts == points_of(self@.size),
            0 <= k < pts.len(),
            counted.contains(pts[k] as int) ==> exists|j: int|
                0 <= j < k && #[trigger] pts[j] == pts[k] as int,
        ensures
            !counted.contains(pts[k] as int),
    {
        if counted.contains(pts[k] as int) {
            let j = choose|j: int| 0 <= j < k && #[trigger] pts[j] == pts[k] as int;
            lemma_points_distinct(self@.size, j, k);
        }
    }

    /// What scoring needs of the empty region of a point that it has not met: the
    /// region is new, it is owned as a whole, and adding it keeps the record of
    /// what has been met closed.
    proof fn lemma_region(&self, done: Set<int>, p: int)
        requires
            self@.wf(),
            0 <= p < 441,
            self@.cells[p] == Cell::Empty,
            rules::closed(self@.cells, done),
            !done.contains(p),
        ensures
            rules::chain(self@.cells, p).finite(),
            rules::chain(self@.cells, p).len() <= 441,
            rules::chain(self@.cells, p).contains(p),
            forall|q: int| #[trigger]
                rules::chain(self@.cells, p).contains(q) ==> {
                    &&& 0 <= q < 441
                    &&& self@.cells[q] == Cell::Empty
                    &&& !done.contains(q)
                    &&& area::area(self@.cells, Color::Black).contains(q) == (area::touches(
                        self@.cells,
                        p,
                        Cell::Black,
                    ) && !area::touches(self@.cells, p, Cell::White))
                    &&& area::area(self@.cells, Color::White).contains(q) == (area::touches(
                        self@.cells,
                        p,
                        Cell::White,
                    ) && !area::touches(self@.cells, p, Cell::Black))
                },
            rules::closed(self@.cells, done.union(rules::chain(self@.cells, p))),
    {
        let cells = self@.cells;
        let region = rules::chain(cells, p);
        rules::lemma_chain_finite(self@.size, cells, p);
        rules::lemma_chain_closed(cells, p);
        rules::lemma_chain_inside(self@.size, cells, p);
        assert forall|q: int| #[trigger] region.contains(q) implies {
            &&& 0 <= q < 441
            &&& cells[q] == Cell::Empty
            &&& !done.contains(q)
            &&& area::area(cells, Color::Black).contains(q) == (area::touches(cells, p, Cell::Black)
                && !area::touches(cells, p, Cell::White))
            &&& area::area(cells, Color::White).contains(q) == (area::touches(cells, p, Cell::White)
                && !area::touches(cells, p, Cell::Black))
        } by {
            assert(rules::connected(cells, p, q));
            area::lemma_region(self@.size, cells, p, q, Cell::Black);
            area::lemma_region(self@.size, cells, p, q, Cell::White);
            if done.contains(q) {
                rules::lemma_connected_sym(self@.size, cells, p, q);
                rules::lemma_connected_within(cells, q, done);
            }
        }
    }
}

/// The position of column `x`, row `y` in a row-major listing.
pub proof fn lemma_row_major(size: int, x: int, y: int)
    requires
        0 <= x < size,
        0 <= y < size,
    ensures
        0 <= y * size + x < size * size,
        (y * size + x) % size == x,
        (y * size + x) / size == y,
{
    assert(0 <= y * size + x < size * size) by (nonlinear_arith)
        requires
            0 <= x < size,
            0 <= y < size,
    ;
    vstd::arithmetic::div_mod::lemma_fundamental_div_mod_converse(y * size + x, size, y, x);
}

/// The `k`-th point is on the board, and the two numbers below `size` that name
/// its column and row are the remainder and quotient of `k` by `size`.
pub proof fn lemma_points_on_board(size: int, k: int)
    requires
        2 <= size <= 19,
        0 <= k < size * size,
    ensures
        rules::on_board(size, points_of(size)[k] as int),
        points_of(size)[k] == rules::point_at(k % size, k / size),
        points_of(size)[k] % 21 == k % size + 1,
        points_of(size)[k] / 21 == k / size + 1,
        0 <= k % size < size,
        0 <= k / size < size,
{
    assert(0 <= k % size < size && 0 <= k / size < size) by (nonlinear_arith)
        requires
            2 <= size,
            0 <= k < size * size,
    ;
}

/// No point is listed twice.
pub proof fn lemma_points_distinct(size: int, j: int, k: int)
    requires
        2 <= size <= 19,
        0 <= j < size * size,
        0 <= k < size * size,
        j != k,
    ensures
        points_of(size)[j] != points_of(size)[k],
{
    lemma_points_on_board(size, j);
    lemma_points_on_board(size, k);
    if points_of(size)[j] == points_of(size)[k] {
        assert(j % size == k % size && j / size == k / size);
        assert(j == k) by (nonlinear_arith)
            requires
                size > 0,
                j % size == k % size,
                j / size == k / size,
        ;
    }
}

/// Every point of the board is listed.
pub proof fn lemma_points_cover(size: int, p: int)
    requires
        2 <= size <= 19,
        rules::on_board(size, p),
    ensures
        exists|k: int| 0 <= k < points_of(size).len() && #[trigger] points_of(size)[k] == p,
{
    let x = p % 21 - 1;
    let y = p / 21 - 1;
    let k = y * size + x;
    lemma_row_major(size, x, y);
    assert(0 <= k < size * size) by (nonlinear_arith)
        requires
            0 <= x < size,
            0 <= y < size,
            k == y * size + x,
    ;
    assert(points_of(size)[k] == p);
}

} // verus!
