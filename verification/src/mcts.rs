//! The playout policy under the Monte-Carlo tree search, and the random numbers
//! it draws.

use vstd::prelude::*;

use crate::area;
use crate::board;
use crate::board::{Board, Cell, Color, Move, Point, Position};
use crate::laws;
use crate::rules;
use crate::zobrist;

verus! {

/// The state of a random number stream one step on.
pub open spec fn advance(state: u64) -> u64 {
    state.wrapping_add(zobrist::GOLDEN)
}

/// The number below `n` that a state of the stream stands for.
pub open spec fn pick(state: u64, n: nat) -> nat {
    ((zobrist::mix(state) >> 32u64) as nat * n) / 0x1_0000_0000
}

/// splitmix64. Small, fast, and the same sequence for the same seed, which is
/// what makes a search reproducible when the number of threads and of playouts
/// is fixed.
pub struct Rng(u64);

impl View for Rng {
    type V = u64;

    closed spec fn view(&self) -> u64 {
        self.0
    }
}

impl Rng {
    pub fn new(seed: u64) -> (r: Rng)
        ensures
            r@ == seed ^ zobrist::GOLDEN,
    {
        Rng(seed ^ zobrist::GOLDEN)
    }

    #[inline]
    pub fn next_u64(&mut self) -> (r: u64)
        ensures
            final(self)@ == advance(old(self)@),
            r == zobrist::mix(final(self)@),
    {
        zobrist::splitmix64(&mut self.0)
    }

    /// A number below `n`, or zero where there is none.
    #[inline]
    pub fn below(&mut self, n: usize) -> (r: usize)
        requires
            n <= 0x1_0000_0000,
        ensures
            final(self)@ == advance(old(self)@),
            r == pick(final(self)@, n as nat),
            n > 0 ==> r < n,
    {
        // Multiply-shift: no division, and the bias is far below anything a
        // playout policy could notice.
        let high: u64 = self.next_u64() >> 32;
        let wide: u64 = n as u64;
        proof {
            let full = zobrist::mix(self@);
            assert(full >> 32u64 < 0x1_0000_0000) by (bit_vector);
            assert(high * wide <= 0xFFFF_FFFF * 0x1_0000_0000) by (nonlinear_arith)
                requires
                    high <= 0xFFFF_FFFF,
                    wide <= 0x1_0000_0000,
            ;
            if n > 0 {
                assert(high * wide < wide * 0x1_0000_0000) by (nonlinear_arith)
                    requires
                        high < 0x1_0000_0000,
                        wide > 0,
                ;
            }
        }
        let product: u64 = high * wide;
        assert(product >> 32u64 == product / 0x1_0000_0000) by (bit_vector);
        (product >> 32) as usize
    }
}

/// What is picked below `n` is below `n`.
pub proof fn lemma_pick(state: u64, n: nat)
    requires
        0 < n <= 0x1_0000_0000,
    ensures
        pick(state, n) < n,
{
    let full = zobrist::mix(state);
    let high = (full >> 32u64) as nat;
    assert(full >> 32u64 < 0x1_0000_0000) by (bit_vector);
    assert(high * n < n * 0x1_0000_0000) by (nonlinear_arith)
        requires
            high < 0x1_0000_0000,
            n > 0,
    ;
    assert(pick(state, n) < n) by (nonlinear_arith)
        requires
            pick(state, n) == (high * n) / 0x1_0000_0000,
            high * n < n * 0x1_0000_0000,
    ;
}

/// How the search goes about its work.
#[derive(Clone, Copy, Debug)]
pub struct Params {
    /// The largest margin on the board that still makes White the winner: komi,
    /// rounded down.
    pub komi: i32,
    /// Visits a node must have before its children are given nodes of their own.
    pub expand_threshold: u32,
    pub max_nodes: usize,
    pub threads: usize,
    pub playouts: Option<u64>,
    /// How often a playout answers an atari instead of playing at random.
    pub atari_answer_percent: u32,
    pub seed: u64,
}

impl Params {
    /// The settings that a search has unless it is told otherwise: komi of seven and
    /// a half, and no fixed number of playouts.
    pub fn standard(threads: usize) -> (r: Params)
        ensures
            r == (Params {
                komi: 7,
                expand_threshold: 16,
                max_nodes: 400_000,
                threads,
                playouts: None,
                atari_answer_percent: 80,
                seed: 0x5EED,
            }),
    {
        Params {
            komi: 7,
            expand_threshold: 16,
            max_nodes: 400_000,
            threads,
            playouts: None,
            atari_answer_percent: 80,
            seed: 0x5EED,
        }
    }
}

/// How many threads a search uses on a machine that runs this many at once, if that
/// is known.
pub fn default_threads(available: Option<usize>) -> (r: usize)
    ensures
        r == match available {
            Some(n) => if n <= 8 {
                n
            } else {
                8
            },
            None => 4,
        },
{
    match available {
        Some(n) => if n <= 8 {
            n
        } else {
            8
        },
        None => 4,
    }
}

/// A move that a search has looked at.
#[derive(Clone, Debug)]
pub struct Candidate {
    pub mv: Move,
    pub visits: u64,
    pub wins: u64,
    /// The line that the search expects, starting with `mv`.
    pub pv: Vec<Move>,
}

/// What a search has found.
#[derive(Debug)]
pub struct SearchResult {
    /// The move with the most visits summed over every tree.
    pub best: Move,
    pub candidates: Vec<Candidate>,
    pub playouts: u64,
    pub elapsed: std::time::Duration,
    pub threads: usize,
}

/// Is `p` a stone of a chain with a single liberty?
pub open spec fn in_atari(cells: Seq<Cell>, p: int) -> bool {
    rules::is_stone(cells[p]) && rules::liberties(cells, p).len() == 1
}

/// The liberty of a chain that has a single one.
pub open spec fn last_liberty(cells: Seq<Cell>, p: int) -> Point {
    rules::liberties(cells, p).choose() as Point
}

/// Is `pt` a point that a playout plays: a legal one that neither fills an own eye
/// nor puts the new chain straight into atari?
pub open spec fn is_playable(pos: Position, pt: Point, c: Color) -> bool {
    &&& !rules::eyelike(pos.cells, pt as int, c)
    &&& rules::legal(pos.cells, pos.ko, pt, c)
    &&& !rules::self_atari(pos.cells, pt as int, c)
}

/// What answering an atari on the chain of `p` is worth to `c`, and where it is
/// played: capturing an enemy chain, or saving an own one where that does not run
/// from one atari into another. Stones at stake decide, and taking beats saving
/// the same number because it also ends the question.
pub open spec fn reply_at(pos: Position, c: Color, p: int) -> Option<(nat, Point)> {
    let lib = last_liberty(pos.cells, p);
    let mine = pos.cells[p] == c.spec_cell();
    if in_atari(pos.cells, p) && rules::legal(pos.cells, pos.ko, lib, c) && !(mine
        && rules::self_atari(pos.cells, lib as int, c)) {
        Some(
            (
                rules::chain(pos.cells, p).len() * 2 + if mine {
                    0nat
                } else {
                    1nat
                },
                lib,
            ),
        )
    } else {
        None
    }
}

/// The most valuable answer to an atari on the first `n` points, and the first of
/// those of equal value.
pub open spec fn best_reply(pos: Position, c: Color, n: nat) -> Option<(nat, Point)>
    decreases n,
{
    if n == 0 {
        None
    } else {
        let before = best_reply(pos, c, (n - 1) as nat);
        match (before, reply_at(pos, c, board::points_of(pos.size)[n - 1] as int)) {
            (_, None) => before,
            (None, Some(reply)) => Some(reply),
            (Some(best), Some(reply)) => if reply.0 > best.0 {
                Some(reply)
            } else {
                before
            },
        }
    }
}

/// The answer to the most valuable atari on the board.
pub open spec fn atari_reply_of(pos: Position, c: Color) -> Option<Move> {
    match best_reply(pos, c, (pos.size * pos.size) as nat) {
        Some((_, lib)) => Some(Move::Play(lib)),
        None => None,
    }
}

proof fn lemma_last_liberty(pos: Position, p: int, lib: Point)
    requires
        pos.wf(),
        0 <= p < 441,
        rules::is_stone(pos.cells[p]),
        rules::liberties(pos.cells, p) == set![lib as int],
    ensures
        in_atari(pos.cells, p),
        last_liberty(pos.cells, p) == lib,
        pos.cells[lib as int] == Cell::Empty,
        rules::on_board(pos.size, lib as int),
{
    let libs = rules::liberties(pos.cells, p);
    assert(libs.contains(lib as int));
    assert(libs.contains(libs.choose()));
    assert(rules::liberty(pos.cells, p, lib as int));
    assert((pos.cells[lib as int] != Cell::Border) <==> rules::on_board(pos.size, lib as int));
}

proof fn lemma_not_in_atari(pos: Position, p: int)
    requires
        rules::is_stone(pos.cells[p]),
        rules::outlets(pos.cells, p).len() != 1,
    ensures
        !in_atari(pos.cells, p),
{
}

/// The one liberty of the chain at `pt`, if it is a chain of stones in atari.
fn atari_liberty(board: &Board, pt: Point) -> (r: Option<Point>)
    requires
        board@.wf(),
        board@.on_board(pt as int),
    ensures
        match r {
            Some(lib) => in_atari(board@.cells, pt as int) && lib == last_liberty(
                board@.cells,
                pt as int,
            ) && board@.on_board(lib as int),
            None => !in_atari(board@.cells, pt as int),
        },
{
    if board.cell(pt) == Cell::Empty {
        return None;
    }
    assert(rules::is_stone(board@.cells[pt as int]));
    match board.chain_single_liberty(pt) {
        Some(lib) => {
            proof {
                lemma_last_liberty(board@, pt as int, lib);
            }
            Some(lib)
        },
        None => {
            proof {
                lemma_not_in_atari(board@, pt as int);
            }
            None
        },
    }
}

#[inline]
fn playable(board: &Board, pt: Point, colour: Color) -> (r: bool)
    requires
        board@.wf(),
        board@.on_board(pt as int),
    ensures
        r == is_playable(board@, pt, colour),
{
    board.cell(pt) == Cell::Empty && !board.is_eyelike(pt, colour) && board.is_legal(pt, colour)
        && !board.is_self_atari(pt, colour)
}

/// Answers the most valuable atari anywhere on the board: captures the largest
/// enemy chain that has one liberty left, or saves the largest of one's own.
/// Public because it is worth being able to test on its own, and because it is
/// a useful thing to ask of a position in its own right.
///
/// This runs once per playout, on its first move. It is what lets the search
/// read a position it did not play itself, a handicap setup or a game joined
/// halfway, where a chain has been sitting in atari for some moves and the local
/// heuristic has nothing to trigger on.
pub fn atari_reply(board: &Board, colour: Color) -> (r: Option<Move>)
    requires
        board@.wf(),
    ensures
        r == atari_reply_of(board@, colour),
        r matches Some(mv) ==> mv is Play && board@.on_board(mv->Play_0 as int) && board@.illegal(
            mv->Play_0,
            colour,
        ) is None,
{
    let mut best: Option<(u32, Point)> = None;
    let pts: Vec<Point> = board.points();
    let mut k: usize = 0;
    while k < pts.len()
        invariant
            k <= pts.len(),
            board@.wf(),
            pts@ == board::points_of(board@.size),
            best is None <==> best_reply(board@, colour, k as nat) is None,
            best matches Some((stake, lib)) ==> {
                &&& best_reply(board@, colour, k as nat) == Some((stake as nat, lib))
                &&& board@.on_board(lib as int)
                &&& board@.illegal(lib, colour) is None
            },
        decreases pts.len() - k,
    {
        let pt: Point = pts[k];
        proof {
            board::lemma_points_on_board(board@.size, k as int);
            rules::lemma_chain_finite(board@.size, board@.cells, pt as int);
        }
        if let Some(lib) = atari_liberty(board, pt) {
            if board.is_legal(lib, colour) {
                let mine: bool = board.cell(pt) == colour.cell();
                // Running from an atari into another atari is not an answer.
                if !(mine && board.is_self_atari(lib, colour)) {
                    // Stones at stake decide, and taking beats saving the same
                    // number because it also ends the question.
                    let stake: u32 = board.chain_size(pt) * 2 + if mine {
                        0
                    } else {
                        1
                    };
                    let better: bool = match best {
                        None => true,
                        Some((s, _)) => stake > s,
                    };
                    if better {
                        best = Some((stake, lib));
                    }
                }
            }
        }
        k += 1;
    }
    match best {
        Some((_, lib)) => Some(Move::Play(lib)),
        None => None,
    }
}

/// The atari reply is the best there is: where it is given, it answers some
/// atari, and no answer to any atari on the board is worth more; where it is not
/// given, there is none to answer.
pub proof fn law_atari_reply_is_the_best(pos: Position, c: Color, p: int)
    requires
        pos.wf(),
        rules::on_board(pos.size, p),
        reply_at(pos, c, p) is Some,
    ensures
        best_reply(pos, c, (pos.size * pos.size) as nat) matches Some((stake, lib)) && {
            &&& reply_at(pos, c, p) matches Some((value, _)) && stake >= value
            &&& atari_reply_of(pos, c) == Some(Move::Play(lib))
            &&& exists|q: int|
                rules::on_board(pos.size, q) && #[trigger] reply_at(pos, c, q) == Some((stake, lib))
        },
{
    board::lemma_points_cover(pos.size, p);
    let n = pos.size * pos.size;
    assert(0 <= n) by (nonlinear_arith)
        requires
            n == pos.size * pos.size,
    ;
    let k = choose|k: int|
        0 <= k < board::points_of(pos.size).len() && #[trigger] board::points_of(pos.size)[k] == p;
    lemma_best_reply(pos, c, n as nat, k);
}

proof fn lemma_best_reply(pos: Position, c: Color, n: nat, k: int)
    requires
        pos.wf(),
        n <= pos.size * pos.size,
        0 <= k < n,
    ensures
        reply_at(pos, c, board::points_of(pos.size)[k] as int) matches Some(reply)
            ==> best_reply(pos, c, n) matches Some(best) && best.0 >= reply.0,
        best_reply(pos, c, n) matches Some(best) ==> exists|q: int|
            rules::on_board(pos.size, q) && #[trigger] reply_at(pos, c, q) == Some(best),
    decreases n,
{
    let last = board::points_of(pos.size)[n - 1] as int;
    board::lemma_points_on_board(pos.size, n - 1);
    if n > 1 {
        lemma_best_reply(pos, c, (n - 1) as nat, if k < n - 1 { k } else { 0 });
    } else {
        assert(best_reply(pos, c, 0) is None);
    }
    if best_reply(pos, c, n) == reply_at(pos, c, last) && reply_at(pos, c, last) is Some {
        assert(rules::on_board(pos.size, last));
    }
}

spec fn all_on_board(pos: Position, points: Seq<Point>) -> bool {
    forall|j: int| 0 <= j < points.len() ==> pos.on_board(#[trigger] points[j] as int)
}

spec fn last_on_board(pos: Position) -> bool {
    pos.last_move matches Some(Move::Play(last)) ==> pos.on_board(last as int)
}

/// The stones on the board and the prisoners taken: what a play adds one to.
pub open spec fn load(pos: Position) -> int {
    laws::stones(pos.cells).len() + pos.black_prisoners + pos.white_prisoners
}

/// Where `c` answers an atari on the chain of `q`: by capturing an enemy chain, or,
/// with `save`, by running with an own one to where that helps.
pub open spec fn answer_for(pos: Position, c: Color, q: int, save: bool) -> Option<Point> {
    let lib = last_liberty(pos.cells, q);
    let mine = pos.cells[q] == c.spec_cell();
    if in_atari(pos.cells, q) && rules::legal(pos.cells, pos.ko, lib, c) && (mine ==> save
        && !rules::self_atari(pos.cells, lib as int, c)) {
        Some(lib)
    } else {
        None
    }
}

/// The answers to the ataris at the stone on `last` and on its first `n`
/// neighbours.
pub open spec fn answers_upto(pos: Position, c: Color, last: Point, n: nat) -> Seq<Point>
    decreases n,
{
    if n == 0 {
        match answer_for(pos, c, last as int, false) {
            Some(lib) => seq![lib],
            None => Seq::empty(),
        }
    } else {
        let around = seq![last - 1, last + 1, last - 21, last + 21];
        let before = answers_upto(pos, c, last, (n - 1) as nat);
        match answer_for(pos, c, around[n - 1], true) {
            Some(lib) => before.push(lib),
            None => before,
        }
    }
}

/// An answer to an atari that the stone on `last` is part of, and the state of the
/// random numbers after picking it.
pub open spec fn atari_answer_of(pos: Position, c: Color, last: Point, rng: u64) -> (
    Option<Move>,
    u64,
) {
    let options = answers_upto(pos, c, last, 4);
    if options.len() == 0 {
        (None, rng)
    } else {
        let drawn = advance(rng);
        (Some(Move::Play(options[pick(drawn, options.len()) as int])), drawn)
    }
}

/// The empty points of a board, in row-major order.
pub open spec fn empty_points(pos: Position) -> Seq<Point> {
    board::points_of(pos.size).filter(|pt: Point| pos.cells[pt as int] == Cell::Empty)
}

/// The index of the first playable point among `tries` uniform samples of the
/// empties, and the state of the random numbers after them.
pub open spec fn sample(pos: Position, empties: Seq<Point>, c: Color, rng: u64, tries: nat) -> (
    Option<int>,
    u64,
)
    decreases tries,
{
    if tries == 0 {
        (None, rng)
    } else {
        let drawn = advance(rng);
        let i = pick(drawn, empties.len()) as int;
        if is_playable(pos, empties[i], c) {
            (Some(i), drawn)
        } else {
            sample(pos, empties, c, drawn, (tries - 1) as nat)
        }
    }
}

/// The index `k` places after `start`, going round.
pub open spec fn turned(start: int, k: int, n: int) -> int {
    if start + k < n {
        start + k
    } else {
        start + k - n
    }
}

/// The index of the first playable point among the empties, going round from the
/// `k`-th place after `start`.
pub open spec fn walk(pos: Position, empties: Seq<Point>, c: Color, start: int, k: nat) -> Option<
    int,
>
    decreases empties.len() - k,
{
    if k >= empties.len() {
        None
    } else {
        let i = turned(start, k as int, empties.len() as int);
        if is_playable(pos, empties[i], c) {
            Some(i)
        } else {
            walk(pos, empties, c, start, k + 1)
        }
    }
}

/// A playable point, if there is one: one of a few uniform samples, or else the
/// first in an ordered walk. And the state of the random numbers after that.
pub open spec fn random_point(pos: Position, empties: Seq<Point>, c: Color, rng: u64) -> (
    Option<Point>,
    u64,
) {
    if empties.len() == 0 {
        (None, rng)
    } else {
        match sample(pos, empties, c, rng, 8) {
            (Some(i), drawn) => (Some(empties[i]), drawn),
            (None, drawn) => {
                let again = advance(drawn);
                let start = pick(again, empties.len()) as int;
                match walk(pos, empties, c, start, 0) {
                    Some(i) => (Some(empties[i]), again),
                    None => (None, again),
                }
            },
        }
    }
}

/// A game being played out: the position, the random numbers, the stones played so
/// far, the empty points, and the number of moves.
pub struct Playout {
    pub pos: Position,
    pub rng: u64,
    pub moves: Seq<(Point, Color)>,
    pub empties: Seq<Point>,
    pub played: nat,
}

/// The points of `s` without the first `pt` among them, whose place the last one
/// takes.
pub open spec fn without_first(s: Seq<Point>, pt: Point) -> Seq<Point> {
    match s.index_of_first(pt) {
        Some(i) => s.update(i, s.last()).drop_last(),
        None => s,
    }
}

impl Playout {
    /// How many moves a playout may have.
    pub open spec fn limit(self) -> int {
        self.pos.size * self.pos.size * 3 + 40
    }

    pub open spec fn over(self) -> bool {
        self.pos.passes >= 2 || self.played >= self.limit()
    }

    /// The answer to an atari that the side to move gives, if it gives one: one
    /// time in so many hundred, on the first move to any atari on the board and
    /// later to one that the last move has made. And the state of the random
    /// numbers after that.
    pub open spec fn forced(self, percent: u32) -> (Option<Move>, u64) {
        let drawn = advance(self.rng);
        if pick(drawn, 100) >= percent {
            (None, drawn)
        } else if self.played == 0 {
            (atari_reply_of(self.pos, self.pos.to_move), drawn)
        } else {
            match self.pos.last_move {
                Some(Move::Play(last)) => atari_answer_of(
                    self.pos,
                    self.pos.to_move,
                    last,
                    drawn,
                ),
                _ => (None, drawn),
            }
        }
    }

    /// The next move, and the state of the random numbers after choosing it: an
    /// answer to an atari, or a random playable point, or a pass.
    pub open spec fn choice(self, percent: u32) -> (Move, u64) {
        match self.forced(percent) {
            (Some(mv), drawn) => (mv, drawn),
            (None, drawn) => match random_point(self.pos, self.empties, self.pos.to_move, drawn) {
                (Some(pt), again) => (Move::Play(pt), again),
                (None, again) => (Move::Pass, again),
            },
        }
    }

    /// The playout one move on.
    pub open spec fn step(self, percent: u32) -> Playout {
        let (mv, rng) = self.choice(percent);
        let played = self.played + 1;
        match (mv, self.pos.outcome(mv)) {
            (_, Err(_)) => Playout { pos: self.pos.after_pass(Move::Pass), rng, played, ..self },
            (Move::Play(pt), Ok(pos)) => Playout {
                pos,
                rng,
                moves: self.moves.push((pt, self.pos.to_move)),
                empties: if pos.black_prisoners + pos.white_prisoners != self.pos.black_prisoners
                    + self.pos.white_prisoners {
                    empty_points(pos)
                } else {
                    without_first(self.empties, pt)
                },
                played,
            },
            (_, Ok(pos)) => Playout { pos, rng, played, ..self },
        }
    }

    /// The playout after `n` more moves, or fewer where it is over sooner.
    pub open spec fn after(self, percent: u32, n: nat) -> Playout
        decreases n,
    {
        if n == 0 || self.over() {
            self
        } else {
            self.step(percent).after(percent, (n - 1) as nat)
        }
    }

    /// The playout played to its end.
    pub open spec fn finished(self, percent: u32) -> Playout {
        self.after(percent, (self.limit() - self.played) as nat)
    }

    /// A playout from a position that goes on from some stones already played.
    pub open spec fn from(pos: Position, rng: u64, moves: Seq<(Point, Color)>) -> Playout {
        Playout { pos, rng, moves, empties: empty_points(pos), played: 0 }
    }
}

/// Who has won a finished playout, when White wins at every margin up to `komi`.
pub open spec fn winner_of(pos: Position, komi: i32) -> Color {
    if area::claims_margin(pos.cells) > komi {
        Color::Black
    } else {
        Color::White
    }
}

impl Rng {
    #[inline]
    fn chance(&mut self, percent: u32) -> (r: bool)
        ensures
            final(self)@ == advance(old(self)@),
            r == (pick(final(self)@, 100) < percent),
    {
        self.below(100) < percent as usize
    }
}

/// Where to answer an atari on the chain at `q`.
fn answer_at(board: &Board, q: Point, colour: Color, save: bool) -> (r: Option<Point>)
    requires
        board@.wf(),
        board@.on_board(q as int),
    ensures
        r == answer_for(board@, colour, q as int, save),
        r matches Some(lib) ==> board@.on_board(lib as int) && board@.illegal(lib, colour) is None,
{
    let lib: Point = match atari_liberty(board, q) {
        None => {
            return None;
        },
        Some(lib) => lib,
    };
    if !board.is_legal(lib, colour) {
        return None;
    }
    // Running only helps if the escape square is not itself atari.
    if board.cell(q) == colour.cell() && (!save || board.is_self_atari(lib, colour)) {
        return None;
    }
    Some(lib)
}

/// Save a chain of `colour` that the stone at `last` just put in atari, or
/// capture the chain that did it. Picks among the options at random.
fn atari_answer(board: &Board, last: Point, colour: Color, rng: &mut Rng) -> (r: Option<Move>)
    requires
        board@.wf(),
        board@.on_board(last as int),
    ensures
        (r, final(rng)@) == atari_answer_of(board@, colour, last, old(rng)@),
        r matches Some(mv) ==> mv is Play && board@.on_board(mv->Play_0 as int) && board@.illegal(
            mv->Play_0,
            colour,
        ) is None,
{
    let mut options: Vec<Point> = Vec::new();
    // The attacking stone's own chain may be capturable.
    if let Some(lib) = answer_at(board, last, colour, false) {
        options.push(lib);
    }
    assert(options@ =~= answers_upto(board@, colour, last, 0));
    let around: [Point; 4] = [last - 1, last + 1, last - 21, last + 21];
    let mut k: usize = 0;
    while k < 4
        invariant
            k <= 4,
            board@.wf(),
            board@.on_board(last as int),
            around@ == seq![(last - 1) as Point, (last + 1) as Point, (last - 21) as Point, (last
                + 21) as Point],
            options@ == answers_upto(board@, colour, last, k as nat),
            options@.len() <= k + 1,
            forall|j: int|
                0 <= j < options@.len() ==> board@.on_board(#[trigger] options@[j] as int)
                    && board@.illegal(options@[j], colour) is None,
        decreases 4 - k,
    {
        let q: Point = around[k];
        assert(q == seq![last - 1, last + 1, last - 21, last + 21][k as int]);
        if board.is_on_board(q) {
            if let Some(lib) = answer_at(board, q, colour, true) {
                options.push(lib);
            }
        }
        k += 1;
    }
    if options.len() == 0 {
        None
    } else {
        let i: usize = rng.below(options.len());
        Some(Move::Play(options[i]))
    }
}

/// Refills the list of empty points.
fn list_empties(board: &Board, empties: &mut Vec<Point>)
    requires
        board@.wf(),
    ensures
        final(empties)@ == empty_points(board@),
        final(empties)@.len() <= 361,
        forall|j: int|
            0 <= j < final(empties)@.len() ==> board@.on_board(#[trigger] final(empties)@[j] as int),
{
    empties.clear();
    let ghost open = |pt: Point| board@.cells[pt as int] == Cell::Empty;
    let ghost pts = board::points_of(board@.size);
    let size: usize = board.size();
    let mut y: usize = 0;
    proof {
        reveal(Seq::filter);
        assert(pts.take(0) =~= Seq::<Point>::empty());
        assert(empties@ =~= pts.take(0).filter(open));
        assert(size * size <= 361) by (nonlinear_arith)
            requires
                size <= 19,
        ;
    }
    while y < size
        invariant
            y <= size,
            board@.wf(),
            size == board@.size,
            size * size <= 361,
            pts == board::points_of(board@.size),
            open == (|pt: Point| board@.cells[pt as int] == Cell::Empty),
            empties@ == pts.take(y * size).filter(open),
            empties@.len() <= y * size,
            forall|j: int|
                0 <= j < empties@.len() ==> board@.on_board(#[trigger] empties@[j] as int),
        decreases size - y,
    {
        let mut x: usize = 0;
        assert(0 <= y * size && y * size + size <= size * size) by (nonlinear_arith)
            requires
                0 <= y < size,
        ;
        while x < size
            invariant
                y < size,
                x <= size,
                board@.wf(),
                size == board@.size,
                0 <= y * size,
                y * size + size <= size * size,
                pts == board::points_of(board@.size),
                open == (|pt: Point| board@.cells[pt as int] == Cell::Empty),
                empties@ == pts.take(y * size + x).filter(open),
                empties@.len() <= y * size + x,
                forall|j: int|
                    0 <= j < empties@.len() ==> board@.on_board(#[trigger] empties@[j] as int),
            decreases size - x,
        {
            let pt: Point = ((y + 1) * 21 + (x + 1)) as Point;
            let ghost k = y * size + x;
            proof {
                board::lemma_row_major(size as int, x as int, y as int);
                board::lemma_points_on_board(board@.size, k);
                assert(pts[k] == pt);
                reveal(Seq::filter);
                assert(pts.take(k + 1).drop_last() =~= pts.take(k));
            }
            if board.cell(pt) == Cell::Empty {
                empties.push(pt);
                assert(open(pt));
            } else {
                assert(!open(pt));
            }
            x += 1;
        }
        y += 1;
        assert((y - 1) * size + size == y * size) by (nonlinear_arith);
    }
    assert(pts.take(y * size) =~= pts);
}

/// Looks for a playable point among the empties.
fn find_point(board: &Board, empties: &Vec<Point>, colour: Color, rng: &mut Rng) -> (r: Option<
    Point,
>)
    requires
        board@.wf(),
        empties@.len() <= 0x1_0000_0000,
        forall|j: int| 0 <= j < empties@.len() ==> board@.on_board(#[trigger] empties@[j] as int),
    ensures
        (r, final(rng)@) == random_point(board@, empties@, colour, old(rng)@),
        r matches Some(pt) ==> board@.on_board(pt as int) && is_playable(board@, pt, colour),
{
    let n: usize = empties.len();
    if n == 0 {
        return None;
    }
    // A few uniform samples first, so the usual case stays unbiased, then an
    // ordered walk so that a nearly full board still finds the one playable
    // point instead of giving up and passing.
    let mut tries: usize = 8;
    while tries > 0
        invariant
            tries <= 8,
            n > 0,
            n == empties@.len(),
            n <= 0x1_0000_0000,
            board@.wf(),
            forall|j: int|
                0 <= j < empties@.len() ==> board@.on_board(#[trigger] empties@[j] as int),
            sample(board@, empties@, colour, old(rng)@, 8) == sample(
                board@,
                empties@,
                colour,
                rng@,
                tries as nat,
            ),
        decreases tries,
    {
        let i: usize = rng.below(n);
        if playable(board, empties[i], colour) {
            return Some(empties[i]);
        }
        tries -= 1;
    }
    let start: usize = rng.below(n);
    let mut k: usize = 0;
    while k < n
        invariant
            k <= n,
            start < n,
            n == empties@.len(),
            n <= 0x1_0000_0000,
            board@.wf(),
            forall|j: int|
                0 <= j < empties@.len() ==> board@.on_board(#[trigger] empties@[j] as int),
            walk(board@, empties@, colour, start as int, 0) == walk(
                board@,
                empties@,
                colour,
                start as int,
                k as nat,
            ),
            (sample(board@, empties@, colour, old(rng)@, 8)).0 is None,
            rng@ == advance((sample(board@, empties@, colour, old(rng)@, 8)).1),
            start == pick(rng@, n as nat),
        decreases n - k,
    {
        let i: usize = if k < n - start {
            start + k
        } else {
            k - (n - start)
        };
        assert(i == turned(start as int, k as int, n as int));
        if playable(board, empties[i], colour) {
            return Some(empties[i]);
        }
        k += 1;
    }
    None
}

/// Takes the first `pt` out of the list, putting the last point in its place.
fn drop_point(empties: &mut Vec<Point>, pt: Point)
    ensures
        final(empties)@ == without_first(old(empties)@, pt),
        final(empties)@.len() <= old(empties)@.len(),
        forall|q: Point| #[trigger] final(empties)@.contains(q) ==> old(empties)@.contains(q),
{
    let mut i: usize = 0;
    proof {
        old(empties)@.index_of_first_ensures(pt);
    }
    while i < empties.len()
        invariant
            i <= empties.len(),
            empties@ == old(empties)@,
            forall|j: int| 0 <= j < i ==> #[trigger] empties@[j] != pt,
        decreases empties.len() - i,
    {
        if empties[i] == pt {
            let ghost was = empties@;
            proof {
                was.index_of_first_ensures(pt);
                assert(was.contains(pt)) by {
                    assert(was[i as int] == pt);
                }
            }
            empties.swap_remove(i);
            assert(empties@ =~= was.update(i as int, was.last()).drop_last());
            return;
        }
        i += 1;
    }
    assert(!empties@.contains(pt));
}

/// One move of a playout.
fn playout_move(
    board: &mut Board,
    rng: &mut Rng,
    seq: &mut Vec<(Point, Color)>,
    empties: &mut Vec<Point>,
    played: usize,
    percent: u32,
)
    requires
        old(board)@.wf(),
        old(board)@.passes < 2,
        load(old(board)@) < u32::MAX,
        old(empties)@.len() <= 0x1_0000_0000,
        all_on_board(old(board)@, old(empties)@),
        played > 0 ==> last_on_board(old(board)@),
    ensures
        ({
            let now = Playout {
                pos: old(board)@,
                rng: old(rng)@,
                moves: old(seq)@,
                empties: old(empties)@,
                played: played as nat,
            };
            let next = Playout {
                pos: final(board)@,
                rng: final(rng)@,
                moves: final(seq)@,
                empties: final(empties)@,
                played: played as nat + 1,
            };
            next == now.step(percent)
        }),
        final(board)@.wf(),
        final(board)@.size == old(board)@.size,
        load(final(board)@) <= load(old(board)@) + 1,
        final(empties)@.len() <= 0x1_0000_0000,
        all_on_board(final(board)@, final(empties)@),
        last_on_board(final(board)@),
        final(seq)@ == old(seq)@ || exists|pt: Point|
            final(seq)@ == old(seq)@.push((pt, old(board)@.to_move)) && #[trigger] rules::on_board(
                old(board)@.size,
                pt as int,
            ),
{
    let ghost now = Playout {
        pos: board@,
        rng: rng@,
        moves: seq@,
        empties: empties@,
        played: played as nat,
    };
    let colour: Color = board.to_move();
    let mut choice: Option<Move> = None;
    if rng.chance(percent) {
        choice = if played == 0 {
            // The position the playout starts from was handed to us, so an
            // atari in it was not created by the last move and the local
            // scan below would walk straight past it.
            atari_reply(board, colour)
        } else {
            match board.last_move() {
                Some(Move::Play(last)) => atari_answer(board, last, colour, rng),
                _ => None,
            }
        };
    }
    assert((choice, rng@) == now.forced(percent));
    let mv: Move = match choice {
        Some(mv) => mv,
        None => match find_point(board, empties, colour, rng) {
            Some(pt) => Move::Play(pt),
            None => Move::Pass,
        },
    };
    assert((mv, rng@) == now.choice(percent));
    let ghost before = board@;
    proof {
        board.lemma_ranges();
        lemma_load(before, mv);
    }
    let taken_before: u32 = board.prisoners(Color::Black) + board.prisoners(Color::White);
    match board.play(mv) {
        Err(_) => {
            let _ = board.play(Move::Pass);
        },
        Ok(()) => {
            if let Move::Play(pt) = mv {
                seq.push((pt, colour));
                assert(rules::on_board(before.size, pt as int));
                if board.prisoners(Color::Black) + board.prisoners(Color::White) != taken_before {
                    // A capture re-opens points, so the list has to be rebuilt.
                    list_empties(board, empties);
                } else {
                    let ghost was = empties@;
                    drop_point(empties, pt);
                    assert forall|j: int| 0 <= j < empties@.len() implies board@.on_board(
                        #[trigger] empties@[j] as int,
                    ) by {
                        assert(empties@.contains(empties@[j]));
                        let k = choose|k: int| 0 <= k < was.len() && was[k] == empties@[j];
                    }
                }
            }
        },
    }
}

/// A light playout: answer an atari next to the last move if there is one,
/// otherwise a random legal move that neither fills an own eye nor puts the new
/// chain straight into atari. Those two filters are what make random Go
/// terminate and what keep the estimate from being pure noise.
///
/// The empty points are carried in a list rather than found by scanning the
/// board each move.
pub fn playout(
    board: &mut Board,
    rng: &mut Rng,
    seq: &mut Vec<(Point, Color)>,
    empties: &mut Vec<Point>,
    params: &Params,
) -> (winner: Color)
    requires
        old(board)@.wf(),
        load(old(board)@) + old(board)@.size * old(board)@.size * 3 + 40 <= u32::MAX,
    ensures
        ({
            let end = Playout::from(old(board)@, old(rng)@, old(seq)@).finished(
                params.atari_answer_percent,
            );
            &&& final(board)@ == end.pos
            &&& final(rng)@ == end.rng
            &&& final(seq)@ == end.moves
            &&& final(empties)@ == end.empties
            &&& winner == winner_of(end.pos, params.komi)
        }),
        final(board)@.wf(),
        old(seq)@.len() <= final(seq)@.len(),
        final(seq)@.len() <= old(seq)@.len() + old(board)@.size * old(board)@.size * 3 + 40,
        forall|j: int| 0 <= j < old(seq)@.len() ==> #[trigger] final(seq)@[j] == old(seq)@[j],
        forall|j: int|
            old(seq)@.len() <= j < final(seq)@.len() ==> rules::on_board(
                old(board)@.size,
                (#[trigger] final(seq)@[j]).0 as int,
            ),
{
    list_empties(board, empties);
    let size: usize = board.size();
    assert(size * size <= 361) by (nonlinear_arith)
        requires
            size <= 19,
    ;
    let limit: usize = size * size * 3 + 40;
    let mut played: usize = 0;
    let percent: u32 = params.atari_answer_percent;
    let ghost start = Playout::from(board@, rng@, seq@);
    while board.passes() < 2 && played < limit
        invariant
            played <= limit,
            board@.wf(),
            board@.size == size,
            2 <= size <= 19,
            limit == size * size * 3 + 40,
            limit <= 1123,
            percent == params.atari_answer_percent,
            empties@.len() <= 0x1_0000_0000,
            all_on_board(board@, empties@),
            played > 0 ==> last_on_board(board@),
            old(seq)@.len() <= seq@.len() <= old(seq)@.len() + played,
            forall|j: int| 0 <= j < old(seq)@.len() ==> #[trigger] seq@[j] == old(seq)@[j],
            forall|j: int|
                old(seq)@.len() <= j < seq@.len() ==> rules::on_board(
                    size as int,
                    (#[trigger] seq@[j]).0 as int,
                ),
            load(board@) + (limit - played) <= u32::MAX,
            ({
                let now = Playout {
                    pos: board@,
                    rng: rng@,
                    moves: seq@,
                    empties: empties@,
                    played: played as nat,
                };
                start.finished(percent) == now.after(percent, (limit - played) as nat)
            }),
        decreases limit - played,
    {
        playout_move(board, rng, seq, empties, played, percent);
        played += 1;
    }
    if board.score_playout() > params.komi {
        Color::Black
    } else {
        Color::White
    }
}

/// A playout from a board on which every chain has a liberty goes through such
/// boards only.
pub proof fn law_playouts_keep_breath(start: Playout, percent: u32, n: nat)
    requires
        start.pos.wf(),
        rules::all_breathe(start.pos.cells),
    ensures
        start.after(percent, n).pos.wf(),
        rules::all_breathe(start.after(percent, n).pos.cells),
    decreases n,
{
    if n > 0 && !start.over() {
        let (mv, _) = start.choice(percent);
        laws::law_moves_keep_the_board_sound(start.pos, mv);
        if let Move::Play(pt) = mv {
            if start.pos.illegal(pt, start.pos.to_move) is None {
                laws::law_legal_play_keeps_breath(
                    start.pos.size,
                    start.pos.cells,
                    pt as int,
                    start.pos.to_move,
                );
            }
        }
        law_playouts_keep_breath(start.step(percent), percent, (n - 1) as nat);
    }
}

/// A move adds at most one to the stones and prisoners, and so fits the counters
/// where there is room for one more.
pub proof fn lemma_load(pos: Position, mv: Move)
    requires
        pos.wf(),
        0 <= pos.black_prisoners,
        0 <= pos.white_prisoners,
        mv matches Move::Play(pt) ==> pt < 441,
    ensures
        load(pos) >= pos.black_prisoners + pos.white_prisoners,
        pos.outcome(mv) matches Ok(next) ==> {
            &&& next.wf()
            &&& next.size == pos.size
            &&& load(next) <= load(pos) + 1
            &&& 0 <= next.black_prisoners
            &&& 0 <= next.white_prisoners
            &&& next.black_prisoners + next.white_prisoners <= load(next)
        },
        load(pos) < u32::MAX && pos.passes < u32::MAX ==> pos.has_room(mv),
{
    laws::lemma_stones_finite(pos.cells);
    laws::law_moves_keep_the_board_sound(pos, mv);
    if let Move::Play(pt) = mv {
        if pos.illegal(pt, pos.to_move) is None {
            laws::law_stones_are_conserved(pos, pt);
        }
    }
}

} // verus!
