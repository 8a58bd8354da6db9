//! What the rules promise of every position and every move.

use vstd::prelude::*;

use crate::board;
use crate::board::{Cell, Color, Illegal, Move, Point, Position};
use crate::rules;
use crate::zobrist;

verus! {

/// The points that hold stones.
pub open spec fn stones(cells: Seq<Cell>) -> Set<int> {
    Set::new(|p: int| 0 <= p < cells.len() && rules::is_stone(cells[p]))
}

/// A legal play leaves no chain without a liberty, if there was none before.
pub proof fn law_legal_play_keeps_breath(size: int, cells: Seq<Cell>, pt: int, c: Color)
    requires
        rules::framed(size, cells),
        rules::on_board(size, pt),
        cells[pt] == Cell::Empty,
        rules::all_breathe(cells),
        !rules::suicide(cells, pt, c),
    ensures
        rules::all_breathe(rules::after(cells, pt, c)),
{
    let placed = rules::place(cells, pt, c);
    let gone = rules::prisoners_of(cells, pt, c);
    let after = rules::after(cells, pt, c);
    rules::lemma_after_own(size, cells, pt, c);
    rules::lemma_captures(size, placed, pt, c);
    assert forall|p: int| 0 <= p < after.len() && rules::is_stone(#[trigger] after[p]) implies rules::breathes(
        after,
        p,
    ) by {
        if rules::connected(after, pt, p) {
            rules::lemma_chain_same(size, after, pt, p);
            let q = choose|q: int| rules::liberty(after, pt, q);
            assert(rules::liberties(after, pt).contains(q));
            assert(rules::liberty(after, p, q));
        } else {
            assert(p != pt) by {
                rules::lemma_connected_refl(after, pt);
            }
            assert(!gone.contains(p));
            assert(cells[p] == after[p] && placed[p] == after[p]);
            rules::lemma_lift(size, placed, gone, p);
            let q = choose|q: int| rules::liberty(cells, p, q);
            assert(rules::liberty(cells, p, q));
            if cells[p] == c.spec_cell() {
                lemma_bystander(size, cells, pt, c, p);
                assert(rules::liberty(placed, p, q));
                assert(rules::liberty(after, p, q));
            } else {
                rules::lemma_place_enemy(size, cells, pt, c, p);
                if rules::liberties(cells, p).remove(pt).is_empty() {
                    let r = choose|r: int|
                        rules::connected(cells, p, r) && #[trigger] rules::adjacent(r, q);
                    assert(rules::liberties(cells, p).contains(q));
                    assert(q == pt) by {
                        if q != pt {
                            assert(rules::liberties(cells, p).remove(pt).contains(q));
                        }
                    }
                    assert(rules::chain(placed, p).contains(r));
                    rules::lemma_chain_inside(size, cells, p);
                    rules::lemma_connected_sym(size, placed, p, r);
                    assert(rules::adjacent(pt, r) && rules::connected(placed, r, p));
                    assert(!rules::breathes(placed, p)) by {
                        if rules::breathes(placed, p) {
                            let s = choose|s: int| rules::liberty(placed, p, s);
                            assert(rules::liberties(placed, p).contains(s));
                        }
                    }
                    assert(gone.contains(p));
                } else {
                    let s = choose|s: int| rules::liberties(cells, p).remove(pt).contains(s);
                    assert(rules::liberties(placed, p).contains(s));
                    assert(rules::liberty(placed, p, s));
                    assert(rules::liberty(after, p, s));
                }
            }
        }
    }
}

/// A friendly chain that does not come to include the new stone is left as it
/// was, liberties and all.
proof fn lemma_bystander(size: int, cells: Seq<Cell>, pt: int, c: Color, p: int)
    requires
        rules::framed(size, cells),
        rules::on_board(size, pt),
        cells[pt] == Cell::Empty,
        0 <= p < 441,
        p != pt,
        cells[p] == c.spec_cell(),
        !rules::connected(rules::after(cells, pt, c), pt, p),
    ensures
        forall|q: int| #[trigger]
            rules::liberty(cells, p, q) ==> rules::liberty(rules::place(cells, pt, c), p, q),
{
    let placed = rules::place(cells, pt, c);
    rules::lemma_after_own(size, cells, pt, c);
    assert(!rules::connected(placed, pt, p)) by {
        assert(rules::chain(placed, pt).contains(p) == rules::chain(
            rules::after(cells, pt, c),
            pt,
        ).contains(p));
    }
    rules::lemma_place_own(size, cells, pt, c);
    rules::lemma_chain_inside(size, cells, p);
    assert forall|r: int| #[trigger] rules::connected(cells, p, r) implies !rules::adjacent(
        r,
        pt,
    ) by {
        if rules::adjacent(r, pt) {
            assert(rules::friend(cells, pt, c, r));
            rules::lemma_connected_sym(size, cells, p, r);
            assert(rules::connected(placed, pt, p));
        }
    }
    rules::lemma_chain_local(size, cells, placed, p);
    assert forall|q: int| #[trigger] rules::liberty(cells, p, q) implies rules::liberty(
        placed,
        p,
        q,
    ) by {
        let r = choose|r: int| rules::connected(cells, p, r) && #[trigger] rules::adjacent(r, q);
        assert(rules::chain(placed, p).contains(r));
        assert(rules::connected(placed, p, r) && rules::adjacent(r, q));
        assert(q != pt);
    }
}

/// Taking one stone off leaves no chain without a liberty, if there was none
/// before.
pub proof fn law_removal_keeps_breath(size: int, cells: Seq<Cell>, pt: int)
    requires
        rules::framed(size, cells),
        rules::on_board(size, pt),
        rules::is_stone(cells[pt]),
        rules::all_breathe(cells),
    ensures
        rules::all_breathe(cells.update(pt, Cell::Empty)),
{
    let less = cells.update(pt, Cell::Empty);
    assert(rules::framed(size, less)) by {
        assert forall|q: int| 0 <= q < 441 implies ((#[trigger] less[q] != Cell::Border)
            <==> rules::on_board(size, q)) by {
            assert((cells[q] != Cell::Border) <==> rules::on_board(size, q));
        }
    }
    lemma_part_breathes(size, cells, less);
}

/// Is `part` the board `whole` with some of its stones missing?
pub open spec fn part_of(part: Seq<Cell>, whole: Seq<Cell>) -> bool {
    &&& part.len() == whole.len()
    &&& forall|q: int|
        0 <= q < part.len() && #[trigger] part[q] != whole[q] ==> part[q] == Cell::Empty
            && rules::is_stone(whole[q])
}

/// A board that lacks some stones of a board on which every chain has a liberty
/// has a liberty for every chain as well: a chain that is whole keeps the
/// liberties it has there, and a chain that is not has the points that its own
/// missing stones leave open.
proof fn lemma_part_breathes(size: int, whole: Seq<Cell>, part: Seq<Cell>)
    requires
        rules::framed(size, whole),
        rules::framed(size, part),
        rules::all_breathe(whole),
        part_of(part, whole),
    ensures
        rules::all_breathe(part),
{
    assert forall|p: int| 0 <= p < part.len() && rules::is_stone(#[trigger] part[p]) implies rules::breathes(
        part,
        p,
    ) by {
        let s = rules::chain(part, p);
        rules::lemma_chain_closed(part, p);
        rules::lemma_chain_inside(size, part, p);
        assert(whole[p] == part[p]);
        if rules::closed(whole, s) {
            rules::lemma_connected_within(whole, p, s);
            let q = choose|q: int| rules::liberty(whole, p, q);
            let r = choose|r: int|
                rules::connected(whole, p, r) && #[trigger] rules::adjacent(r, q);
            assert(s.contains(r));
            assert(rules::connected(part, p, r) && rules::adjacent(r, q));
            assert(part[q] == Cell::Empty) by {
                if part[q] != whole[q] {
                    assert(part[q] == Cell::Empty);
                }
            }
            assert(rules::liberty(part, p, q));
        } else {
            let (a, b) = choose|a: int, b: int|
                #![trigger s.contains(a), rules::linked(whole, a, b)]
                s.contains(a) && rules::linked(whole, a, b) && !s.contains(b);
            assert(rules::connected(part, p, a));
            assert(whole[a] == part[a]) by {
                if part[a] != whole[a] {
                    assert(part[a] == Cell::Empty);
                }
            }
            assert(part[b] == Cell::Empty) by {
                if part[b] == whole[b] {
                    assert(rules::linked(part, a, b));
                }
            }
            assert(rules::adjacent(a, b));
            assert(rules::liberty(part, p, b));
        }
    }
}

/// A position may be built stone by stone, in any order, by playing: while the
/// board holds only stones of a position in which every chain has a liberty, any
/// of the missing stones may be played, and playing it takes nothing.
pub proof fn law_missing_stone_may_be_played(
    size: int,
    whole: Seq<Cell>,
    part: Seq<Cell>,
    pt: int,
    c: Color,
)
    requires
        rules::framed(size, whole),
        rules::framed(size, part),
        rules::all_breathe(whole),
        part_of(part, whole),
        rules::on_board(size, pt),
        part[pt] == Cell::Empty,
        whole[pt] == c.spec_cell(),
    ensures
        !rules::suicide(part, pt, c),
        rules::prisoners_of(part, pt, c) == Set::<int>::empty(),
        rules::after(part, pt, c) == part.update(pt, c.spec_cell()),
        part_of(rules::after(part, pt, c), whole),
{
    let placed = rules::place(part, pt, c);
    rules::lemma_place_framed(size, part, pt, c);
    assert(part_of(placed, whole)) by {
        assert forall|q: int| 0 <= q < placed.len() && #[trigger] placed[q] != whole[q] implies placed[q]
            == Cell::Empty && rules::is_stone(whole[q]) by {
            assert(q != pt);
            assert(part[q] != whole[q]);
        }
    }
    lemma_part_breathes(size, whole, placed);
    assert forall|q: int| !rules::prisoners_of(part, pt, c).contains(q) by {
        if rules::captured(placed, pt, c, q) {
            assert(rules::is_stone(placed[q]));
        }
    }
    assert(rules::prisoners_of(part, pt, c) =~= Set::<int>::empty());
    rules::lemma_after_own(size, part, pt, c);
    assert(rules::is_stone(placed[pt]));
}

/// The position in which the side to move stands where `target` has a stone on
/// the `k`-th point, and has played it; unchanged where `target` has none there.
pub open spec fn replay_step(pos: Position, target: Seq<Cell>, k: int) -> Result<
    Position,
    Illegal,
> {
    let pt = board::points_of(pos.size)[k];
    let colour = if target[pt as int] == Cell::Black {
        Color::Black
    } else {
        Color::White
    };
    if rules::is_stone(target[pt as int]) {
        (Position { to_move: colour, ko: None, ..pos }).outcome(Move::Play(pt))
    } else {
        Ok(pos)
    }
}

/// The outcome of replaying the first `n` points of `target` from `start`: each
/// stone played in row-major order by its own colour.
pub open spec fn replay(start: Position, target: Seq<Cell>, n: nat) -> Result<Position, Illegal>
    decreases n,
{
    if n == 0 {
        Ok(start)
    } else {
        match replay(start, target, (n - 1) as nat) {
            Ok(pos) => replay_step(pos, target, n - 1),
            Err(why) => Err(why),
        }
    }
}

/// Is the point `q` one of the first `n` points of the board?
pub open spec fn listed(size: int, n: int, q: int) -> bool {
    exists|k: int| 0 <= k < n && #[trigger] board::points_of(size)[k] == q
}

/// What a replay has built after `n` points: the stones of `target` on those
/// points and nothing else.
pub proof fn lemma_replay(start: Position, target: Seq<Cell>, n: nat)
    requires
        start.wf(),
        rules::framed(start.size, target),
        rules::all_breathe(target),
        stones(start.cells) == Set::<int>::empty(),
        n <= start.size * start.size,
    ensures
        ({
            &&& replay(start, target, n) matches Ok(pos)
            &&& pos.size == start.size
            &&& pos.wf()
            &&& pos.black_prisoners == start.black_prisoners
            &&& pos.white_prisoners == start.white_prisoners
            &&& forall|q: int|
                0 <= q < 441 ==> #[trigger] pos.cells[q] == if listed(start.size, n as int, q) {
                    target[q]
                } else {
                    start.cells[q]
                }
        }),
    decreases n,
{
    let size = start.size;
    if n > 0 {
        lemma_replay(start, target, (n - 1) as nat);
        let k = n - 1;
        let pos = replay(start, target, k as nat)->Ok_0;
        let pt = board::points_of(size)[k];
        let p = pt as int;
        board::lemma_points_on_board(size, k);
        assert forall|q: int| 0 <= q < 441 implies (rules::is_stone(#[trigger] start.cells[q])
            == false) by {
            if rules::is_stone(start.cells[q]) {
                assert(stones(start.cells).contains(q));
            }
        }
        assert(!listed(size, k, p)) by {
            if listed(size, k, p) {
                let j = choose|j: int| 0 <= j < k && #[trigger] board::points_of(size)[j] == p;
                board::lemma_points_distinct(size, j, k);
            }
        }
        assert(pos.cells[p] == start.cells[p]);
        assert((start.cells[p] != Cell::Border) <==> rules::on_board(size, p));
        assert(start.cells[p] == Cell::Empty);
        assert(part_of(pos.cells, target)) by {
            assert forall|q: int|
                0 <= q < pos.cells.len() && #[trigger] pos.cells[q] != target[q] implies pos.cells[q]
                == Cell::Empty && rules::is_stone(target[q]) by {
                assert((start.cells[q] != Cell::Border) <==> rules::on_board(size, q));
                assert((target[q] != Cell::Border) <==> rules::on_board(size, q));
            }
        }
        let next = replay_step(pos, target, k);
        if rules::is_stone(target[p]) {
            let colour = if target[p] == Cell::Black {
                Color::Black
            } else {
                Color::White
            };
            let turned = Position { to_move: colour, ko: None, ..pos };
            law_missing_stone_may_be_played(size, target, pos.cells, p, colour);
            rules::lemma_after_own(size, pos.cells, p, colour);
            assert(turned.illegal(pt, colour) is None);
            assert(next == Ok::<Position, Illegal>(turned.after_stone(pt)));
        }
        let built = next->Ok_0;
        assert forall|q: int| 0 <= q < 441 implies #[trigger] built.cells[q] == if listed(
            size,
            n as int,
            q,
        ) {
            target[q]
        } else {
            start.cells[q]
        } by {
            if q == p {
                assert(board::points_of(size)[k] == q);
                assert(listed(size, n as int, q));
                assert((target[p] != Cell::Border) <==> rules::on_board(size, p));
            } else {
                assert(built.cells[q] == pos.cells[q]);
                if listed(size, n as int, q) {
                    let j = choose|j: int| 0 <= j < n && #[trigger] board::points_of(size)[j] == q;
                    assert(j < k);
                    assert(listed(size, k, q));
                }
                if listed(size, k, q) {
                    let j = choose|j: int| 0 <= j < k && #[trigger] board::points_of(size)[j] == q;
                    assert(0 <= j < n && board::points_of(size)[j] == q);
                }
            }
        }
    }
}

/// A board without the chains that had no liberty has no such chain left; the other
/// stones stand as they did, and a board without such chains is left alone.
pub proof fn law_settled_boards_breathe(pos: Position)
    requires
        pos.wf(),
    ensures
        pos.settled().wf(),
        rules::all_breathe(pos.settled().cells),
        part_of(pos.settled().cells, pos.cells),
        forall|p: int|
            0 <= p < 441 && rules::is_stone(pos.cells[p]) ==> (
            #[trigger] pos.settled().cells[p] == pos.cells[p] <==> rules::breathes(pos.cells, p)),
        rules::all_breathe(pos.cells) ==> pos.settled() == pos,
{
    let size = pos.size;
    let cells = pos.cells;
    let gone = rules::breathless(cells);
    let rest = pos.settled().cells;
    assert forall|p: int, q: int|
        #![trigger gone.contains(p), rules::linked(cells, p, q)]
        gone.contains(p) && rules::linked(cells, p, q) implies gone.contains(q) by {
        rules::lemma_connected_refl(cells, p);
        rules::lemma_connected_step(cells, p, p, q);
        rules::lemma_chain_same(size, cells, p, q);
        if rules::breathes(cells, q) {
            let x = choose|x: int| rules::liberty(cells, q, x);
            assert(rules::liberties(cells, q).contains(x));
            assert(rules::liberty(cells, p, x));
        }
    }
    assert(rules::closed(cells, gone));
    assert(rules::framed(size, rest)) by {
        assert forall|q: int| 0 <= q < 441 implies ((#[trigger] rest[q] != Cell::Border)
            <==> rules::on_board(size, q)) by {
            assert((cells[q] != Cell::Border) <==> rules::on_board(size, q));
        }
    }
    assert forall|p: int| 0 <= p < rest.len() && rules::is_stone(#[trigger] rest[p]) implies rules::breathes(
        rest,
        p,
    ) by {
        assert(!gone.contains(p));
        rules::lemma_lift(size, cells, gone, p);
        let x = choose|x: int| rules::liberty(cells, p, x);
        assert(rules::liberty(cells, p, x));
        assert(rules::liberty(rest, p, x));
    }
    if rules::all_breathe(cells) {
        assert forall|p: int| !gone.contains(p) by {
            if gone.contains(p) {
                assert(rules::is_stone(cells[p]));
            }
        }
        assert(rest =~= cells);
    }
}

/// A board on which every chain has a liberty is never full.
pub proof fn law_breathing_boards_have_room(pos: Position)
    requires
        pos.wf(),
        rules::all_breathe(pos.cells),
    ensures
        !pos.is_full(),
{
    let p = rules::point_at(0, 0);
    assert(pos.on_board(p));
    if pos.cells[p] != Cell::Empty {
        assert(rules::is_stone(pos.cells[p]));
        let q = choose|q: int| rules::liberty(pos.cells, p, q);
        assert(pos.on_board(q) && pos.cells[q] == Cell::Empty);
    }
}

/// A position in which every chain has a liberty survives being replayed point by
/// point onto an empty board: every stone may be played, none is taken, and what
/// stands at the end is the position, with its hash.
pub proof fn law_replay_rebuilds_position(start: Position, target: Position)
    requires
        start.wf(),
        target.wf(),
        start.size == target.size,
        stones(start.cells) == Set::<int>::empty(),
        rules::all_breathe(target.cells),
    ensures
        ({
            &&& replay(start, target.cells, (start.size * start.size) as nat) matches Ok(pos)
            &&& pos.cells == target.cells
            &&& pos.hash == target.hash
            &&& pos.black_prisoners == start.black_prisoners
            &&& pos.white_prisoners == start.white_prisoners
        }),
{
    let size = start.size;
    let n = size * size;
    assert(0 <= n) by (nonlinear_arith)
        requires
            n == size * size,
    ;
    lemma_replay(start, target.cells, n as nat);
    let pos = replay(start, target.cells, n as nat)->Ok_0;
    assert forall|q: int| 0 <= q < 441 implies pos.cells[q] == target.cells[q] by {
        assert((start.cells[q] != Cell::Border) <==> rules::on_board(size, q));
        assert((target.cells[q] != Cell::Border) <==> rules::on_board(size, q));
        if rules::on_board(size, q) {
            board::lemma_points_cover(size, q);
            assert(listed(size, n, q));
        }
    }
    assert(pos.cells =~= target.cells);
}

/// Stones are neither made nor lost: a play adds its own stone and turns the
/// stones it takes into prisoners.
pub proof fn law_stones_are_conserved(pos: Position, pt: Point)
    requires
        pos.wf(),
        pos.illegal(pt, pos.to_move) is None,
    ensures
        ({
            let next = pos.after_stone(pt);
            &&& stones(pos.cells).finite()
            &&& stones(next.cells).finite()
            &&& stones(pos.cells).len() + pos.black_prisoners + pos.white_prisoners + 1 == stones(
                next.cells,
            ).len() + next.black_prisoners + next.white_prisoners
        }),
{
    let c = pos.to_move;
    let p = pt as int;
    let placed = rules::place(pos.cells, p, c);
    let taken = rules::prisoners_of(pos.cells, p, c);
    let next = pos.after_stone(pt);
    rules::lemma_place_framed(pos.size, pos.cells, p, c);
    rules::lemma_captures(pos.size, placed, p, c);
    lemma_stones_finite(pos.cells);
    lemma_stones_finite(next.cells);
    assert(stones(placed) =~= stones(pos.cells).insert(p));
    assert(taken.subset_of(stones(placed)));
    assert(stones(next.cells) =~= stones(placed).difference(taken));
    assert(stones(placed) =~= stones(next.cells).union(taken));
    vstd::set_lib::lemma_set_disjoint_lens(stones(next.cells), taken);
}

pub proof fn lemma_stones_finite(cells: Seq<Cell>)
    requires
        cells.len() == 441,
    ensures
        stones(cells).finite(),
        stones(cells).len() <= 441,
{
    let all = vstd::set_lib::set_int_range(0, 441);
    vstd::set_lib::lemma_int_range(0, 441);
    assert(stones(cells).subset_of(all));
    vstd::set_lib::lemma_len_subset(stones(cells), all);
}

/// The hash is a matter of the stones alone: two boards that hold the same stones
/// have the same hash, whoever is to move and however they came about.
pub proof fn law_same_stones_same_hash(a: Position, b: Position)
    requires
        a.wf(),
        b.wf(),
        a.cells == b.cells,
    ensures
        a.hash == b.hash,
{
}

/// A play at an empty point is a self-atari exactly when it takes nothing and
/// leaves the chain that it makes with fewer than two liberties.
pub proof fn law_self_atari_is_what_the_play_leaves(size: int, cells: Seq<Cell>, pt: int, c: Color)
    requires
        rules::framed(size, cells),
        rules::on_board(size, pt),
        cells[pt] == Cell::Empty,
    ensures
        rules::self_atari(cells, pt, c) <==> {
            &&& rules::prisoners_of(cells, pt, c) == Set::<int>::empty()
            &&& rules::liberties(rules::after(cells, pt, c), pt).len() < 2
        },
{
    let taken = rules::prisoners_of(cells, pt, c);
    rules::lemma_takes(size, cells, pt, c);
    assert forall|n: int| #[trigger]
        rules::atari_neighbour(cells, pt, c, n) == (rules::friend(cells, pt, c.spec_other(), n)
            && rules::liberties(cells, n) == set![pt]) by {
        if rules::friend(cells, pt, c.spec_other(), n) {
            rules::lemma_chain_finite(size, cells, n);
            rules::lemma_connected_refl(cells, n);
            assert(rules::adjacent(n, pt));
            assert(rules::liberties(cells, n).contains(pt));
            if rules::liberties(cells, n).len() == 1 {
                let rest = rules::liberties(cells, n).remove(pt);
                assert(rest.len() == 0);
                assert(rest =~= Set::<int>::empty());
                assert(rules::liberties(cells, n) =~= set![pt]);
            }
            if rules::liberties(cells, n) == set![pt] {
                assert(set![pt].len() == 1);
            }
        }
    }
    if taken == Set::<int>::empty() {
        rules::lemma_after_own(size, cells, pt, c);
        rules::lemma_place_own(size, cells, pt, c);
        let made = rules::liberties(rules::after(cells, pt, c), pt);
        let joint = rules::joint_liberties(cells, pt, c);
        assert forall|q: int| made.contains(q) == joint.contains(q) by {
            assert(made.contains(q) == rules::liberty(rules::place(cells, pt, c), pt, q));
        }
        assert(made =~= joint);
        assert forall|n: int| !(#[trigger] rules::atari_neighbour(cells, pt, c, n)) by {}
    } else {
        let n = choose|n: int| #[trigger]
            rules::friend(cells, pt, c.spec_other(), n) && rules::liberties(cells, n) == set![pt];
        assert(rules::atari_neighbour(cells, pt, c, n));
    }
}

/// A ko point is where the one stone that the last play took had stood: it is
/// empty, and neither colour is allowed to play there now.
pub proof fn law_ko_forbids_the_retake(pos: Position, pt: Point, c: Color)
    requires
        pos.wf(),
        pos.illegal(pt, pos.to_move) is None,
        pos.after_stone(pt).ko is Some,
    ensures
        ({
            let next = pos.after_stone(pt);
            let ko = next.ko->0;
            &&& rules::prisoners_of(pos.cells, pt as int, pos.to_move) == set![ko as int]
            &&& next.cells[ko as int] == Cell::Empty
            &&& next.illegal(ko, c) == Some(Illegal::Ko)
        }),
{
    let taken = rules::prisoners_of(pos.cells, pt as int, pos.to_move);
    let placed = rules::place(pos.cells, pt as int, pos.to_move);
    let next = pos.after_stone(pt);
    rules::lemma_place_framed(pos.size, pos.cells, pt as int, pos.to_move);
    rules::lemma_captures(pos.size, placed, pt as int, pos.to_move);
    let q = taken.choose();
    assert(taken.contains(q));
    let rest = taken.remove(q);
    assert(rest.len() == 0);
    assert(rest =~= Set::<int>::empty());
    assert(taken =~= set![q]);
    assert((placed[q] != Cell::Border) <==> rules::on_board(pos.size, q));
}

/// What a ko forbids is a repetition: taking straight back at the ko point would
/// leave exactly the stones that stood before the ko was taken.
pub proof fn law_ko_retake_would_repeat(pos: Position, pt: Point)
    requires
        pos.wf(),
        rules::all_breathe(pos.cells),
        pos.illegal(pt, pos.to_move) is None,
        pos.after_stone(pt).ko is Some,
    ensures
        ({
            let next = pos.after_stone(pt);
            rules::after(next.cells, next.ko->0 as int, next.to_move) == pos.cells
        }),
{
    let size = pos.size;
    let cells = pos.cells;
    let c = pos.to_move;
    let other = c.spec_other();
    let p = pt as int;
    let next = pos.after_stone(pt);
    let after = next.cells;
    let placed = rules::place(cells, p, c);
    let k = next.ko->0 as int;
    let gone = rules::prisoners_of(cells, p, c);
    law_ko_forbids_the_retake(pos, pt, c);
    rules::lemma_after_own(size, cells, p, c);
    rules::lemma_captures(size, placed, p, c);
    assert(gone.contains(k));
    // The taken stone stood next to the stone that took it.
    assert(rules::adjacent(p, k)) by {
        let n = choose|n: int| #[trigger]
            rules::adjacent(p, n) && 0 <= n < placed.len() && rules::connected(placed, n, k);
        rules::lemma_connected_sym(size, placed, n, k);
        rules::lemma_connected_within(placed, k, gone);
        assert(gone.contains(n));
    }
    rules::lemma_chain_finite(size, after, p);
    rules::lemma_connected_refl(after, p);
    assert(rules::chain(after, p) =~= set![p]) by {
        let rest = rules::chain(after, p).remove(p);
        assert(rules::chain(after, p).contains(p));
        assert(rest.len() == 0);
        assert(rest =~= Set::<int>::empty());
    }
    assert(rules::liberties(after, p) =~= set![k]) by {
        assert(rules::liberty(after, p, k));
        let rest = rules::liberties(after, p).remove(k);
        assert(rules::liberties(after, p).contains(k));
        assert(rest.len() == 0);
        assert(rest =~= Set::<int>::empty());
    }
    let retaken = rules::place(after, k, other);
    let back = rules::prisoners_of(after, k, other);
    rules::lemma_place_framed(size, after, k, other);
    assert(other.spec_other() == c);
    assert(back =~= set![p]) by {
        assert(back.contains(p)) by {
            rules::lemma_place_enemy(size, after, k, other, p);
            rules::lemma_connected_refl(retaken, p);
            assert(rules::adjacent(k, p));
            assert(!rules::breathes(retaken, p)) by {
                if rules::breathes(retaken, p) {
                    let s = choose|s: int| rules::liberty(retaken, p, s);
                    assert(rules::liberties(retaken, p).contains(s));
                }
            }
        }
        assert forall|q: int| back.contains(q) implies q == p by {
            if q != p {
                assert(cells[q] == c.spec_cell() && after[q] == c.spec_cell());
                assert(!rules::connected(after, p, q)) by {
                    assert(rules::chain(after, p).contains(q) == set![p].contains(q));
                }
                lemma_bystander(size, cells, p, c, q);
                let s = choose|s: int| rules::liberty(cells, q, s);
                assert(rules::liberty(cells, q, s));
                assert(rules::liberty(placed, q, s));
                rules::lemma_lift(size, placed, gone, q);
                assert(rules::liberty(after, q, s));
                rules::lemma_place_enemy(size, after, k, other, q);
                assert(rules::liberties(after, q).contains(s));
                assert(s != k);
                assert(rules::liberties(retaken, q).contains(s));
                assert(rules::liberty(retaken, q, s));
            }
        }
    }
    assert(rules::after(after, k, other) =~= cells);
}

/// A ko lasts for one move: a pass leaves none, and a play leaves only the ko of
/// its own making.
pub proof fn law_ko_lasts_one_move(pos: Position, mv: Move)
    ensures
        pos.outcome(mv) matches Ok(next) ==> next.ko == match mv {
            Move::Play(pt) => (Position { ko: None, ..pos }).ko_after(pt),
            _ => None,
        },
{
}

/// Every point is named by its column and row, and by no other pair.
pub proof fn law_points_and_coordinates_are_inverse(size: int, p: int, x: int, y: int)
    requires
        2 <= size <= 19,
        0 <= x < size,
        0 <= y < size,
    ensures
        rules::on_board(size, rules::point_at(x, y)),
        rules::point_at(x, y) % 21 - 1 == x,
        rules::point_at(x, y) / 21 - 1 == y,
        rules::on_board(size, p) ==> rules::point_at(p % 21 - 1, p / 21 - 1) == p,
{
}

/// A move that the rules allow leaves a framed board whose hash is still that of
/// the stones on it.
pub proof fn law_moves_keep_the_board_sound(pos: Position, mv: Move)
    requires
        pos.wf(),
    ensures
        pos.outcome(mv) matches Ok(next) ==> next.wf() && next.hash == zobrist::position_hash(
            next.cells,
        ),
{
    if let Move::Play(pt) = mv {
        if pos.illegal(pt, pos.to_move) is None {
            rules::lemma_after_own(pos.size, pos.cells, pt as int, pos.to_move);
        }
    }
}

/// How many of the four diagonal neighbours of `p` hold `who`.
pub open spec fn diagonals_with(cells: Seq<Cell>, p: int, who: Cell) -> int {
    (if cells[p - 22] == who {
        1int
    } else {
        0
    }) + (if cells[p - 20] == who {
        1int
    } else {
        0
    }) + (if cells[p + 20] == who {
        1int
    } else {
        0
    }) + (if cells[p + 22] == who {
        1int
    } else {
        0
    })
}

proof fn lemma_diagonals(cells: Seq<Cell>, p: int, who: Cell)
    ensures
        Set::new(|d: int| rules::diagonal(p, d) && cells[d] == who).finite(),
        Set::new(|d: int| rules::diagonal(p, d) && cells[d] == who).len() == diagonals_with(
            cells,
            p,
            who,
        ),
{
    let all = Set::new(|d: int| rules::diagonal(p, d) && cells[d] == who);
    let none = Set::<int>::empty();
    let a = if cells[p - 22] == who {
        none.insert(p - 22)
    } else {
        none
    };
    let b = if cells[p - 20] == who {
        a.insert(p - 20)
    } else {
        a
    };
    let c = if cells[p + 20] == who {
        b.insert(p + 20)
    } else {
        b
    };
    let d = if cells[p + 22] == who {
        c.insert(p + 22)
    } else {
        c
    };
    assert(all =~= d);
}

/// An eye is an empty point all of whose neighbours on the board are stones of its
/// owner. In the middle of the board one of its diagonal neighbours may be the other
/// side's; at the edge none.
pub proof fn law_eyes_are_surrounded(size: int, cells: Seq<Cell>, x: int, y: int, c: Color)
    requires
        rules::framed(size, cells),
        0 <= x < size,
        0 <= y < size,
    ensures
        ({
            let p = 21 * (y + 1) + (x + 1);
            let mine = |n: int| cells[n] == c.spec_cell() || cells[n] == Cell::Border;
            let hostile = diagonals_with(cells, p, c.spec_other().spec_cell());
            let at_edge = x == 0 || y == 0 || x == size - 1 || y == size - 1;
            rules::eyelike(cells, p, c) <==> {
                &&& cells[p] == Cell::Empty
                &&& mine(p - 1) && mine(p + 1) && mine(p - 21) && mine(p + 21)
                &&& hostile <= if at_edge {
                    0int
                } else {
                    1
                }
            }
        }),
{
    let p = 21 * (y + 1) + (x + 1);
    let who = c.spec_other().spec_cell();
    lemma_diagonals(cells, p, who);
    let at_edge = x == 0 || y == 0 || x == size - 1 || y == size - 1;
    let border = exists|d: int| #[trigger] rules::diagonal(p, d) && cells[d] == Cell::Border;
    assert(border == at_edge) by {
        assert(rules::diagonal(p, p - 22) && rules::diagonal(p, p - 20) && rules::diagonal(p, p + 20)
            && rules::diagonal(p, p + 22));
        assert((cells[p - 22] != Cell::Border) <==> rules::on_board(size, p - 22));
        assert((cells[p - 20] != Cell::Border) <==> rules::on_board(size, p - 20));
        assert((cells[p + 20] != Cell::Border) <==> rules::on_board(size, p + 20));
        assert((cells[p + 22] != Cell::Border) <==> rules::on_board(size, p + 22));
    }
    assert(rules::adjacent(p, p - 1) && rules::adjacent(p, p + 1) && rules::adjacent(p, p - 21)
        && rules::adjacent(p, p + 21));
}

/// A stone takes exactly what it suffocates: where every chain has a liberty before it
/// is put down, the stones that it takes are those of the other side whose chain has
/// none after, no others.
pub proof fn law_a_stone_takes_what_it_suffocates(
    size: int,
    cells: Seq<Cell>,
    pt: int,
    c: Color,
    q: int,
)
    requires
        rules::framed(size, cells),
        rules::on_board(size, pt),
        cells[pt] == Cell::Empty,
        rules::all_breathe(cells),
        0 <= q < 441,
    ensures
        rules::prisoners_of(cells, pt, c).contains(q) <==> cells[q] == c.spec_other().spec_cell()
            && !rules::breathes(rules::place(cells, pt, c), q),
        rules::after(cells, pt, c)[q] == if q == pt {
            c.spec_cell()
        } else if cells[q] == c.spec_other().spec_cell() && !rules::breathes(
            rules::place(cells, pt, c),
            q,
        ) {
            Cell::Empty
        } else {
            cells[q]
        },
{
    let placed = rules::place(cells, pt, c);
    let enemy = c.spec_other().spec_cell();
    rules::lemma_after_own(size, cells, pt, c);
    if cells[q] == enemy && !rules::breathes(placed, q) {
        let s = rules::chain(placed, q);
        rules::lemma_chain_closed(placed, q);
        rules::lemma_chain_inside(size, placed, q);
        assert forall|a: int, b: int|
            #![trigger s.contains(a), rules::linked(cells, a, b)]
            s.contains(a) && rules::linked(cells, a, b) implies s.contains(b) by {
            assert(placed[a] == enemy);
            assert(a != pt);
            assert(cells[a] == enemy);
            assert(rules::linked(placed, a, b));
        }
        assert(rules::closed(cells, s));
        rules::lemma_connected_refl(placed, q);
        rules::lemma_connected_within(cells, q, s);
        let x = choose|x: int| rules::liberty(cells, q, x);
        let r = choose|r: int| rules::connected(cells, q, r) && #[trigger] rules::adjacent(r, x);
        assert(s.contains(r));
        if x != pt {
            assert(rules::connected(placed, q, r) && rules::adjacent(r, x));
            assert(rules::liberty(placed, q, x));
        }
        rules::lemma_chain_same(size, placed, q, r);
        rules::lemma_connected_refl(placed, q);
        assert(rules::chain(placed, q).contains(q));
        assert(rules::connected(placed, r, q));
        assert(rules::adjacent(pt, r));
        assert(rules::captured(placed, pt, c, q));
    }
}

/// After a play it is the other side's turn, nobody has passed, and the stones that
/// were taken are prisoners of the side that took them; a pass takes none.
pub proof fn law_prisoners_go_to_the_captor(pos: Position, pt: Point, mv: Move)
    requires
        mv !is Play,
    ensures
        ({
            let c = pos.to_move;
            let next = pos.after_stone(pt);
            let taken = rules::prisoners_of(pos.cells, pt as int, c).len() as int;
            &&& next.to_move == c.spec_other()
            &&& next.passes == 0
            &&& next.last_move == Some(Move::Play(pt))
            &&& next.size == pos.size
            &&& c == Color::Black ==> next.black_prisoners == pos.black_prisoners + taken
                && next.white_prisoners == pos.white_prisoners
            &&& c == Color::White ==> next.white_prisoners == pos.white_prisoners + taken
                && next.black_prisoners == pos.black_prisoners
        }),
        ({
            let next = pos.outcome(mv)->Ok_0;
            &&& pos.outcome(mv) is Ok
            &&& next.cells == pos.cells
            &&& next.hash == pos.hash
            &&& next.to_move == pos.to_move.spec_other()
            &&& next.passes == pos.passes + 1
            &&& next.ko is None
            &&& next.black_prisoners == pos.black_prisoners
            &&& next.white_prisoners == pos.white_prisoners
        }),
{
}

/// A play is refused for the first of these that holds: the point is off the board, it
/// is taken, it is the ko point, or the stone would have no liberty even after what it
/// takes is gone. Otherwise it is made.
pub proof fn law_plays_are_refused_for_a_reason(pos: Position, pt: Point)
    requires
        pos.wf(),
    ensures
        ({
            let c = pos.to_move;
            let x = pt % 21 - 1;
            let y = pt / 21 - 1;
            let inside = 0 <= x < pos.size && 0 <= y < pos.size;
            match pos.outcome(Move::Play(pt)) {
                Err(Illegal::OffBoard) => !inside,
                Err(Illegal::NotEmpty) => inside && rules::is_stone(pos.cells[pt as int]),
                Err(Illegal::Ko) => inside && pos.cells[pt as int] == Cell::Empty && pos.ko == Some(
                    pt,
                ),
                Err(Illegal::Suicide) => inside && pos.cells[pt as int] == Cell::Empty && pos.ko
                    != Some(pt) && rules::liberties(
                    rules::after(pos.cells, pt as int, c),
                    pt as int,
                ) == Set::<int>::empty(),
                Ok(next) => inside && pos.cells[pt as int] == Cell::Empty && pos.ko != Some(pt)
                    && rules::liberties(next.cells, pt as int) != Set::<int>::empty(),
            }
        }),
{
    let c = pos.to_move;
    let after = rules::after(pos.cells, pt as int, c);
    let libs = rules::liberties(after, pt as int);
    if pos.on_board(pt as int) {
        assert((pos.cells[pt as int] != Cell::Border) <==> rules::on_board(pos.size, pt as int));
    }
    if rules::suicide(pos.cells, pt as int, c) {
        assert(libs =~= Set::<int>::empty()) by {
            assert forall|q: int| !libs.contains(q) by {
                if libs.contains(q) {
                    assert(rules::liberty(after, pt as int, q));
                }
            }
        }
    } else {
        let q = choose|q: int| rules::liberty(after, pt as int, q);
        assert(libs.contains(q));
    }
}

/// A ko is marked exactly where one stone takes one: the stone that was put down stands
/// alone and has a single liberty, which is the point of the one stone that it took.
/// That point is then the ko point.
pub proof fn law_one_for_one_is_a_ko(pos: Position, pt: Point)
    requires
        pos.wf(),
        pos.illegal(pt, pos.to_move) is None,
    ensures
        ({
            let next = pos.after_stone(pt);
            let taken = rules::prisoners_of(pos.cells, pt as int, pos.to_move);
            let alone = rules::chain(next.cells, pt as int).len() == 1 && rules::liberties(
                next.cells,
                pt as int,
            ).len() == 1;
            &&& next.ko is Some <==> taken.len() == 1 && alone
            &&& next.ko matches Some(q) ==> taken == set![q as int] && pos.cells[q as int]
                == pos.to_move.spec_other().spec_cell() && next.cells[q as int] == Cell::Empty
        }),
{
    let c = pos.to_move;
    let taken = rules::prisoners_of(pos.cells, pt as int, c);
    rules::lemma_after_own(pos.size, pos.cells, pt as int, c);
    if taken.len() == 1 {
        let all = vstd::set_lib::set_int_range(0, 441);
        vstd::set_lib::lemma_int_range(0, 441);
        assert(taken.subset_of(all));
        vstd::set_lib::lemma_len_subset(taken, all);
        Set::lemma_is_singleton(taken);
        let x = taken.choose();
        assert(taken.contains(x));
        assert(taken =~= set![x]);
        assert(0 <= x < 441);
        assert(x != pt as int);
    }
}

} // verus!
