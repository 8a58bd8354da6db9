//! Area scoring as mathematics: which points belong to whom.

use vstd::prelude::*;

use crate::board::{Cell, Color, Point};
use crate::rules;

verus! {

/// Does the chain of `p`, or the empty region around it, touch a cell that holds
/// `who`?
pub open spec fn touches(cells: Seq<Cell>, p: int, who: Cell) -> bool {
    exists|r: int, n: int|
        rules::connected(cells, p, r) && #[trigger] rules::adjacent(r, n) && 0 <= n < cells.len()
            && cells[n] == who
}

/// Does `p` count for `c` under area scoring: is it a stone of that colour, or
/// does it lie in an empty region that touches that colour and not the other?
pub open spec fn owned(cells: Seq<Cell>, c: Color, p: int) -> bool {
    &&& 0 <= p < cells.len()
    &&& cells[p] == c.spec_cell() || {
        &&& cells[p] == Cell::Empty
        &&& touches(cells, p, c.spec_cell())
        &&& !touches(cells, p, c.spec_other().spec_cell())
    }
}

/// The area of `c`.
pub open spec fn area(cells: Seq<Cell>, c: Color) -> Set<int> {
    Set::new(|p: int| owned(cells, c, p))
}

/// How many points Black's area is ahead of White's.
pub open spec fn area_margin(cells: Seq<Cell>) -> int {
    area(cells, Color::Black).len() - area(cells, Color::White).len()
}

/// Does `p` have a neighbour that holds `who`?
pub open spec fn beside(cells: Seq<Cell>, p: int, who: Cell) -> bool {
    exists|n: int| #[trigger] rules::adjacent(p, n) && 0 <= n < cells.len() && cells[n] == who
}

/// Does `p` count for `c` at the end of a playout: is it a stone of that colour,
/// or an empty point beside that colour and not the other?
pub open spec fn claimed(cells: Seq<Cell>, c: Color, p: int) -> bool {
    &&& 0 <= p < cells.len()
    &&& cells[p] == c.spec_cell() || {
        &&& cells[p] == Cell::Empty
        &&& beside(cells, p, c.spec_cell())
        &&& !beside(cells, p, c.spec_other().spec_cell())
    }
}

/// The points that count for `c` at the end of a playout.
pub open spec fn claims(cells: Seq<Cell>, c: Color) -> Set<int> {
    Set::new(|p: int| claimed(cells, c, p))
}

/// How many points Black's claims are ahead of White's.
pub open spec fn claims_margin(cells: Seq<Cell>) -> int {
    claims(cells, Color::Black).len() - claims(cells, Color::White).len()
}

/// Is `pt` a point where `c` may play without filling one of its own eyes?
pub open spec fn candidate(cells: Seq<Cell>, ko: Option<Point>, c: Color, pt: Point) -> bool {
    !rules::eyelike(cells, pt as int, c) && rules::legal(cells, ko, pt, c)
}

/// All the points of one empty region count for the same side.
pub proof fn lemma_region(size: int, cells: Seq<Cell>, p: int, q: int, who: Cell)
    requires
        rules::framed(size, cells),
        0 <= p < 441,
        rules::connected(cells, p, q),
    ensures
        touches(cells, p, who) == touches(cells, q, who),
{
    rules::lemma_chain_same(size, cells, p, q);
    assert forall|r: int| rules::connected(cells, p, r) == rules::connected(cells, q, r) by {
        assert(rules::chain(cells, p).contains(r) == rules::chain(cells, q).contains(r));
    }
    if touches(cells, p, who) {
        let (r, n) = choose|r: int, n: int|
            rules::connected(cells, p, r) && #[trigger] rules::adjacent(r, n) && 0 <= n
                < cells.len() && cells[n] == who;
        assert(rules::connected(cells, q, r) && rules::adjacent(r, n));
    }
    if touches(cells, q, who) {
        let (r, n) = choose|r: int, n: int|
            rules::connected(cells, q, r) && #[trigger] rules::adjacent(r, n) && 0 <= n
                < cells.len() && cells[n] == who;
        assert(rules::connected(cells, p, r) && rules::adjacent(r, n));
    }
}

/// Areas and claims are finite and lie within the cells.
pub proof fn lemma_area_finite(cells: Seq<Cell>, c: Color)
    requires
        cells.len() == 441,
    ensures
        area(cells, c).finite(),
        area(cells, c).len() <= 441,
        claims(cells, c).finite(),
        claims(cells, c).len() <= 441,
{
    let all = vstd::set_lib::set_int_range(0, 441);
    vstd::set_lib::lemma_int_range(0, 441);
    assert(area(cells, c).subset_of(all));
    assert(claims(cells, c).subset_of(all));
    vstd::set_lib::lemma_len_subset(area(cells, c), all);
    vstd::set_lib::lemma_len_subset(claims(cells, c), all);
}

/// Where no two empty points are neighbours, counting a playout by what stands
/// beside each empty point gives the area score.
pub proof fn law_isolated_points_score_alike(size: int, cells: Seq<Cell>)
    requires
        rules::framed(size, cells),
        forall|p: int, q: int|
            0 <= p < 441 && 0 <= q < 441 && #[trigger] rules::adjacent(p, q) && cells[p]
                == Cell::Empty ==> cells[q] != Cell::Empty,
    ensures
        claims_margin(cells) == area_margin(cells),
{
    assert forall|p: int, who: Cell| 0 <= p < 441 && cells[p] == Cell::Empty implies #[trigger] touches(
        cells,
        p,
        who,
    ) == beside(cells, p, who) by {
        let alone = set![p];
        assert(rules::closed(cells, alone));
        rules::lemma_connected_within(cells, p, alone);
        rules::lemma_connected_refl(cells, p);
        if beside(cells, p, who) {
            let n = choose|n: int| #[trigger]
                rules::adjacent(p, n) && 0 <= n < cells.len() && cells[n] == who;
            assert(rules::connected(cells, p, p) && rules::adjacent(p, n));
        }
        if touches(cells, p, who) {
            let (r, n) = choose|r: int, n: int|
                rules::connected(cells, p, r) && #[trigger] rules::adjacent(r, n) && 0 <= n
                    < cells.len() && cells[n] == who;
            assert(alone.contains(r));
            assert(rules::adjacent(p, n));
        }
    }
    assert(claims(cells, Color::Black) =~= area(cells, Color::Black));
    assert(claims(cells, Color::White) =~= area(cells, Color::White));
}

/// Once a side has nothing left to play but its own eyes, and no ko stands in
/// the way, counting a playout gives the area score.
pub proof fn law_finished_playout_scores_area(size: int, cells: Seq<Cell>, c: Color)
    requires
        rules::framed(size, cells),
        forall|pt: Point|
            rules::on_board(size, pt as int) ==> !(#[trigger] candidate(cells, None, c, pt)),
    ensures
        claims_margin(cells) == area_margin(cells),
{
    assert forall|p: int, q: int|
        0 <= p < 441 && 0 <= q < 441 && #[trigger] rules::adjacent(p, q) && cells[p]
            == Cell::Empty implies cells[q] != Cell::Empty by {
        if cells[q] == Cell::Empty {
            let pt = p as Point;
            assert(rules::on_board(size, p));
            rules::lemma_suicide(size, cells, p, c);
            assert(!rules::eyelike(cells, p, c));
            assert(candidate(cells, None, c, pt));
        }
    }
    law_isolated_points_score_alike(size, cells);
}

/// No point counts for both sides; every stone counts for its own; and an empty point
/// counts for a side exactly if stones of that side, and none of the other, can be
/// reached from it across empty points.
pub proof fn law_points_count_for_one_side(cells: Seq<Cell>, p: int, c: Color)
    requires
        0 <= p < cells.len(),
    ensures
        !(area(cells, Color::Black).contains(p) && area(cells, Color::White).contains(p)),
        cells[p] == c.spec_cell() ==> area(cells, c).contains(p),
        area(cells, c).contains(p) ==> cells[p] == c.spec_cell() || cells[p] == Cell::Empty,
        cells[p] == Cell::Empty ==> (area(cells, c).contains(p) <==> {
            &&& exists|r: int, n: int|
                rules::connected(cells, p, r) && #[trigger] rules::adjacent(r, n) && 0 <= n
                    < cells.len() && cells[n] == c.spec_cell()
            &&& forall|r: int, n: int|
                rules::connected(cells, p, r) && #[trigger] rules::adjacent(r, n) && 0 <= n
                    < cells.len() ==> cells[n] != c.spec_other().spec_cell()
        }),
        area_margin(cells) == area(cells, Color::Black).len() - area(cells, Color::White).len(),
{
}

/// A side that owns stones and faces none of the other side's owns every empty point
/// that its stones reach: the margin is then its own count.
pub proof fn law_a_lone_side_owns_what_it_reaches(cells: Seq<Cell>)
    requires
        cells.len() == 441,
        forall|p: int| 0 <= p < 441 ==> #[trigger] cells[p] != Cell::White,
    ensures
        area(cells, Color::White).len() == 0,
        area_margin(cells) >= 0,
        claims_margin(cells) >= 0,
{
    lemma_area_finite(cells, Color::Black);
    assert(area(cells, Color::White) =~= Set::<int>::empty());
    assert(claims(cells, Color::White) =~= Set::<int>::empty());
}

/// At the end of a playout no point counts for both sides; every stone counts for its
/// own; and an empty point counts for a side exactly if a stone of that side, and none
/// of the other, stands next to it.
pub proof fn law_playout_points_count_for_one_side(cells: Seq<Cell>, p: int, c: Color)
    requires
        0 <= p < cells.len(),
    ensures
        !(claims(cells, Color::Black).contains(p) && claims(cells, Color::White).contains(p)),
        cells[p] == c.spec_cell() ==> claims(cells, c).contains(p),
        claims(cells, c).contains(p) ==> cells[p] == c.spec_cell() || cells[p] == Cell::Empty,
        cells[p] == Cell::Empty ==> (claims(cells, c).contains(p) <==> {
            &&& exists|n: int| #[trigger]
                rules::adjacent(p, n) && 0 <= n < cells.len() && cells[n] == c.spec_cell()
            &&& forall|n: int| #[trigger]
                rules::adjacent(p, n) && 0 <= n < cells.len() ==> cells[n]
                    != c.spec_other().spec_cell()
        }),
        claims_margin(cells) == claims(cells, Color::Black).len() - claims(
            cells,
            Color::White,
        ).len(),
{
}

} // verus!
