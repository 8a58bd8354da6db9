//! The rules of Go as mathematics: chains, liberties, captures and legality
//! over a padded sequence of cells.

use vstd::prelude::*;

use crate::board::{Cell, Color, Point};

verus! {

/// Is the cell `p` one of the points of a board of this size, as opposed to the
/// border ring around it?
pub open spec fn on_board(size: int, p: int) -> bool {
    1 <= p % 21 <= size && 1 <= p / 21 <= size
}

/// The cell of the point `x` columns from the left and `y` rows from the bottom.
pub open spec fn point_at(x: int, y: int) -> int {
    (y + 1) * 21 + (x + 1)
}

/// The cells are a board of this size inside a ring of border cells.
pub open spec fn framed(size: int, cells: Seq<Cell>) -> bool {
    &&& 2 <= size <= 19
    &&& cells.len() == 441
    &&& forall|p: int|
        0 <= p < 441 ==> ((#[trigger] cells[p] != Cell::Border) <==> on_board(size, p))
}

/// Are `p` and `q` orthogonal neighbours?
pub open spec fn adjacent(p: int, q: int) -> bool {
    q == p - 1 || q == p + 1 || q == p - 21 || q == p + 21
}

/// Are `p` and `q` diagonal neighbours?
pub open spec fn diagonal(p: int, q: int) -> bool {
    q == p - 22 || q == p - 20 || q == p + 20 || q == p + 22
}

/// Is `q` a neighbour of `p` with the same contents?
pub open spec fn linked(cells: Seq<Cell>, p: int, q: int) -> bool {
    adjacent(p, q) && 0 <= q < cells.len() && cells[q] == cells[p]
}

/// Does stepping from a point of `s` to a linked neighbour always stay in `s`?
pub open spec fn closed(cells: Seq<Cell>, s: Set<int>) -> bool {
    forall|p: int, q: int|
        #![trigger s.contains(p), linked(cells, p, q)]
        s.contains(p) && linked(cells, p, q) ==> s.contains(q)
}

/// Can `q` be reached from `p` by steps between linked neighbours? That is: does
/// every set of points that holds `p` and is closed under such steps hold `q`?
#[verifier::opaque]
pub open spec fn connected(cells: Seq<Cell>, p: int, q: int) -> bool {
    forall|s: Set<int>| #[trigger] closed(cells, s) && s.contains(p) ==> s.contains(q)
}

/// The chain of `p`: the points connected to it. For an empty point this is the
/// empty region around it.
pub open spec fn chain(cells: Seq<Cell>, p: int) -> Set<int> {
    Set::new(|q: int| connected(cells, p, q))
}

/// Is `q` an empty point next to the chain of `p`?
pub open spec fn liberty(cells: Seq<Cell>, p: int, q: int) -> bool {
    &&& 0 <= q < cells.len()
    &&& cells[q] == Cell::Empty
    &&& exists|r: int| connected(cells, p, r) && #[trigger] adjacent(r, q)
}

/// The empty points next to the chain of `p`.
pub open spec fn liberties(cells: Seq<Cell>, p: int) -> Set<int> {
    Set::new(|q: int| liberty(cells, p, q))
}

/// The liberties of a chain of stones, or the empty neighbours of an empty point.
pub open spec fn outlets(cells: Seq<Cell>, p: int) -> Set<int> {
    if cells[p] == Cell::Empty {
        Set::new(|q: int| adjacent(p, q) && 0 <= q < cells.len() && cells[q] == Cell::Empty)
    } else {
        liberties(cells, p)
    }
}

/// Has the chain of `p` any liberty at all?
pub open spec fn breathes(cells: Seq<Cell>, p: int) -> bool {
    exists|q: int| liberty(cells, p, q)
}

pub open spec fn is_stone(cell: Cell) -> bool {
    cell == Cell::Black || cell == Cell::White
}

/// Has every chain of stones on the board a liberty?
pub open spec fn all_breathe(cells: Seq<Cell>) -> bool {
    forall|p: int| 0 <= p < cells.len() && is_stone(#[trigger] cells[p]) ==> breathes(cells, p)
}

/// The stones whose chain has no liberty.
pub open spec fn breathless(cells: Seq<Cell>) -> Set<int> {
    Set::new(|p: int| 0 <= p < cells.len() && is_stone(cells[p]) && !breathes(cells, p))
}

/// The cells with the points of `gone` emptied.
pub open spec fn lift(cells: Seq<Cell>, gone: Set<int>) -> Seq<Cell> {
    Seq::new(cells.len(), |q: int| if gone.contains(q) { Cell::Empty } else { cells[q] })
}

/// With a stone of colour `c` standing on `pt`: is `q` an enemy stone whose chain
/// touches `pt` and has no liberty left?
pub open spec fn captured(cells: Seq<Cell>, pt: int, c: Color, q: int) -> bool {
    &&& 0 <= q < cells.len()
    &&& cells[q] == c.spec_other().spec_cell()
    &&& exists|n: int| #[trigger] adjacent(pt, n) && 0 <= n < cells.len() && connected(cells, n, q)
    &&& !breathes(cells, q)
}

/// The stones that the stone of colour `c` on `pt` takes.
pub open spec fn captures(cells: Seq<Cell>, pt: int, c: Color) -> Set<int> {
    Set::new(|q: int| captured(cells, pt, c, q))
}

/// The board with a stone of colour `c` put on `pt` and nothing taken yet.
pub open spec fn place(cells: Seq<Cell>, pt: int, c: Color) -> Seq<Cell> {
    cells.update(pt, c.spec_cell())
}

/// The stones that playing `c` at `pt` takes.
pub open spec fn prisoners_of(cells: Seq<Cell>, pt: int, c: Color) -> Set<int> {
    captures(place(cells, pt, c), pt, c)
}

/// The board after a stone of colour `c` has been put on `pt` and what it
/// captures has been taken off.
pub open spec fn after(cells: Seq<Cell>, pt: int, c: Color) -> Seq<Cell> {
    lift(place(cells, pt, c), prisoners_of(cells, pt, c))
}

/// Would a stone of colour `c` put on `pt` be left without a liberty, even after
/// it has captured what it captures?
pub open spec fn suicide(cells: Seq<Cell>, pt: int, c: Color) -> bool {
    !breathes(after(cells, pt, c), pt)
}

/// May `c` play at `pt`, when `ko` is the point that may not be retaken?
pub open spec fn legal(cells: Seq<Cell>, ko: Option<Point>, pt: Point, c: Color) -> bool {
    &&& cells[pt as int] == Cell::Empty
    &&& ko != Some(pt)
    &&& !suicide(cells, pt as int, c)
}

/// Is `pt` an eye-shaped point for `c`: empty, with every orthogonal neighbour
/// friendly or off the board, and with at most one hostile diagonal, or none at
/// the edge?
pub open spec fn eyelike(cells: Seq<Cell>, pt: int, c: Color) -> bool {
    let hostile = Set::new(
        |d: int| diagonal(pt, d) && cells[d] == c.spec_other().spec_cell(),
    );
    let at_edge = exists|d: int| #[trigger] diagonal(pt, d) && cells[d] == Cell::Border;
    &&& cells[pt] == Cell::Empty
    &&& forall|n: int| #[trigger]
        adjacent(pt, n) ==> cells[n] == c.spec_cell() || cells[n] == Cell::Border
    &&& hostile.len() == 0 || (hostile.len() == 1 && !at_edge)
}

/// The liberties of the chain that a stone of colour `c` on `pt` would belong to,
/// captures aside: its empty neighbours and those of the friendly chains that it
/// joins, less the point that it fills.
pub open spec fn joint_liberties(cells: Seq<Cell>, pt: int, c: Color) -> Set<int> {
    Set::new(
        |q: int|
            q != pt && ((adjacent(pt, q) && cells[q] == Cell::Empty) || exists|n: int| #[trigger]
                friend(cells, pt, c, n) && liberty(cells, n, q)),
    )
}

/// Does the neighbour `n` of `pt` give a stone of colour `c` on `pt` the liberty
/// `q`, by being it or by belonging to a friendly chain that has it?
pub open spec fn adds_liberty(cells: Seq<Cell>, pt: int, c: Color, n: int, q: int) -> bool {
    (n == q && cells[n] == Cell::Empty) || (friend(cells, pt, c, n) && liberty(cells, n, q))
}

/// Is `n` an enemy neighbour of `pt` in atari?
pub open spec fn atari_neighbour(cells: Seq<Cell>, pt: int, c: Color, n: int) -> bool {
    friend(cells, pt, c.spec_other(), n) && liberties(cells, n).len() == 1
}

/// Does a stone of colour `c` on `pt` leave its chain with fewer than two
/// liberties, without standing next to an enemy chain in atari?
pub open spec fn self_atari(cells: Seq<Cell>, pt: int, c: Color) -> bool {
    &&& forall|n: int| !(#[trigger] atari_neighbour(cells, pt, c, n))
    &&& joint_liberties(cells, pt, c).len() < 2
}

pub proof fn lemma_connected_refl(cells: Seq<Cell>, p: int)
    ensures
        connected(cells, p, p),
{
    reveal(connected);
}

pub proof fn lemma_connected_step(cells: Seq<Cell>, p: int, q: int, r: int)
    requires
        connected(cells, p, q),
        linked(cells, q, r),
    ensures
        connected(cells, p, r),
{
    reveal(connected);
    assert forall|s: Set<int>| #[trigger] closed(cells, s) && s.contains(p) implies s.contains(r) by {
        assert(s.contains(q));
    }
}

/// The chain of a point lies inside every closed set that holds the point.
pub proof fn lemma_connected_within(cells: Seq<Cell>, p: int, s: Set<int>)
    requires
        closed(cells, s),
        s.contains(p),
    ensures
        forall|q: int| #[trigger] connected(cells, p, q) ==> s.contains(q),
{
    reveal(connected);
}

pub proof fn lemma_chain_closed(cells: Seq<Cell>, p: int)
    ensures
        closed(cells, chain(cells, p)),
        chain(cells, p).contains(p),
{
    lemma_connected_refl(cells, p);
    assert forall|q: int, r: int|
        #![trigger chain(cells, p).contains(q), linked(cells, q, r)]
        chain(cells, p).contains(q) && linked(cells, q, r) implies chain(cells, p).contains(r) by {
        lemma_connected_step(cells, p, q, r);
    }
}

pub proof fn lemma_connected_trans(cells: Seq<Cell>, p: int, q: int, r: int)
    requires
        connected(cells, p, q),
        connected(cells, q, r),
    ensures
        connected(cells, p, r),
{
    lemma_chain_closed(cells, p);
    lemma_connected_within(cells, q, chain(cells, p));
}

/// What holds of every point of a chain: it is on the board and has the contents
/// of the point the chain was named by.
pub proof fn lemma_chain_inside(size: int, cells: Seq<Cell>, p: int)
    requires
        framed(size, cells),
        0 <= p < 441,
    ensures
        forall|q: int| #[trigger]
            connected(cells, p, q) ==> 0 <= q < 441 && cells[q] == cells[p],
{
    let s = Set::new(|q: int| 0 <= q < 441 && cells[q] == cells[p]);
    assert(closed(cells, s));
    lemma_connected_within(cells, p, s);
}

pub proof fn lemma_connected_sym(size: int, cells: Seq<Cell>, p: int, q: int)
    requires
        framed(size, cells),
        0 <= p < 441,
        connected(cells, p, q),
    ensures
        connected(cells, q, p),
{
    lemma_chain_inside(size, cells, p);
    let s = Set::new(|r: int| 0 <= r < 441 && connected(cells, r, p));
    lemma_connected_refl(cells, p);
    assert forall|a: int, b: int|
        #![trigger s.contains(a), linked(cells, a, b)]
        s.contains(a) && linked(cells, a, b) implies s.contains(b) by {
        assert(linked(cells, b, a));
        lemma_connected_refl(cells, b);
        lemma_connected_step(cells, b, b, a);
        lemma_connected_trans(cells, b, a, p);
    }
    lemma_connected_within(cells, p, s);
}

/// Two connected points have one and the same chain.
pub proof fn lemma_chain_same(size: int, cells: Seq<Cell>, p: int, q: int)
    requires
        framed(size, cells),
        0 <= p < 441,
        connected(cells, p, q),
    ensures
        chain(cells, q) == chain(cells, p),
        liberties(cells, q) == liberties(cells, p),
{
    lemma_connected_sym(size, cells, p, q);
    assert forall|r: int| connected(cells, p, r) == connected(cells, q, r) by {
        if connected(cells, p, r) {
            lemma_connected_trans(cells, q, p, r);
        }
        if connected(cells, q, r) {
            lemma_connected_trans(cells, p, q, r);
        }
    }
    assert(chain(cells, q) =~= chain(cells, p));
    assert forall|r: int| liberty(cells, p, r) == liberty(cells, q, r) by {
        if liberty(cells, p, r) {
            let s = choose|s: int| connected(cells, p, s) && #[trigger] adjacent(s, r);
            assert(connected(cells, q, s));
        }
        if liberty(cells, q, r) {
            let s = choose|s: int| connected(cells, q, s) && #[trigger] adjacent(s, r);
            assert(connected(cells, p, s));
        }
    }
    assert(liberties(cells, q) =~= liberties(cells, p));
}

/// Chains and liberties are finite.
pub proof fn lemma_chain_finite(size: int, cells: Seq<Cell>, p: int)
    requires
        framed(size, cells),
        0 <= p < 441,
    ensures
        chain(cells, p).finite(),
        chain(cells, p).len() <= 441,
        liberties(cells, p).finite(),
        liberties(cells, p).len() <= 441,
{
    lemma_chain_inside(size, cells, p);
    let all = vstd::set_lib::set_int_range(0, 441);
    vstd::set_lib::lemma_int_range(0, 441);
    assert(chain(cells, p).subset_of(all));
    assert(liberties(cells, p).subset_of(all));
    vstd::set_lib::lemma_len_subset(chain(cells, p), all);
    vstd::set_lib::lemma_len_subset(liberties(cells, p), all);
}

/// A chain is decided by its own points and by which of their neighbours have
/// its contents: change anything else and the chain stays as it was.
pub proof fn lemma_chain_local(size: int, cells: Seq<Cell>, other: Seq<Cell>, p: int)
    requires
        framed(size, cells),
        framed(size, other),
        0 <= p < 441,
        forall|q: int| #[trigger] connected(cells, p, q) ==> other[q] == cells[q],
        forall|q: int, r: int|
            connected(cells, p, q) && #[trigger] adjacent(q, r) && 0 <= r < 441 ==> (other[r]
                == cells[p] <==> cells[r] == cells[p]),
    ensures
        chain(other, p) == chain(cells, p),
{
    lemma_chain_inside(size, cells, p);
    lemma_chain_closed(cells, p);
    lemma_chain_closed(other, p);
    let c1 = chain(cells, p);
    let c2 = chain(other, p);
    assert(closed(other, c1)) by {
        assert forall|q: int, r: int|
            #![trigger c1.contains(q), linked(other, q, r)]
            c1.contains(q) && linked(other, q, r) implies c1.contains(r) by {
            assert(adjacent(q, r));
            assert(linked(cells, q, r));
        }
    }
    lemma_connected_within(other, p, c1);
    assert(closed(cells, c2)) by {
        assert forall|q: int, r: int|
            #![trigger c2.contains(q), linked(cells, q, r)]
            c2.contains(q) && linked(cells, q, r) implies c2.contains(r) by {
            assert(c1.contains(q));
            assert(adjacent(q, r));
            assert(linked(other, q, r));
        }
    }
    lemma_connected_within(cells, p, c2);
    assert(c1 =~= c2);
}

/// Lifting whole chains leaves every other chain's stones as they were, and its
/// liberties grow by the lifted points next to it.
pub proof fn lemma_lift(size: int, cells: Seq<Cell>, gone: Set<int>, p: int)
    requires
        framed(size, cells),
        closed(cells, gone),
        forall|q: int| #[trigger] gone.contains(q) ==> 0 <= q < 441 && is_stone(cells[q]),
        0 <= p < 441,
        !gone.contains(p),
        is_stone(cells[p]),
    ensures
        framed(size, lift(cells, gone)),
        chain(lift(cells, gone), p) == chain(cells, p),
        forall|q: int| #[trigger]
            liberty(lift(cells, gone), p, q) <==> liberty(cells, p, q) || (gone.contains(q)
                && exists|r: int| connected(cells, p, r) && #[trigger] adjacent(r, q)),
        (forall|q: int| #[trigger] gone.contains(q) ==> cells[q] == cells[p]) ==> liberties(
            lift(cells, gone),
            p,
        ) == liberties(cells, p),
{
    let other = lift(cells, gone);
    lemma_chain_inside(size, cells, p);
    assert forall|q: int| #[trigger] connected(cells, p, q) implies !gone.contains(q) by {
        if gone.contains(q) {
            lemma_connected_sym(size, cells, p, q);
            lemma_connected_within(cells, q, gone);
        }
    }
    assert forall|q: int, r: int|
        connected(cells, p, q) && #[trigger] adjacent(q, r) && 0 <= r < 441 implies (other[r]
        == cells[p] <==> cells[r] == cells[p]) by {
        if gone.contains(r) && cells[r] == cells[p] {
            assert(linked(cells, r, q));
        }
    }
    assert(framed(size, other)) by {
        assert forall|q: int| 0 <= q < 441 implies ((#[trigger] other[q] != Cell::Border)
            <==> on_board(size, q)) by {
            assert((cells[q] != Cell::Border) <==> on_board(size, q));
        }
    }
    lemma_chain_local(size, cells, other, p);
    assert forall|q: int| connected(other, p, q) == connected(cells, p, q) by {
        assert(chain(other, p).contains(q) == chain(cells, p).contains(q));
    }
    assert forall|q: int| #[trigger]
        liberty(other, p, q) <==> liberty(cells, p, q) || (gone.contains(q) && exists|r: int|
            connected(cells, p, r) && #[trigger] adjacent(r, q)) by {
        if liberty(other, p, q) {
            let r = choose|r: int| connected(other, p, r) && #[trigger] adjacent(r, q);
            assert(connected(cells, p, r) && adjacent(r, q));
        }
        if liberty(cells, p, q) {
            let r = choose|r: int| connected(cells, p, r) && #[trigger] adjacent(r, q);
            assert(connected(other, p, r) && adjacent(r, q));
        }
        if gone.contains(q) && exists|r: int| connected(cells, p, r) && #[trigger] adjacent(r, q) {
            let r = choose|r: int| connected(cells, p, r) && #[trigger] adjacent(r, q);
            assert(connected(other, p, r) && adjacent(r, q));
        }
    }
    if forall|q: int| #[trigger] gone.contains(q) ==> cells[q] == cells[p] {
        assert forall|q: int| liberty(other, p, q) == liberty(cells, p, q) by {
            if gone.contains(q) && exists|r: int|
                connected(cells, p, r) && #[trigger] adjacent(r, q) {
                let r = choose|r: int| connected(cells, p, r) && #[trigger] adjacent(r, q);
                assert(linked(cells, q, r));
            }
        }
        assert(liberties(other, p) =~= liberties(cells, p));
    }
}

/// The enemy stones without a liberty that are connected to `pt`'s neighbour
/// number `j`, for some `j` below `k`.
pub open spec fn captures_upto(cells: Seq<Cell>, ns: Seq<Point>, c: Color, k: int) -> Set<int> {
    Set::new(
        |q: int|
            {
                &&& 0 <= q < cells.len()
                &&& cells[q] == c.spec_other().spec_cell()
                &&& exists|j: int| 0 <= j < k && connected(cells, #[trigger] ns[j] as int, q)
                &&& !breathes(cells, q)
            },
    )
}

pub proof fn lemma_captures_upto(size: int, cells: Seq<Cell>, ns: Seq<Point>, c: Color, k: int)
    requires
        framed(size, cells),
        0 <= k <= ns.len(),
        forall|j: int| 0 <= j < ns.len() ==> #[trigger] ns[j] < 441,
    ensures
        closed(cells, captures_upto(cells, ns, c, k)),
        captures_upto(cells, ns, c, k).finite(),
        forall|p: int, q: int| #[trigger]
            connected(cells, p, q) && 0 <= p < 441 ==> captures_upto(cells, ns, c, k).contains(p)
                == captures_upto(cells, ns, c, k).contains(q),
{
    let s = captures_upto(cells, ns, c, k);
    assert forall|p: int, q: int| #[trigger] connected(cells, p, q) && 0 <= p < 441 implies s.contains(p)
        == s.contains(q) by {
        lemma_chain_inside(size, cells, p);
        lemma_chain_same(size, cells, p, q);
        lemma_connected_sym(size, cells, p, q);
        assert(liberties(cells, p) == liberties(cells, q));
        if breathes(cells, p) {
            let l = choose|l: int| liberty(cells, p, l);
            assert(liberties(cells, p).contains(l));
            assert(liberty(cells, q, l));
        }
        if breathes(cells, q) {
            let l = choose|l: int| liberty(cells, q, l);
            assert(liberties(cells, q).contains(l));
            assert(liberty(cells, p, l));
        }
        if s.contains(p) {
            let j = choose|j: int| 0 <= j < k && connected(cells, #[trigger] ns[j] as int, p);
            lemma_connected_trans(cells, ns[j] as int, p, q);
        }
        if s.contains(q) {
            let j = choose|j: int| 0 <= j < k && connected(cells, #[trigger] ns[j] as int, q);
            lemma_connected_trans(cells, ns[j] as int, q, p);
        }
    }
    assert(closed(cells, s)) by {
        assert forall|p: int, q: int|
            #![trigger s.contains(p), linked(cells, p, q)]
            s.contains(p) && linked(cells, p, q) implies s.contains(q) by {
            lemma_connected_refl(cells, p);
            lemma_connected_step(cells, p, p, q);
        }
    }
    let all = vstd::set_lib::set_int_range(0, 441);
    vstd::set_lib::lemma_int_range(0, 441);
    assert(s.subset_of(all));
    vstd::set_lib::lemma_len_subset(s, all);
}

/// What taking one more neighbour into account adds to the captures: the whole
/// chain of that neighbour, if it is an enemy chain without a liberty that is not
/// among the captures yet, and nothing otherwise.
pub proof fn lemma_captures_step(size: int, cells: Seq<Cell>, ns: Seq<Point>, c: Color, k: int)
    requires
        framed(size, cells),
        0 <= k < ns.len(),
        forall|j: int| 0 <= j < ns.len() ==> #[trigger] ns[j] < 441,
    ensures
        ({
            let n = ns[k] as int;
            let before = captures_upto(cells, ns, c, k);
            let now = lift(cells, before);
            &&& framed(size, now)
            &&& now[n] == c.spec_other().spec_cell() ==> {
                &&& !before.contains(n)
                &&& cells[n] == now[n]
                &&& chain(now, n) == chain(cells, n)
                &&& liberties(now, n) == liberties(cells, n)
            }
            &&& captures_upto(cells, ns, c, k + 1) == if now[n] == c.spec_other().spec_cell()
                && !breathes(cells, n) {
                before.union(chain(cells, n))
            } else {
                before
            }
        }),
{
    let n = ns[k] as int;
    let theirs = c.spec_other().spec_cell();
    let before = captures_upto(cells, ns, c, k);
    let next = captures_upto(cells, ns, c, k + 1);
    let now = lift(cells, before);
    lemma_captures_upto(size, cells, ns, c, k);
    lemma_captures_upto(size, cells, ns, c, k + 1);
    lemma_chain_inside(size, cells, n);
    lemma_connected_refl(cells, n);
    assert(framed(size, now)) by {
        assert forall|q: int| 0 <= q < 441 implies ((#[trigger] now[q] != Cell::Border) <==> on_board(
            size,
            q,
        )) by {
            assert((cells[q] != Cell::Border) <==> on_board(size, q));
        }
    }
    if now[n] == theirs {
        assert(!before.contains(n));
        lemma_lift(size, cells, before, n);
    }
    assert forall|q: int| next.contains(q) == if now[n] == theirs && !breathes(cells, n) {
        before.union(chain(cells, n)).contains(q)
    } else {
        before.contains(q)
    } by {
        if next.contains(q) && !before.contains(q) {
            let j = choose|j: int| 0 <= j < k + 1 && connected(cells, #[trigger] ns[j] as int, q);
            assert(j == k);
            assert(next.contains(n));
            assert(!before.contains(n));
        }
        if before.contains(q) {
            let j = choose|j: int| 0 <= j < k && connected(cells, #[trigger] ns[j] as int, q);
            assert(0 <= j < k + 1);
        }
        if now[n] == theirs && !breathes(cells, n) && chain(cells, n).contains(q) {
            assert(connected(cells, ns[k] as int, n));
            assert(next.contains(n));
        }
    }
    if now[n] == theirs && !breathes(cells, n) {
        assert(next =~= before.union(chain(cells, n)));
    } else {
        assert(next =~= before);
    }
}

pub proof fn lemma_place_framed(size: int, cells: Seq<Cell>, pt: int, c: Color)
    requires
        framed(size, cells),
        on_board(size, pt),
    ensures
        framed(size, place(cells, pt, c)),
{
    assert forall|q: int| 0 <= q < 441 implies ((#[trigger] place(cells, pt, c)[q] != Cell::Border)
        <==> on_board(size, q)) by {
        assert((cells[q] != Cell::Border) <==> on_board(size, q));
    }
}

/// A new stone leaves the stones of an enemy chain alone and fills at most one of
/// its liberties.
pub proof fn lemma_place_enemy(size: int, cells: Seq<Cell>, pt: int, c: Color, n: int)
    requires
        framed(size, cells),
        on_board(size, pt),
        cells[pt] == Cell::Empty,
        0 <= n < 441,
        cells[n] == c.spec_other().spec_cell(),
    ensures
        chain(place(cells, pt, c), n) == chain(cells, n),
        liberties(place(cells, pt, c), n) == liberties(cells, n).remove(pt),
{
    let placed = place(cells, pt, c);
    lemma_place_framed(size, cells, pt, c);
    lemma_chain_inside(size, cells, n);
    lemma_chain_local(size, cells, placed, n);
    assert forall|q: int| connected(placed, n, q) == connected(cells, n, q) by {
        assert(chain(placed, n).contains(q) == chain(cells, n).contains(q));
    }
    assert forall|q: int| liberty(placed, n, q) == (q != pt && liberty(cells, n, q)) by {
        if liberty(placed, n, q) {
            let r = choose|r: int| connected(placed, n, r) && #[trigger] adjacent(r, q);
            assert(connected(cells, n, r) && adjacent(r, q));
        }
        if liberty(cells, n, q) && q != pt {
            let r = choose|r: int| connected(cells, n, r) && #[trigger] adjacent(r, q);
            assert(connected(placed, n, r) && adjacent(r, q));
        }
    }
    assert(liberties(placed, n) =~= liberties(cells, n).remove(pt));
}

/// Is `n` a neighbour of `pt` with a stone of colour `c` on it?
pub open spec fn friend(cells: Seq<Cell>, pt: int, c: Color, n: int) -> bool {
    adjacent(pt, n) && 0 <= n < cells.len() && cells[n] == c.spec_cell()
}

/// A new stone joins the friendly chains around it, and its chain has their
/// liberties and its own empty neighbours, less the point that it fills.
pub proof fn lemma_place_own(size: int, cells: Seq<Cell>, pt: int, c: Color)
    requires
        framed(size, cells),
        on_board(size, pt),
        cells[pt] == Cell::Empty,
    ensures
        framed(size, place(cells, pt, c)),
        forall|q: int| #[trigger]
            connected(place(cells, pt, c), pt, q) <==> q == pt || exists|n: int| #[trigger]
                friend(cells, pt, c, n) && connected(cells, n, q),
        forall|q: int| #[trigger]
            liberty(place(cells, pt, c), pt, q) <==> q != pt && 0 <= q < 441 && cells[q]
                == Cell::Empty && (adjacent(pt, q) || exists|n: int| #[trigger]
                friend(cells, pt, c, n) && liberty(cells, n, q)),
{
    let placed = place(cells, pt, c);
    lemma_place_framed(size, cells, pt, c);
    lemma_connected_refl(placed, pt);
    let s = Set::new(
        |q: int|
            q == pt || exists|n: int| #[trigger]
                friend(cells, pt, c, n) && connected(cells, n, q),
    );
    assert(closed(placed, s)) by {
        assert forall|p: int, q: int|
            #![trigger s.contains(p), linked(placed, p, q)]
            s.contains(p) && linked(placed, p, q) implies s.contains(q) by {
            if q != pt {
                if p == pt {
                    lemma_connected_refl(cells, q);
                    assert(friend(cells, pt, c, q) && connected(cells, q, q));
                } else {
                    let n = choose|n: int| #[trigger]
                        friend(cells, pt, c, n) && connected(cells, n, p);
                    lemma_chain_inside(size, cells, n);
                    assert(linked(cells, p, q));
                    lemma_connected_step(cells, n, p, q);
                    assert(friend(cells, pt, c, n) && connected(cells, n, q));
                }
            }
        }
    }
    lemma_connected_within(placed, pt, s);
    assert forall|q: int| s.contains(q) implies #[trigger] connected(placed, pt, q) by {
        if q != pt {
            let n = choose|n: int| #[trigger] friend(cells, pt, c, n) && connected(cells, n, q);
            lemma_chain_inside(size, cells, n);
            assert(linked(placed, pt, n));
            lemma_connected_step(placed, pt, pt, n);
            let t = chain(placed, pt);
            lemma_chain_closed(placed, pt);
            assert(closed(cells, t.remove(pt))) by {
                assert forall|a: int, b: int|
                    #![trigger t.remove(pt).contains(a), linked(cells, a, b)]
                    t.remove(pt).contains(a) && linked(cells, a, b) implies t.remove(pt).contains(
                    b,
                ) by {
                    lemma_chain_inside(size, placed, pt);
                    assert(linked(placed, a, b));
                }
            }
            lemma_connected_within(cells, n, t.remove(pt));
        }
    }
    assert forall|q: int| #[trigger]
        liberty(placed, pt, q) <==> q != pt && 0 <= q < 441 && cells[q] == Cell::Empty && (adjacent(
            pt,
            q,
        ) || exists|n: int| #[trigger] friend(cells, pt, c, n) && liberty(cells, n, q)) by {
        if liberty(placed, pt, q) {
            let r = choose|r: int| connected(placed, pt, r) && #[trigger] adjacent(r, q);
            if r != pt {
                assert(s.contains(r));
                let n = choose|n: int| #[trigger] friend(cells, pt, c, n) && connected(cells, n, r);
                assert(connected(cells, n, r) && adjacent(r, q));
                assert(liberty(cells, n, q));
            }
        }
        if q != pt && 0 <= q < 441 && cells[q] == Cell::Empty && adjacent(pt, q) {
            assert(connected(placed, pt, pt) && adjacent(pt, q));
        }
        if q != pt && exists|n: int| #[trigger] friend(cells, pt, c, n) && liberty(cells, n, q) {
            let n = choose|n: int| #[trigger] friend(cells, pt, c, n) && liberty(cells, n, q);
            let r = choose|r: int| connected(cells, n, r) && #[trigger] adjacent(r, q);
            assert(s.contains(r));
            assert(connected(placed, pt, r) && adjacent(r, q));
        }
    }
}

pub proof fn lemma_captures(size: int, cells: Seq<Cell>, pt: int, c: Color)
    requires
        framed(size, cells),
        on_board(size, pt),
    ensures
        closed(cells, captures(cells, pt, c)),
        captures(cells, pt, c).finite(),
        captures(cells, pt, c).len() <= 441,
        forall|q: int| #[trigger]
            captures(cells, pt, c).contains(q) ==> 0 <= q < 441 && is_stone(cells[q]),
        framed(size, lift(cells, captures(cells, pt, c))),
{
    let s = captures(cells, pt, c);
    assert forall|p: int, q: int|
        #![trigger s.contains(p), linked(cells, p, q)]
        s.contains(p) && linked(cells, p, q) implies s.contains(q) by {
        let n = choose|n: int| #[trigger]
            adjacent(pt, n) && 0 <= n < cells.len() && connected(cells, n, p);
        lemma_connected_step(cells, n, p, q);
        lemma_connected_refl(cells, p);
        lemma_connected_step(cells, p, p, q);
        lemma_chain_same(size, cells, p, q);
        if breathes(cells, q) {
            let l = choose|l: int| liberty(cells, q, l);
            assert(liberties(cells, q).contains(l));
            assert(liberty(cells, p, l));
        }
    }
    let all = vstd::set_lib::set_int_range(0, 441);
    vstd::set_lib::lemma_int_range(0, 441);
    assert(s.subset_of(all));
    vstd::set_lib::lemma_len_subset(s, all);
    assert forall|q: int| 0 <= q < 441 implies ((#[trigger] lift(cells, s)[q] != Cell::Border)
        <==> on_board(size, q)) by {
        assert((cells[q] != Cell::Border) <==> on_board(size, q));
    }
}

/// A move captures something exactly if it fills the last liberty of an enemy
/// neighbour.
pub proof fn lemma_takes(size: int, cells: Seq<Cell>, pt: int, c: Color)
    requires
        framed(size, cells),
        on_board(size, pt),
        cells[pt] == Cell::Empty,
    ensures
        (prisoners_of(cells, pt, c) != Set::<int>::empty()) <==> exists|n: int| #[trigger]
            friend(cells, pt, c.spec_other(), n) && liberties(cells, n) == set![pt],
{
    let placed = place(cells, pt, c);
    let gone = prisoners_of(cells, pt, c);
    lemma_place_framed(size, cells, pt, c);
    if gone != Set::<int>::empty() {
        assert(exists|q: int| gone.contains(q)) by {
            if forall|q: int| !gone.contains(q) {
                assert(gone =~= Set::<int>::empty());
            }
        }
        let q = choose|q: int| gone.contains(q);
        let n = choose|n: int| #[trigger]
            adjacent(pt, n) && 0 <= n < 441 && connected(placed, n, q);
        lemma_chain_inside(size, placed, n);
        lemma_chain_same(size, placed, n, q);
        assert(friend(cells, pt, c.spec_other(), n));
        lemma_place_enemy(size, cells, pt, c, n);
        assert forall|l: int| liberties(cells, n).contains(l) == set![pt].contains(l) by {
            if l != pt && liberties(cells, n).contains(l) {
                assert(liberties(placed, q).contains(l));
                assert(liberty(placed, q, l));
            }
            if l == pt {
                lemma_connected_refl(cells, n);
                assert(adjacent(n, pt));
            }
        }
        assert(liberties(cells, n) =~= set![pt]);
    }
    if exists|n: int| #[trigger]
        friend(cells, pt, c.spec_other(), n) && liberties(cells, n) == set![pt] {
        let n = choose|n: int| #[trigger]
            friend(cells, pt, c.spec_other(), n) && liberties(cells, n) == set![pt];
        lemma_place_enemy(size, cells, pt, c, n);
        lemma_connected_refl(placed, n);
        if breathes(placed, n) {
            let l = choose|l: int| liberty(placed, n, l);
            assert(liberties(placed, n).contains(l));
        }
        assert(adjacent(pt, n));
        assert(gone.contains(n));
    }
}

/// What a move does to the mover's own chain: its stones are those it joins, and
/// it gains the captured points next to it as liberties.
pub proof fn lemma_after_own(size: int, cells: Seq<Cell>, pt: int, c: Color)
    requires
        framed(size, cells),
        on_board(size, pt),
    ensures
        framed(size, place(cells, pt, c)),
        framed(size, after(cells, pt, c)),
        after(cells, pt, c)[pt] == c.spec_cell(),
        chain(after(cells, pt, c), pt) == chain(place(cells, pt, c), pt),
        forall|q: int| #[trigger]
            liberty(after(cells, pt, c), pt, q) <==> liberty(place(cells, pt, c), pt, q) || (
            prisoners_of(cells, pt, c).contains(q) && exists|r: int|
                connected(place(cells, pt, c), pt, r) && #[trigger] adjacent(r, q)),
        prisoners_of(cells, pt, c) != Set::<int>::empty() ==> breathes(after(cells, pt, c), pt),
        prisoners_of(cells, pt, c) == Set::<int>::empty() ==> after(cells, pt, c) == place(
            cells,
            pt,
            c,
        ),
{
    let placed = place(cells, pt, c);
    let gone = prisoners_of(cells, pt, c);
    lemma_place_framed(size, cells, pt, c);
    lemma_captures(size, placed, pt, c);
    lemma_lift(size, placed, gone, pt);
    if gone != Set::<int>::empty() {
        assert(exists|q: int| gone.contains(q)) by {
            if forall|q: int| !gone.contains(q) {
                assert(gone =~= Set::<int>::empty());
            }
        }
        let q = choose|q: int| gone.contains(q);
        let n = choose|n: int| #[trigger]
            adjacent(pt, n) && 0 <= n < 441 && connected(placed, n, q);
        lemma_chain_inside(size, placed, n);
        lemma_connected_sym(size, placed, n, q);
        lemma_connected_within(placed, q, gone);
        lemma_connected_refl(placed, pt);
        assert(gone.contains(n));
        assert(connected(placed, pt, pt) && adjacent(pt, n));
        assert(liberty(after(cells, pt, c), pt, n));
    } else {
        assert(after(cells, pt, c) =~= placed);
    }
}

/// A move is suicide exactly if it has no empty neighbour, joins no chain with a
/// second liberty and takes no chain's last one.
pub proof fn lemma_suicide(size: int, cells: Seq<Cell>, pt: int, c: Color)
    requires
        framed(size, cells),
        on_board(size, pt),
        cells[pt] == Cell::Empty,
    ensures
        !suicide(cells, pt, c) <==> {
            ||| exists|n: int| #[trigger] adjacent(pt, n) && cells[n] == Cell::Empty
            ||| exists|n: int| #[trigger] friend(cells, pt, c, n) && liberties(cells, n).len() > 1
            ||| exists|n: int| #[trigger]
                friend(cells, pt, c.spec_other(), n) && liberties(cells, n).len() == 1
        },
{
    let placed = place(cells, pt, c);
    let next = after(cells, pt, c);
    lemma_after_own(size, cells, pt, c);
    lemma_place_own(size, cells, pt, c);
    lemma_takes(size, cells, pt, c);
    // The point to be filled is a liberty of every chain next to it.
    assert forall|n: int| adjacent(pt, n) && 0 <= n < 441 && is_stone(cells[n]) implies #[trigger] liberties(
        cells,
        n,
    ).contains(pt) && liberties(cells, n).finite() by {
        lemma_connected_refl(cells, n);
        assert(connected(cells, n, n) && adjacent(n, pt));
        lemma_chain_finite(size, cells, n);
    }
    if exists|n: int| #[trigger] adjacent(pt, n) && cells[n] == Cell::Empty {
        let n = choose|n: int| #[trigger] adjacent(pt, n) && cells[n] == Cell::Empty;
        assert(liberty(placed, pt, n));
        assert(liberty(next, pt, n));
    }
    if exists|n: int| #[trigger] friend(cells, pt, c, n) && liberties(cells, n).len() > 1 {
        let n = choose|n: int| #[trigger] friend(cells, pt, c, n) && liberties(cells, n).len() > 1;
        let rest = liberties(cells, n).remove(pt);
        assert(rest.len() > 0);
        let l = rest.choose();
        assert(rest.contains(l));
        assert(liberty(cells, n, l));
        assert(liberty(placed, pt, l));
        assert(liberty(next, pt, l));
    }
    if exists|n: int| #[trigger]
        friend(cells, pt, c.spec_other(), n) && liberties(cells, n).len() == 1 {
        let n = choose|n: int| #[trigger]
            friend(cells, pt, c.spec_other(), n) && liberties(cells, n).len() == 1;
        let libs = liberties(cells, n);
        assert(libs.contains(pt));
        assert(libs.remove(pt).len() == 0);
        assert(libs.remove(pt) =~= Set::<int>::empty());
        assert(libs =~= set![pt]);
    }
    if !suicide(cells, pt, c) {
        if prisoners_of(cells, pt, c) != Set::<int>::empty() {
            let n = choose|n: int| #[trigger]
                friend(cells, pt, c.spec_other(), n) && liberties(cells, n) == set![pt];
            assert(set![pt].len() == 1);
            assert(friend(cells, pt, c.spec_other(), n) && liberties(cells, n).len() == 1);
        } else {
            let l = choose|l: int| liberty(next, pt, l);
            assert(liberty(placed, pt, l));
            if !adjacent(pt, l) {
                let n = choose|n: int| #[trigger] friend(cells, pt, c, n) && liberty(cells, n, l);
                let libs = liberties(cells, n);
                assert(libs.contains(pt));
                assert(libs.remove(pt).contains(l));
                assert(libs.remove(pt).len() > 0);
                assert(friend(cells, pt, c, n) && libs.len() > 1);
            }
        }
    }
}

} // verus!
