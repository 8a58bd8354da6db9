//! Driving a tree: simulation after simulation, by a way of choosing among the moves
//! of a node.
//!
//! How a move is chosen is left to the caller. As long as that depends on nothing but
//! the tree, so does the whole search: the same seed gives the same sequence of random
//! numbers, and the same playouts.

use vstd::prelude::*;

use crate::board::{Board, Move, Position};
use crate::mcts;
use crate::mcts::{Params, SearchResult};
use crate::search;
use crate::tree;
use crate::tree::{Report, RootStat, Tree, TreeState};

verus! {

impl TreeState {
    /// The simulation carried on to where its way down the tree ends, each edge chosen
    /// by `choice`.
    pub open spec fn descended(self, choice: spec_fn(TreeState) -> int) -> TreeState
        decreases self.nodes.len() - self.here,
    {
        let looked = self.arrived();
        let j = choice(looked);
        let next = looked.followed(j);
        if !looked.has_choice() {
            looked
        } else if looked.leads_on(j) && self.here < next.here < self.nodes.len()
            && next.nodes.len() == self.nodes.len() {
            next.descended(choice)
        } else {
            next
        }
    }

    /// The tree after one more simulation.
    pub open spec fn simulated(self, choice: spec_fn(TreeState) -> int) -> TreeState {
        self.begun().descended(choice).finished()
    }

    /// The tree after `n` more simulations.
    pub open spec fn grown(self, choice: spec_fn(TreeState) -> int, n: nat) -> TreeState
        decreases n,
    {
        if n == 0 {
            self
        } else {
            self.grown(choice, (n - 1) as nat).simulated(choice)
        }
    }
}

/// Whatever node it is asked about, `select` picks one of its edges.
pub open spec fn selects<F: Fn(&Tree) -> usize>(select: F) -> bool {
    forall|t: &Tree|
        #![trigger select.requires((t,))]
        t@.descending() && t@.has_choice() ==> select.requires((t,)) && forall|j: usize|
            #[trigger] select.ensures((t,), j) ==> j < t@.nodes[t@.here].edges.len()
}

/// What `select` picks is what `choice` says of the tree.
pub open spec fn goes_by<F: Fn(&Tree) -> usize>(
    select: F,
    choice: spec_fn(TreeState) -> int,
) -> bool {
    forall|t: &Tree, j: usize| #[trigger] select.ensures((t,), j) ==> j == choice(t@)
}

/// What a step down the tree does: it keeps the root and the count of playouts, and
/// where it leads on, it goes to a node further on and makes none.
proof fn lemma_step_down(t: TreeState, j: int)
    requires
        t.sound(),
        0 <= t.here < t.nodes.len(),
        0 <= j < t.nodes[t.here].edges.len(),
    ensures
        t.followed(j).root == t.root,
        t.followed(j).playouts == t.playouts,
        t.leads_on(j) ==> t.here < t.followed(j).here < t.nodes.len() && t.followed(j).nodes
            == t.nodes,
{
    assert(t.node_ok(t.here));
    assert(t.edge_ok(t.here, j));
}

proof fn lemma_look(t: TreeState)
    requires
        0 <= t.here < t.nodes.len(),
    ensures
        t.arrived().root == t.root,
        t.arrived().playouts == t.playouts,
        t.arrived().here == t.here,
        t.arrived().nodes.len() == t.nodes.len(),
{
}

/// Asks for a choice.
fn ask<F: Fn(&Tree) -> usize>(t: &Tree, select: &F) -> (j: usize)
    requires
        t@.descending(),
        t@.has_choice(),
        selects(*select),
    ensures
        j < t@.nodes[t@.here].edges.len(),
        forall|choice: spec_fn(TreeState) -> int| #[trigger]
            goes_by(*select, choice) ==> j == choice(t@),
{
    assert(select.requires((t,)));
    select(t)
}

impl Tree {
    /// Looks at the node at hand and goes on from it, if there is anywhere to go.
    fn step_down<F: Fn(&Tree) -> usize>(&mut self, select: &F) -> (on: bool)
        requires
            old(self)@.descending(),
            old(self)@.next_has_room(),
            selects(*select),
        ensures
            final(self)@.landed(),
            final(self)@.next_has_room(),
            final(self)@.root == old(self)@.root,
            final(self)@.playouts == old(self)@.playouts,
            on ==> final(self)@.descending() && old(self)@.here < final(self)@.here
                && final(self)@.nodes.len() == old(self)@.nodes.len(),
            forall|choice: spec_fn(TreeState) -> int| #[trigger]
                goes_by(*select, choice) ==> old(self)@.descended(choice) == if on {
                    final(self)@.descended(choice)
                } else {
                    final(self)@
                },
    {
        let ghost was = self@;
        proof {
            lemma_look(was);
        }
        if !self.arrive() {
            return false;
        }
        let ghost looked = self@;
        let j: usize = ask(self, select);
        proof {
            lemma_step_down(looked, j as int);
        }
        self.follow(j)
    }

    /// One simulation: descend, expand if the leaf is warm enough, play out, then
    /// carry the result back up both the tree and the RAVE statistics.
    pub fn simulate<F: Fn(&Tree) -> usize>(&mut self, select: &F)
        requires
            old(self)@.at_rest(),
            old(self)@.next_has_room(),
            selects(*select),
        ensures
            final(self)@.at_rest(),
            final(self)@.playouts == old(self)@.playouts + 1,
            final(self)@.root == old(self)@.root,
            forall|choice: spec_fn(TreeState) -> int| #[trigger]
                goes_by(*select, choice) ==> final(self)@ == old(self)@.simulated(choice),
    {
        self.begin();
        let ghost start = self@;
        let mut on: bool = true;
        while on
            invariant
                selects(*select),
                self@.landed(),
                self@.next_has_room(),
                self@.root == start.root,
                self@.playouts == start.playouts,
                on ==> self@.descending(),
                forall|choice: spec_fn(TreeState) -> int| #[trigger]
                    goes_by(*select, choice) ==> start.descended(choice) == if on {
                        self@.descended(choice)
                    } else {
                        self@
                    },
            decreases
                    if on {
                        self@.nodes.len() - self@.here + 1
                    } else {
                        0
                    },
        {
            on = self.step_down(select);
        }
        self.finish();
    }
}

/// How many playouts a tree of this position can count.
pub open spec fn most_playouts(root: Position) -> int {
    u32::MAX - 1200 - mcts::load(root)
}

/// Does the report say what this tree has to say about its root?
pub open spec fn tells(report: Report, t: TreeState) -> bool {
    &&& report.stats@ == t.root_stats()
    &&& report.playouts == t.playouts
    &&& tree::line_views(report.lines@) == t.lines_upto(t.nodes[0].edges.len())
}

/// The tree that thread number `i` of a search grows with `n` playouts.
pub open spec fn tree_of(
    root: Position,
    params: Params,
    choice: spec_fn(TreeState) -> int,
    i: int,
    n: nat,
) -> TreeState {
    TreeState::planted(
        root,
        params,
        params.seed ^ (i as u64).wrapping_mul(0x9E37_79B9),
    ).grown(choice, n)
}

/// The most playouts that a tree is let make: those it was given, as far as its
/// counters go; where it was given none, as many as they can count if it is `timed`,
/// and none at all if it is not.
pub open spec fn allowed(root: Position, quota: Option<u64>, timed: bool) -> int {
    match quota {
        Some(n) => if n <= most_playouts(root) {
            n as int
        } else {
            most_playouts(root)
        },
        None => if timed {
            most_playouts(root)
        } else {
            0
        },
    }
}

/// Grows the tree of thread number `t` until it has made the playouts it was given, or
/// its time is up, or its counters are full; and reports on it.
///
/// A timed search asks the clock before every playout: `expired` gets the number of
/// playouts made so far and says whether the time is up. The search goes on exactly as
/// long as the answer is no.
pub fn search_tree<F: Fn(&Tree) -> usize, E: Fn(u64) -> bool>(
    board: &Board,
    params: &Params,
    t: u64,
    quota: Option<u64>,
    select: &F,
    timed: bool,
    expired: &E,
) -> (r: Report)
    requires
        board@.wf(),
        most_playouts(board@) >= 0,
        board@.passes + 10 <= u32::MAX,
        selects(*select),
        timed ==> forall|done: u64| #[trigger] expired.requires((done,)),
    ensures
        r.playouts <= allowed(board@, quota, timed),
        !timed ==> r.playouts == allowed(board@, quota, timed),
        timed ==> forall|done: u64|
            done < r.playouts ==> #[trigger] expired.ensures((done,), false),
        timed && r.playouts < allowed(board@, quota, timed) ==> expired.ensures(
            (r.playouts,),
            true,
        ),
        forall|choice: spec_fn(TreeState) -> int| #[trigger]
            goes_by(*select, choice) ==> tells(
                r,
                tree_of(board@, *params, choice, t as int, r.playouts as nat),
            ),
        r.stats@.len() <= 362,
        forall|j: int|
            0 <= j < r.stats@.len() ==> {
                let s = #[trigger] r.stats@[j];
                &&& s.wins <= s.visits <= r.playouts
                &&& s.mv == Move::Pass || (s.mv matches Move::Play(pt) && board@.illegal(
                    pt,
                    board@.to_move,
                ) is None)
            },
{
    let seed: u64 = search::thread_seed(params.seed, t);
    let mut grown: Tree = Tree::new(board, *params, seed);
    let ghost start = grown@;
    let mut stop: bool = false;
    while !stop
        invariant
            board@.wf(),
            start == TreeState::planted(board@, *params, seed),
            grown@.at_rest(),
            grown@.root == board@,
            selects(*select),
            timed ==> forall|done: u64| #[trigger] expired.requires((done,)),
            grown@.playouts <= allowed(board@, quota, timed),
            timed ==> forall|done: u64|
                done < grown@.playouts ==> #[trigger] expired.ensures((done,), false),
            stop && grown@.playouts < allowed(board@, quota, timed) ==> timed
                && expired.ensures((grown@.playouts as u64,), true),
            forall|choice: spec_fn(TreeState) -> int| #[trigger]
                goes_by(*select, choice) ==> grown@ == start.grown(
                    choice,
                    grown@.playouts as nat,
                ),
        decreases
                if stop {
                    0
                } else {
                    u32::MAX - grown@.playouts + 1
                },
    {
        let done: u64 = grown.playouts();
        let late: bool = timed && expired(done);
        stop = search::should_stop(done, quota, timed, late) || !grown.can_go_on();
        if !stop {
            grown.simulate(select);
        }
    }
    grown.report()
}

/// Are these the reports of the trees that as many threads grow, each with `n` playouts?
pub open spec fn told(
    reports: Seq<Report>,
    root: Position,
    params: Params,
    choice: spec_fn(TreeState) -> int,
    n: nat,
) -> bool {
    forall|i: int|
        0 <= i < reports.len() ==> tells(
            #[trigger] reports[i],
            tree_of(root, params, choice, i, n),
        )
}

/// How many trees a search grows: one for each thread, and one at least.
pub open spec fn threads_of(params: Params) -> nat {
    if params.threads == 0 {
        1
    } else {
        params.threads as nat
    }
}

/// How many playouts each tree of a search without a clock makes: its share of those
/// asked for, or none where none were.
pub open spec fn each_of(params: Params) -> nat {
    match params.playouts {
        Some(p) => search::share(p as nat, threads_of(params)),
        None => 0,
    }
}

/// Grows the trees of a search without a clock, one after the other. Threads of their
/// own would have the same to report, only sooner.
pub fn search_trees<F: Fn(&Tree) -> usize>(board: &Board, params: &Params, select: &F) -> (r: Vec<
    Report,
>)
    requires
        board@.wf(),
        each_of(*params) <= most_playouts(board@),
        board@.passes + 10 <= u32::MAX,
        selects(*select),
    ensures
        r@.len() == threads_of(*params),
        forall|choice: spec_fn(TreeState) -> int| #[trigger]
            goes_by(*select, choice) ==> told(r@, board@, *params, choice, each_of(*params)),
        forall|i: int| 0 <= i < r@.len() ==> bounded(#[trigger] r@[i], each_of(*params)),
{
    let threads: usize = if params.threads == 0 {
        1
    } else {
        params.threads
    };
    let n: u64 = match params.playouts {
        Some(p) => search::per_thread_playouts(p, threads as u64),
        None => 0,
    };
    let never = |_done: u64| -> (late: bool) { false };
    let mut out: Vec<Report> = Vec::new();
    let mut t: usize = 0;
    while t < threads
        invariant
            t <= threads,
            threads == threads_of(*params),
            out@.len() == t,
            board@.wf(),
            board@.passes + 10 <= u32::MAX,
            selects(*select),
            n == each_of(*params),
            n <= most_playouts(board@),
            forall|choice: spec_fn(TreeState) -> int| #[trigger]
                goes_by(*select, choice) ==> told(out@, board@, *params, choice, n as nat),
            forall|i: int| 0 <= i < out@.len() ==> bounded(#[trigger] out@[i], n as nat),
        decreases threads - t,
    {
        let ghost before = out@;
        let report: Report = search_tree(board, params, t as u64, Some(n), select, false, &never);
        out.push(report);
        proof {
            assert forall|choice: spec_fn(TreeState) -> int| #[trigger]
                goes_by(*select, choice) implies told(out@, board@, *params, choice, n as nat) by {
                assert(told(before, board@, *params, choice, n as nat));
                assert forall|i: int| 0 <= i < out@.len() implies tells(
                    #[trigger] out@[i],
                    tree_of(board@, *params, choice, i, n as nat),
                ) by {
                    if i < before.len() {
                        assert(out@[i] == before[i]);
                    }
                }
            }
            assert forall|i: int| 0 <= i < out@.len() implies bounded(
                #[trigger] out@[i],
                n as nat,
            ) by {
                if i < before.len() {
                    assert(out@[i] == before[i]);
                }
            }
        }
        t += 1;
    }
    out
}

/// Is this the report of a tree of `n` playouts, with no more visits and wins than
/// they can have made?
pub open spec fn bounded(report: Report, n: nat) -> bool {
    &&& report.playouts == n
    &&& report.stats@.len() <= 362
    &&& forall|j: int|
        0 <= j < report.stats@.len() ==> (#[trigger] report.stats@[j]).wins
            <= report.stats@[j].visits <= n
}

proof fn lemma_visits_bound(stats: Seq<RootStat>, n: nat)
    requires
        forall|j: int|
            0 <= j < stats.len() ==> (#[trigger] stats[j]).wins <= stats[j].visits <= n,
    ensures
        search::visits_in(stats) <= stats.len() * n,
        search::wins_in(stats) <= stats.len() * n,
    decreases stats.len(),
{
    if stats.len() > 0 {
        let less = stats.drop_last();
        assert forall|j: int| 0 <= j < less.len() implies (#[trigger] less[j]).wins
            <= less[j].visits <= n by {
            assert(less[j] == stats[j]);
        }
        lemma_visits_bound(less, n);
        assert(less.len() * n + n == stats.len() * n) by (nonlinear_arith)
            requires
                less.len() + 1 == stats.len(),
        ;
    } else {
        assert(stats.len() * n == 0) by (nonlinear_arith)
            requires
                stats.len() == 0,
        ;
    }
}

proof fn lemma_sums_bound(reports: Seq<Report>, n: nat)
    requires
        forall|i: int| 0 <= i < reports.len() ==> bounded(#[trigger] reports[i], n),
    ensures
        search::all_visits(reports) <= 362 * (reports.len() * n),
        search::all_wins(reports) <= 362 * (reports.len() * n),
        search::all_playouts(reports) == reports.len() * n,
    decreases reports.len(),
{
    if reports.len() > 0 {
        let less = reports.drop_last();
        let last = reports.last();
        assert forall|i: int| 0 <= i < less.len() implies bounded(#[trigger] less[i], n) by {
            assert(less[i] == reports[i]);
        }
        lemma_sums_bound(less, n);
        assert(bounded(reports[reports.len() - 1], n));
        lemma_visits_bound(last.stats@, n);
        assert(last.stats@.len() * n <= 362 * n) by (nonlinear_arith)
            requires
                last.stats@.len() <= 362,
        ;
        assert(less.len() * n + n == reports.len() * n) by (nonlinear_arith)
            requires
                less.len() + 1 == reports.len(),
        ;
    } else {
        assert(reports.len() * n == 0) by (nonlinear_arith)
            requires
                reports.len() == 0,
        ;
    }
}

/// Is this what a search without a clock comes to, by this choice: the sum of what as
/// many trees as there are threads have to report?
pub open spec fn found(
    r: SearchResult,
    root: Position,
    params: Params,
    choice: spec_fn(TreeState) -> int,
) -> bool {
    &&& r.threads == threads_of(params)
    &&& exists|reports: Seq<Report>|
        {
            &&& reports.len() == threads_of(params)
            &&& #[trigger] told(reports, root, params, choice, each_of(params))
            &&& search::sums_up(r, reports)
        }
}

/// Searches `board` for the side to move, without a clock, and returns the moves worth
/// playing, most-visited first. How long it took is what `elapsed` says when it is done.
pub fn search<F: Fn(&Tree) -> usize, C: Fn() -> std::time::Duration>(
    board: &Board,
    params: &Params,
    select: &F,
    elapsed: &C,
) -> (r: SearchResult)
    requires
        board@.wf(),
        each_of(*params) <= most_playouts(board@),
        board@.passes + 10 <= u32::MAX,
        362 * (threads_of(*params) * each_of(*params)) <= u64::MAX,
        selects(*select),
        elapsed.requires(()),
    ensures
        r.playouts == threads_of(*params) * each_of(*params),
        r.threads == threads_of(*params),
        elapsed.ensures((), r.elapsed),
        forall|choice: spec_fn(TreeState) -> int| #[trigger]
            goes_by(*select, choice) ==> found(r, board@, *params, choice),
{
    let reports: Vec<Report> = search_trees(board, params, select);
    proof {
        lemma_sums_bound(reports@, each_of(*params));
    }
    search::summarise(&reports, elapsed(), reports.len())
}

/// Do the two say the same?
spec fn alike(one: Report, other: Report) -> bool {
    &&& one.stats@ == other.stats@
    &&& one.playouts == other.playouts
    &&& tree::line_views(one.lines@) == tree::line_views(other.lines@)
}

spec fn all_alike(one: Seq<Report>, other: Seq<Report>) -> bool {
    &&& one.len() == other.len()
    &&& forall|i: int| 0 <= i < one.len() ==> alike(#[trigger] one[i], other[i])
}

proof fn lemma_merged_alike(one: Seq<Report>, other: Seq<Report>)
    requires
        all_alike(one, other),
    ensures
        search::merged(one) == search::merged(other),
        search::all_playouts(one) == search::all_playouts(other),
    decreases one.len(),
{
    if one.len() > 0 {
        let a = one.drop_last();
        let b = other.drop_last();
        assert forall|i: int| 0 <= i < a.len() implies alike(#[trigger] a[i], b[i]) by {
            assert(alike(one[i], other[i]));
        }
        lemma_merged_alike(a, b);
        assert(alike(one[one.len() - 1], other[one.len() - 1]));
    }
}

proof fn lemma_deepest_alike(one: Seq<Report>, other: Seq<Report>, n: nat)
    requires
        all_alike(one, other),
        n <= one.len(),
    ensures
        search::deepest(one, n) == search::deepest(other, n),
        search::deepest(one, n) matches Some(i) ==> 0 <= i < n,
    decreases n,
{
    if n > 0 {
        lemma_deepest_alike(one, other, (n - 1) as nat);
        assert(alike(one[n - 1], other[n - 1]));
        if let Some(b) = search::deepest(one, (n - 1) as nat) {
            assert(alike(one[b], other[b]));
        }
    }
}

proof fn lemma_descent_is_no_playout(t: TreeState, choice: spec_fn(TreeState) -> int)
    ensures
        t.descended(choice).playouts == t.playouts,
    decreases t.nodes.len() - t.here,
{
    let looked = t.arrived();
    let j = choice(looked);
    let next = looked.followed(j);
    assert(next.playouts == t.playouts);
    if looked.has_choice() && looked.leads_on(j) && t.here < next.here < t.nodes.len()
        && next.nodes.len() == t.nodes.len() {
        lemma_descent_is_no_playout(next, choice);
    }
}

proof fn lemma_playouts(t: TreeState, choice: spec_fn(TreeState) -> int, n: nat)
    ensures
        t.grown(choice, n).playouts == t.playouts + n,
    decreases n,
{
    if n > 0 {
        lemma_playouts(t, choice, (n - 1) as nat);
        lemma_descent_is_no_playout(t.grown(choice, (n - 1) as nat).begun(), choice);
    }
}

proof fn lemma_total(reports: Seq<Report>, n: nat)
    requires
        forall|i: int| 0 <= i < reports.len() ==> (#[trigger] reports[i]).playouts == n,
    ensures
        search::all_playouts(reports) == reports.len() * n,
    decreases reports.len(),
{
    if reports.len() > 0 {
        let less = reports.drop_last();
        assert forall|i: int| 0 <= i < less.len() implies (#[trigger] less[i]).playouts == n by {
            assert(less[i] == reports[i]);
        }
        lemma_total(less, n);
        assert(reports[reports.len() - 1].playouts == n);
        assert(less.len() * n + n == reports.len() * n) by (nonlinear_arith)
            requires
                less.len() + 1 == reports.len(),
        ;
    } else {
        assert(reports.len() * n == 0) by (nonlinear_arith)
            requires
                reports.len() == 0,
        ;
    }
}

/// A search is reproducible when the threads and the playouts are fixed: two searches
/// of the same position, with the same settings and by the same choice, come to the
/// same best move and the same candidates, in the same order, with the same visits,
/// wins and lines. There are as many threads as asked for, and one at least; and the
/// playouts are those asked for, rounded up to a multiple of the threads.
pub proof fn law_search_is_reproducible(
    root: Position,
    params: Params,
    choice: spec_fn(TreeState) -> int,
    first: SearchResult,
    second: SearchResult,
)
    requires
        found(first, root, params, choice),
        found(second, root, params, choice),
    ensures
        first.best == second.best,
        first.candidates@.len() == second.candidates@.len(),
        forall|i: int|
            #![trigger first.candidates@[i]]
            0 <= i < first.candidates@.len() ==> {
                &&& first.candidates@[i].mv == second.candidates@[i].mv
                &&& first.candidates@[i].visits == second.candidates@[i].visits
                &&& first.candidates@[i].wins == second.candidates@[i].wins
                &&& first.candidates@[i].pv@ == second.candidates@[i].pv@
            },
        first.threads == second.threads == threads_of(params),
        first.playouts == second.playouts,
        first.playouts == threads_of(params) * each_of(params),
        params.playouts matches Some(p) ==> p <= first.playouts < p + threads_of(params),
{
    let threads = threads_of(params);
    let n = each_of(params);
    let one = choose|reports: Seq<Report>|
        {
            &&& reports.len() == threads
            &&& #[trigger] told(reports, root, params, choice, n)
            &&& search::sums_up(first, reports)
        };
    let other = choose|reports: Seq<Report>|
        {
            &&& reports.len() == threads
            &&& #[trigger] told(reports, root, params, choice, n)
            &&& search::sums_up(second, reports)
        };
    assert forall|i: int| 0 <= i < one.len() implies alike(#[trigger] one[i], other[i]) by {
        assert(tells(other[i], tree_of(root, params, choice, i, n)));
    }
    lemma_merged_alike(one, other);
    lemma_deepest_alike(one, other, one.len());
    if let Some(d) = search::deepest(one, one.len()) {
        assert(alike(one[d], other[d]));
    }
    assert(search::deepest_lines(one) == search::deepest_lines(other));
    let stats = search::ranked(search::merged(one));
    let lines = search::deepest_lines(one);
    assert forall|i: int|
        #![trigger first.candidates@[i]]
        0 <= i < first.candidates@.len() implies {
        &&& first.candidates@[i].mv == second.candidates@[i].mv
        &&& first.candidates@[i].visits == second.candidates@[i].visits
        &&& first.candidates@[i].wins == second.candidates@[i].wins
        &&& first.candidates@[i].pv@ == second.candidates@[i].pv@
    } by {
        assert(search::is_candidate(first.candidates@[i], stats[i], lines));
        assert(search::is_candidate(second.candidates@[i], stats[i], lines));
    }
    assert forall|i: int| 0 <= i < one.len() implies (#[trigger] one[i]).playouts == n by {
        let seed = params.seed ^ (i as u64).wrapping_mul(0x9E37_79B9);
        lemma_playouts(TreeState::planted(root, params, seed), choice, n);
    }
    lemma_total(one, n);
    if let Some(p) = params.playouts {
        let whole = (p + threads - 1) as nat;
        vstd::arithmetic::div_mod::lemma_fundamental_div_mod(whole as int, threads as int);
    }
}

/// Whatever node it is asked about, `choice` picks one of its edges.
pub open spec fn picks_an_edge(choice: spec_fn(TreeState) -> int) -> bool {
    forall|t: TreeState|
        #![trigger choice(t)]
        t.has_choice() ==> 0 <= choice(t) < t.nodes[t.here].edges.len()
}

/// Do the edges of the root stand for all the moves worth looking at?
spec fn root_complete(t: TreeState) -> bool {
    tree::complete(t.nodes[0].edges, t.root, t.root.to_move)
}

/// Do the two lists of edges stand for the same moves?
spec fn same_moves(one: Seq<tree::Edge>, other: Seq<tree::Edge>) -> bool {
    &&& one.len() == other.len()
    &&& forall|j: int| 0 <= j < one.len() ==> (#[trigger] one[j]).mv == other[j].mv
}

proof fn lemma_same_moves(one: Seq<tree::Edge>, other: Seq<tree::Edge>, pos: Position)
    requires
        same_moves(one, other),
        tree::complete(one, pos, pos.to_move),
    ensures
        tree::complete(other, pos, pos.to_move),
{
    let c = pos.to_move;
    assert forall|mv: Move|
        #![trigger tree::worth_looking_at(pos, c, mv)]
        tree::worth_looking_at(pos, c, mv) <==> exists|j: int|
            0 <= j < other.len() && (#[trigger] other[j]).mv == mv by {
        if tree::worth_looking_at(pos, c, mv) {
            let j = choose|j: int| 0 <= j < one.len() && (#[trigger] one[j]).mv == mv;
            assert(other[j].mv == mv);
        }
        if exists|j: int| 0 <= j < other.len() && (#[trigger] other[j]).mv == mv {
            let j = choose|j: int| 0 <= j < other.len() && (#[trigger] other[j]).mv == mv;
            assert(one[j].mv == mv);
        }
    }
    assert forall|j: int, k: int|
        0 <= j < other.len() && 0 <= k < other.len() && j != k implies (#[trigger] other[j]).mv != (
    #[trigger] other[k]).mv by {
        assert(one[j].mv != one[k].mv);
    }
}

/// Further down, a simulation leaves the root as it is.
proof fn lemma_root_left_alone(t: TreeState, choice: spec_fn(TreeState) -> int)
    requires
        0 < t.here < t.nodes.len(),
    ensures
        t.descended(choice).nodes[0] == t.nodes[0],
        t.descended(choice).nodes.len() >= t.nodes.len(),
        t.descended(choice).root == t.root,
        t.descended(choice).params == t.params,
    decreases t.nodes.len() - t.here,
{
    let looked = t.arrived();
    let j = choice(looked);
    let next = looked.followed(j);
    assert(looked.nodes[0] == t.nodes[0]);
    if looked.has_choice() {
        assert(next.nodes[0] == t.nodes[0]);
        if looked.leads_on(j) && t.here < next.here < t.nodes.len() && next.nodes.len()
            == t.nodes.len() {
            lemma_root_left_alone(next, choice);
        }
    }
}

/// From the root down, a simulation leaves it with all its moves.
#[verifier::rlimit(40)]
proof fn lemma_root_stays_complete(t: TreeState, choice: spec_fn(TreeState) -> int)
    requires
        picks_an_edge(choice),
        t.root.wf(),
        t.nodes.len() >= 1,
        t.nodes[0].to_move == t.root.to_move,
        t.params.max_nodes > 1,
        t.nodes[0].edges.len() == 0 ==> t.nodes.len() == 1,
        t.nodes[0].edges.len() > 0 ==> root_complete(t),
    ensures
        root_complete(t.simulated(choice)),
        t.simulated(choice).nodes[0].edges.len() > 0,
        t.simulated(choice).nodes.len() >= 1,
        t.simulated(choice).nodes[0].to_move == t.root.to_move,
        t.simulated(choice).root == t.root,
        t.simulated(choice).params == t.params,
{
    let start = t.begun();
    let looked = start.arrived();
    let c = t.root.to_move;
    if t.nodes[0].edges.len() == 0 {
        assert(start.should_expand());
        tree::law_every_move_gets_an_edge(start);
    }
    assert(root_complete(looked));
    assert(tree::worth_looking_at(t.root, c, Move::Pass));
    assert(looked.nodes[0].edges.len() > 0);
    let down = start.descended(choice);
    if looked.has_choice() {
        let j = choice(looked);
        let next = looked.followed(j);
        let e = looked.nodes[0].edges[j];
        assert(0 <= j < looked.nodes[0].edges.len());
        assert(tree::worth_looking_at(t.root, c, e.mv));
        assert(looked.board.outcome(e.mv) is Ok);
        assert(same_moves(looked.nodes[0].edges, next.nodes[0].edges));
        if looked.leads_on(j) && start.here < next.here < start.nodes.len() && next.nodes.len()
            == start.nodes.len() {
            lemma_root_left_alone(next, choice);
        }
        assert(same_moves(looked.nodes[0].edges, down.nodes[0].edges));
    } else {
        assert(same_moves(looked.nodes[0].edges, down.nodes[0].edges));
    }
    let end = t.simulated(choice);
    assert(end.nodes.len() == down.nodes.len());
    assert(same_moves(down.nodes[0].edges, end.nodes[0].edges));
    assert(same_moves(looked.nodes[0].edges, end.nodes[0].edges));
    lemma_same_moves(looked.nodes[0].edges, end.nodes[0].edges, t.root);
}

/// A search that makes even one playout says something of every move worth looking at:
/// each point where the side to move may play without filling its own eye, and the
/// pass, is the move of exactly one of the stats that a tree reports, and there are no
/// others.
pub proof fn law_search_looks_at_every_move(
    root: Position,
    params: Params,
    choice: spec_fn(TreeState) -> int,
    i: int,
    n: nat,
)
    requires
        root.wf(),
        params.max_nodes > 1,
        picks_an_edge(choice),
        n > 0,
    ensures
        ({
            let stats = tree_of(root, params, choice, i, n).root_stats();
            &&& forall|mv: Move|
                #![trigger tree::worth_looking_at(root, root.to_move, mv)]
                tree::worth_looking_at(root, root.to_move, mv) <==> exists|j: int|
                    0 <= j < stats.len() && (#[trigger] stats[j]).mv == mv
            &&& forall|j: int, k: int|
                0 <= j < stats.len() && 0 <= k < stats.len() && j != k ==> (#[trigger] stats[j]).mv
                    != (#[trigger] stats[k]).mv
        }),
{
    let seed = params.seed ^ (i as u64).wrapping_mul(0x9E37_79B9);
    let start = TreeState::planted(root, params, seed);
    lemma_grown_complete(start, choice, n);
    let t = tree_of(root, params, choice, i, n);
    let stats = t.root_stats();
    let edges = t.nodes[0].edges;
    let c = root.to_move;
    assert forall|j: int| 0 <= j < stats.len() implies (#[trigger] stats[j]).mv == edges[j].mv by {}
    assert forall|mv: Move|
        #![trigger tree::worth_looking_at(root, c, mv)]
        tree::worth_looking_at(root, c, mv) <==> exists|j: int|
            0 <= j < stats.len() && (#[trigger] stats[j]).mv == mv by {
        if tree::worth_looking_at(root, c, mv) {
            let j = choose|j: int| 0 <= j < edges.len() && (#[trigger] edges[j]).mv == mv;
            assert(stats[j].mv == mv);
        }
        if exists|j: int| 0 <= j < stats.len() && (#[trigger] stats[j]).mv == mv {
            let j = choose|j: int| 0 <= j < stats.len() && (#[trigger] stats[j]).mv == mv;
            assert(edges[j].mv == mv);
        }
    }
    assert forall|j: int, k: int|
        0 <= j < stats.len() && 0 <= k < stats.len() && j != k implies (#[trigger] stats[j]).mv != (
    #[trigger] stats[k]).mv by {
        assert(edges[j].mv != edges[k].mv);
    }
}

proof fn lemma_grown_complete(t: TreeState, choice: spec_fn(TreeState) -> int, n: nat)
    requires
        picks_an_edge(choice),
        t.root.wf(),
        t.nodes.len() == 1,
        t.nodes[0].to_move == t.root.to_move,
        t.params.max_nodes > 1,
        t.nodes[0].edges.len() == 0,
    ensures
        ({
            let u = t.grown(choice, n);
            &&& u.root == t.root
            &&& u.params == t.params
            &&& u.nodes.len() >= 1
            &&& u.nodes[0].to_move == t.root.to_move
            &&& n == 0 ==> u == t
            &&& n > 0 ==> u.nodes[0].edges.len() > 0 && root_complete(u)
        }),
    decreases n,
{
    if n > 0 {
        lemma_grown_complete(t, choice, (n - 1) as nat);
        lemma_root_stays_complete(t.grown(choice, (n - 1) as nat), choice);
    }
}

/// What has been gone of the way down stays gone.
proof fn lemma_path_kept(t: TreeState, choice: spec_fn(TreeState) -> int)
    requires
        0 <= t.here < t.nodes.len(),
    ensures
        t.path.len() <= t.descended(choice).path.len(),
        t.descended(choice).path.take(t.path.len() as int) == t.path,
    decreases t.nodes.len() - t.here,
{
    let looked = t.arrived();
    let j = choice(looked);
    let next = looked.followed(j);
    let end = t.descended(choice);
    if looked.has_choice() {
        assert(next.path.take(t.path.len() as int) =~= t.path);
        if looked.leads_on(j) && t.here < next.here < t.nodes.len() && next.nodes.len()
            == t.nodes.len() {
            lemma_path_kept(next, choice);
            assert(end.path.take(t.path.len() as int) =~= end.path.take(
                next.path.len() as int,
            ).take(t.path.len() as int));
        }
    } else {
        assert(end.path.take(t.path.len() as int) =~= t.path);
    }
}

/// A simulation takes the edge that is chosen: its first step leaves the root by the
/// edge that `choice` picks there, once the root has been looked at.
pub proof fn law_simulations_take_the_chosen_edge(t: TreeState, choice: spec_fn(TreeState) -> int)
    requires
        0 < t.nodes.len(),
        t.begun().arrived().has_choice(),
        picks_an_edge(choice),
        t.begun().arrived().nodes[0].edges.len() <= 362,
    ensures
        ({
            let looked = t.begun().arrived();
            let j = choice(looked);
            let end = t.simulated(choice);
            looked.board.outcome(looked.nodes[0].edges[j].mv) is Ok ==> {
                &&& end.path.len() > 0
                &&& end.path[0].node == 0
                &&& end.path[0].edge == j
            }
        }),
{
    let start = t.begun();
    let looked = start.arrived();
    let j = choice(looked);
    let next = looked.followed(j);
    let down = start.descended(choice);
    assert(0 <= j < looked.nodes[0].edges.len());
    if looked.board.outcome(looked.nodes[0].edges[j].mv) is Ok {
        assert(next.path[0].edge == j as u32);
        if looked.leads_on(j) && start.here < next.here < start.nodes.len() && next.nodes.len()
            == start.nodes.len() {
            lemma_path_kept(next, choice);
            assert(down.path[0] == down.path.take(next.path.len() as int)[0]);
        }
    }
}

} // verus!
