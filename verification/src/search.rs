//! Putting a search together from its trees.
//!
//! One tree per thread, all rooted at the same position, and the root move
//! statistics are summed at the end. That is root parallelisation: no locks, no
//! shared mutable state, and each tree stays honest on its own.

use vstd::prelude::*;

use crate::board::Move;
use crate::mcts::{Candidate, SearchResult};
use crate::order;
use crate::tree;
use crate::tree::{Line, LineState, Report, RootStat};

verus! {

/// The share of each of `threads` threads in `playouts` playouts, rounded up.
pub open spec fn share(playouts: nat, threads: nat) -> nat {
    (playouts + threads - 1) as nat / threads
}

/// A share is the least that makes up the whole.
pub proof fn lemma_share(playouts: nat, threads: nat, n: int)
    requires
        threads > 0,
        n * threads >= playouts,
        (n - 1) * threads < playouts,
    ensures
        n == share(playouts, threads),
{
    let t = threads as int;
    let rest = playouts + threads - 1 - n * t;
    assert((n - 1) * t == n * t - t) by (nonlinear_arith);
    vstd::arithmetic::div_mod::lemma_fundamental_div_mod_converse(
        (playouts + threads - 1) as int,
        t,
        n,
        rest,
    );
}

/// How many playouts each of `threads` threads makes for `playouts` in all.
pub fn per_thread_playouts(playouts: u64, threads: u64) -> (r: u64)
    requires
        threads > 0,
    ensures
        r == share(playouts as nat, threads as nat),
        r * threads >= playouts,
        (r - 1) * threads < playouts,
{
    let q: u64 = playouts / threads;
    let rest: u64 = playouts % threads;
    proof {
        vstd::arithmetic::div_mod::lemma_fundamental_div_mod(playouts as int, threads as int);
        assert(q * threads == threads * q) by (nonlinear_arith);
        assert((q + 1) * threads == q * threads + threads) by (nonlinear_arith);
        assert((q - 1) * threads == q * threads - threads) by (nonlinear_arith);
        if rest > 0 {
            assert(q < u64::MAX) by (nonlinear_arith)
                requires
                    q * threads + rest == playouts,
                    playouts <= u64::MAX,
                    threads >= 1,
                    rest > 0,
            ;
        }
    }
    let each: u64 = if rest == 0 {
        q
    } else {
        q + 1
    };
    proof {
        lemma_share(playouts as nat, threads as nat, each as int);
    }
    each
}

/// The seed of thread number `t`: each has a stream of its own.
pub fn thread_seed(seed: u64, t: u64) -> (r: u64)
    ensures
        r == seed ^ t.wrapping_mul(0x9E37_79B9),
{
    seed ^ t.wrapping_mul(0x9E37_79B9)
}

/// Has a tree searched enough: has it made the playouts it was given, or run out
/// of time, or been given neither playouts nor time?
pub fn should_stop(done: u64, quota: Option<u64>, timed: bool, expired: bool) -> (r: bool)
    ensures
        r == {
            ||| quota matches Some(n) && done >= n
            ||| timed && expired
            ||| quota is None && !timed
        },
{
    match quota {
        Some(n) => done >= n || (timed && expired),
        None => !timed || expired,
    }
}

/// Is `i` the first of the stats for the move `mv`?
pub open spec fn first_stat(stats: Seq<RootStat>, mv: Move, i: int) -> bool {
    &&& 0 <= i < stats.len()
    &&& stats[i].mv == mv
    &&& forall|m: int| 0 <= m < i ==> (#[trigger] stats[m]).mv != mv
}

/// The stats with one more added in: summed with those for the same move, or put
/// last where the move is new.
pub open spec fn with_stat(stats: Seq<RootStat>, s: RootStat) -> Seq<RootStat> {
    if exists|i: int| first_stat(stats, s.mv, i) {
        let i = choose|i: int| first_stat(stats, s.mv, i);
        stats.update(
            i,
            RootStat {
                mv: s.mv,
                visits: (stats[i].visits + s.visits) as u64,
                wins: (stats[i].wins + s.wins) as u64,
            },
        )
    } else {
        stats.push(s)
    }
}

/// The stats with others added in, one after the other.
pub open spec fn with_stats(stats: Seq<RootStat>, more: Seq<RootStat>) -> Seq<RootStat>
    decreases more.len(),
{
    if more.len() == 0 {
        stats
    } else {
        with_stat(with_stats(stats, more.drop_last()), more.last())
    }
}

/// The stats of all the reports, summed move by move.
pub open spec fn merged(reports: Seq<Report>) -> Seq<RootStat>
    decreases reports.len(),
{
    if reports.len() == 0 {
        Seq::empty()
    } else {
        with_stats(merged(reports.drop_last()), reports.last().stats@)
    }
}

pub open spec fn visits_in(stats: Seq<RootStat>) -> int
    decreases stats.len(),
{
    if stats.len() == 0 {
        0
    } else {
        visits_in(stats.drop_last()) + stats.last().visits
    }
}

pub open spec fn wins_in(stats: Seq<RootStat>) -> int
    decreases stats.len(),
{
    if stats.len() == 0 {
        0
    } else {
        wins_in(stats.drop_last()) + stats.last().wins
    }
}

/// All the visits that the reports speak of.
pub open spec fn all_visits(reports: Seq<Report>) -> int
    decreases reports.len(),
{
    if reports.len() == 0 {
        0
    } else {
        all_visits(reports.drop_last()) + visits_in(reports.last().stats@)
    }
}

/// All the wins that the reports speak of.
pub open spec fn all_wins(reports: Seq<Report>) -> int
    decreases reports.len(),
{
    if reports.len() == 0 {
        0
    } else {
        all_wins(reports.drop_last()) + wins_in(reports.last().stats@)
    }
}

/// All the playouts that the reports speak of.
pub open spec fn all_playouts(reports: Seq<Report>) -> int
    decreases reports.len(),
{
    if reports.len() == 0 {
        0
    } else {
        all_playouts(reports.drop_last()) + reports.last().playouts
    }
}

/// The sums fit their machine types.
pub open spec fn sums_fit(reports: Seq<Report>) -> bool {
    &&& all_visits(reports) <= u64::MAX
    &&& all_wins(reports) <= u64::MAX
    &&& all_playouts(reports) <= u64::MAX
}

/// What root moves are ranked by.
pub open spec fn by_visits() -> spec_fn(RootStat) -> int {
    |s: RootStat| s.visits as int
}

/// The stats with the most visited first, and those of equal visits in the order
/// they came in.
pub open spec fn ranked(stats: Seq<RootStat>) -> Seq<RootStat> {
    order::ranked(stats, by_visits())
}

/// The last of the first `n` reports that made the most playouts.
pub open spec fn deepest(reports: Seq<Report>, n: nat) -> Option<int>
    decreases n,
{
    if n == 0 {
        None
    } else {
        match deepest(reports, (n - 1) as nat) {
            None => Some(n - 1),
            Some(b) => if reports[n - 1].playouts >= reports[b].playouts {
                Some(n - 1)
            } else {
                Some(b)
            },
        }
    }
}

/// The lines of the report that searched deepest; mixing lines from several trees
/// would read like a line nobody actually searched.
pub open spec fn deepest_lines(reports: Seq<Report>) -> Seq<LineState> {
    match deepest(reports, reports.len()) {
        Some(i) => tree::line_views(reports[i].lines@),
        None => Seq::empty(),
    }
}

/// The first of the lines that starts with the move `mv`, or the move alone.
pub open spec fn line_for(lines: Seq<LineState>, mv: Move) -> Seq<Move>
    decreases lines.len(),
{
    if lines.len() == 0 {
        seq![mv]
    } else if lines[0].mv == mv {
        lines[0].pv
    } else {
        line_for(lines.skip(1), mv)
    }
}

/// Is `c` the candidate that the stat `s` makes, with its line?
pub open spec fn is_candidate(c: Candidate, s: RootStat, lines: Seq<LineState>) -> bool {
    &&& c.mv == s.mv
    &&& c.visits == s.visits
    &&& c.wins == s.wins
    &&& c.pv@ == line_for(lines, s.mv)
}

proof fn lemma_visits_update(stats: Seq<RootStat>, i: int, s: RootStat)
    requires
        0 <= i < stats.len(),
    ensures
        visits_in(stats.update(i, s)) == visits_in(stats) - stats[i].visits + s.visits,
        wins_in(stats.update(i, s)) == wins_in(stats) - stats[i].wins + s.wins,
    decreases stats.len(),
{
    let less = stats.drop_last();
    if i < stats.len() - 1 {
        assert(stats.update(i, s).drop_last() =~= less.update(i, s));
        lemma_visits_update(less, i, s);
    } else {
        assert(stats.update(i, s).drop_last() =~= less);
    }
}

proof fn lemma_visits_part(stats: Seq<RootStat>, i: int)
    requires
        0 <= i < stats.len(),
    ensures
        stats[i].visits <= visits_in(stats),
        stats[i].wins <= wins_in(stats),
        0 <= visits_in(stats),
        0 <= wins_in(stats),
    decreases stats.len(),
{
    let less = stats.drop_last();
    if i < stats.len() - 1 {
        lemma_visits_part(less, i);
    } else if less.len() > 0 {
        lemma_visits_part(less, 0);
    } else {
        assert(visits_in(less) == 0 && wins_in(less) == 0);
    }
}

proof fn lemma_sums_grow(stats: Seq<RootStat>, n: int)
    requires
        0 <= n <= stats.len(),
    ensures
        0 <= visits_in(stats.take(n)) <= visits_in(stats),
        0 <= wins_in(stats.take(n)) <= wins_in(stats),
    decreases stats.len() - n,
{
    if n == stats.len() {
        assert(stats.take(n) =~= stats);
        if stats.len() > 0 {
            lemma_visits_part(stats, 0);
        }
    } else {
        lemma_sums_grow(stats, n + 1);
        assert(stats.take(n + 1).drop_last() =~= stats.take(n));
        if n > 0 {
            lemma_visits_part(stats.take(n), 0);
        }
    }
}

proof fn lemma_all_grow(reports: Seq<Report>, n: int)
    requires
        0 <= n <= reports.len(),
    ensures
        0 <= all_visits(reports.take(n)) <= all_visits(reports),
        0 <= all_wins(reports.take(n)) <= all_wins(reports),
        0 <= all_playouts(reports.take(n)) <= all_playouts(reports),
    decreases reports.len() - n,
{
    lemma_all_nonneg(reports.take(n));
    if n == reports.len() {
        assert(reports.take(n) =~= reports);
    } else {
        lemma_all_grow(reports, n + 1);
        assert(reports.take(n + 1).drop_last() =~= reports.take(n));
        lemma_sums_grow(reports[n].stats@, 0);
    }
}

proof fn lemma_all_nonneg(reports: Seq<Report>)
    ensures
        0 <= all_visits(reports),
        0 <= all_wins(reports),
        0 <= all_playouts(reports),
    decreases reports.len(),
{
    if reports.len() > 0 {
        lemma_all_nonneg(reports.drop_last());
        lemma_sums_grow(reports.last().stats@, 0);
    }
}

/// Adds one stat in.
fn add_stat(stats: &mut Vec<RootStat>, s: RootStat)
    requires
        visits_in(old(stats)@) + s.visits <= u64::MAX,
        wins_in(old(stats)@) + s.wins <= u64::MAX,
    ensures
        final(stats)@ == with_stat(old(stats)@, s),
        visits_in(final(stats)@) == visits_in(old(stats)@) + s.visits,
        wins_in(final(stats)@) == wins_in(old(stats)@) + s.wins,
{
    let ghost was = stats@;
    let mut i: usize = 0;
    while i < stats.len()
        invariant
            i <= stats.len(),
            stats@ == was,
            was == old(stats)@,
            visits_in(was) + s.visits <= u64::MAX,
            wins_in(was) + s.wins <= u64::MAX,
            forall|m: int| 0 <= m < i ==> (#[trigger] was[m]).mv != s.mv,
        decreases stats.len() - i,
    {
        if stats[i].mv == s.mv {
            proof {
                assert(first_stat(was, s.mv, i as int));
                let m = choose|m: int| first_stat(was, s.mv, m);
                assert(m == i) by {
                    if m < i {
                        assert(was[m].mv != s.mv);
                    }
                    if i < m {
                        assert(was[i as int].mv != s.mv);
                    }
                }
                lemma_visits_part(was, i as int);
            }
            let sum = RootStat {
                mv: s.mv,
                visits: stats[i].visits + s.visits,
                wins: stats[i].wins + s.wins,
            };
            proof {
                lemma_visits_update(was, i as int, sum);
            }
            stats[i] = sum;
            return;
        }
        i += 1;
    }
    assert forall|m: int| !first_stat(was, s.mv, m) by {}
    stats.push(s);
    assert(stats@.drop_last() =~= was);
}

/// Sums the stats of all reports.
fn merge(reports: &Vec<Report>) -> (r: Vec<RootStat>)
    requires
        sums_fit(reports@),
    ensures
        r@ == merged(reports@),
{
    let mut out: Vec<RootStat> = Vec::new();
    let mut i: usize = 0;
    assert(reports@.take(0) =~= Seq::<Report>::empty());
    assert(out@ =~= merged(reports@.take(0)));
    while i < reports.len()
        invariant
            i <= reports.len(),
            sums_fit(reports@),
            out@ == merged(reports@.take(i as int)),
            visits_in(out@) == all_visits(reports@.take(i as int)),
            wins_in(out@) == all_wins(reports@.take(i as int)),
        decreases reports.len() - i,
    {
        let ghost before = out@;
        let ghost more = reports@[i as int].stats@;
        let mut j: usize = 0;
        proof {
            assert(reports@.take(i + 1).drop_last() =~= reports@.take(i as int));
            lemma_all_grow(reports@, i + 1);
            assert(more.take(0) =~= Seq::<RootStat>::empty());
        }
        while j < reports[i].stats.len()
            invariant
                i < reports.len(),
                j <= more.len(),
                more == reports@[i as int].stats@,
                out@ == with_stats(before, more.take(j as int)),
                visits_in(out@) == visits_in(before) + visits_in(more.take(j as int)),
                wins_in(out@) == wins_in(before) + wins_in(more.take(j as int)),
                visits_in(before) + visits_in(more) <= u64::MAX,
                wins_in(before) + wins_in(more) <= u64::MAX,
            decreases more.len() - j,
        {
            proof {
                assert(more.take(j + 1).drop_last() =~= more.take(j as int));
                lemma_sums_grow(more, j + 1);
            }
            add_stat(&mut out, reports[i].stats[j]);
            j += 1;
        }
        assert(more.take(j as int) =~= more);
        i += 1;
    }
    assert(reports@.take(i as int) =~= reports@);
    out
}

/// The stats by visits, most visited first.
fn rank(stats: &Vec<RootStat>) -> (r: Vec<RootStat>)
    ensures
        r@ == ranked(stats@),
{
    let mut out: Vec<RootStat> = Vec::new();
    let mut i: usize = 0;
    assert(stats@.take(0) =~= Seq::<RootStat>::empty());
    assert(out@ =~= ranked(stats@.take(0)));
    while i < stats.len()
        invariant
            i <= stats.len(),
            out@ == ranked(stats@.take(i as int)),
        decreases stats.len() - i,
    {
        let s: RootStat = stats[i];
        let ghost sorted = out@;
        assert(stats@.take(i + 1).drop_last() =~= stats@.take(i as int));
        let mut k: usize = out.len();
        while k > 0 && out[k - 1].visits < s.visits
            invariant
                k <= sorted.len(),
                out@ == sorted,
                forall|j: int| k <= j < sorted.len() ==> (#[trigger] sorted[j]).visits < s.visits,
            decreases k,
        {
            k -= 1;
        }
        proof {
            order::lemma_placed_at(sorted, s, by_visits(), k as int);
        }
        out.insert(k, s);
        i += 1;
    }
    assert(stats@.take(i as int) =~= stats@);
    out
}

fn copy_moves(moves: &Vec<Move>) -> (r: Vec<Move>)
    ensures
        r@ == moves@,
{
    let mut out: Vec<Move> = Vec::new();
    let mut i: usize = 0;
    while i < moves.len()
        invariant
            i <= moves.len(),
            out@ =~= moves@.take(i as int),
        decreases moves.len() - i,
    {
        out.push(moves[i]);
        i += 1;
    }
    assert(moves@.take(i as int) =~= moves@);
    out
}

fn find_line(lines: &Vec<Line>, mv: Move) -> (r: Vec<Move>)
    ensures
        r@ == line_for(tree::line_views(lines@), mv),
{
    let ghost all = tree::line_views(lines@);
    let mut i: usize = 0;
    assert(all.skip(0) =~= all);
    while i < lines.len()
        invariant
            i <= lines.len(),
            all == tree::line_views(lines@),
            line_for(all, mv) == line_for(all.skip(i as int), mv),
        decreases lines.len() - i,
    {
        assert(all.skip(i as int)[0] == lines@[i as int]@);
        if lines[i].mv == mv {
            return copy_moves(&lines[i].pv);
        }
        assert(all.skip(i as int).skip(1) =~= all.skip(i + 1));
        i += 1;
    }
    let mut out: Vec<Move> = Vec::new();
    out.push(mv);
    assert(out@ =~= seq![mv]);
    out
}

/// Is this what the reports come to: the moves worth playing, most visited first, each
/// with the line that the deepest of the trees expects after it, and the playouts of
/// all of them?
pub open spec fn sums_up(r: SearchResult, reports: Seq<Report>) -> bool {
    let stats = ranked(merged(reports));
    &&& r.candidates@.len() == stats.len()
    &&& forall|i: int|
        0 <= i < stats.len() ==> is_candidate(
            #[trigger] r.candidates@[i],
            stats[i],
            deepest_lines(reports),
        )
    &&& r.best == if stats.len() > 0 {
        stats[0].mv
    } else {
        Move::Pass
    }
    &&& r.playouts == all_playouts(reports)
}

/// Adds up the reports of all trees: the moves worth playing, most visited first,
/// each with the line that the deepest of the trees expects after it.
pub fn summarise(reports: &Vec<Report>, elapsed: std::time::Duration, threads: usize) -> (r:
    SearchResult)
    requires
        sums_fit(reports@),
    ensures
        sums_up(r, reports@),
        r.elapsed == elapsed,
        r.threads == threads,
{
    let mut playouts: u64 = 0;
    let mut deep: Option<usize> = None;
    let mut i: usize = 0;
    assert(reports@.take(0) =~= Seq::<Report>::empty());
    while i < reports.len()
        invariant
            i <= reports.len(),
            sums_fit(reports@),
            playouts == all_playouts(reports@.take(i as int)),
            deep is None <==> deepest(reports@, i as nat) is None,
            deep matches Some(d) ==> d < i && deepest(reports@, i as nat) == Some(d as int),
        decreases reports.len() - i,
    {
        proof {
            assert(reports@.take(i + 1).drop_last() =~= reports@.take(i as int));
            lemma_all_grow(reports@, i + 1);
        }
        playouts += reports[i].playouts;
        let better: bool = match deep {
            None => true,
            Some(d) => reports[i].playouts >= reports[d].playouts,
        };
        if better {
            deep = Some(i);
        }
        i += 1;
    }
    assert(reports@.take(i as int) =~= reports@);
    let stats: Vec<RootStat> = rank(&merge(reports));
    let ghost lines = deepest_lines(reports@);
    let none: Vec<Line> = Vec::new();
    assert(tree::line_views(none@) =~= Seq::<LineState>::empty());
    let mut candidates: Vec<Candidate> = Vec::new();
    let mut k: usize = 0;
    while k < stats.len()
        invariant
            k <= stats.len(),
            candidates@.len() == k,
            lines == deepest_lines(reports@),
            tree::line_views(none@) == Seq::<LineState>::empty(),
            deep is None <==> deepest(reports@, reports@.len()) is None,
            deep matches Some(d) ==> d < reports.len() && deepest(reports@, reports@.len()) == Some(
                d as int,
            ),
            forall|m: int|
                0 <= m < k ==> is_candidate(#[trigger] candidates@[m], stats@[m], lines),
        decreases stats.len() - k,
    {
        let s: RootStat = stats[k];
        let pv: Vec<Move> = match deep {
            Some(d) => find_line(&reports[d].lines, s.mv),
            None => find_line(&none, s.mv),
        };
        candidates.push(Candidate { mv: s.mv, visits: s.visits, wins: s.wins, pv });
        k += 1;
    }
    let best: Move = if stats.len() > 0 {
        stats[0].mv
    } else {
        Move::Pass
    };
    SearchResult { best, candidates, playouts, elapsed, threads }
}

/// Do the stats name each move once?
pub open spec fn once_each(stats: Seq<RootStat>) -> bool {
    forall|i: int, j: int|
        0 <= i < j < stats.len() ==> (#[trigger] stats[i]).mv != (#[trigger] stats[j]).mv
}

/// Is the move of `s` one that some report speaks of?
pub open spec fn is_reported(reports: Seq<Report>, mv: Move) -> bool {
    exists|r: int, k: int|
        0 <= r < reports.len() && 0 <= k < reports[r].stats@.len() && (
        #[trigger] reports[r].stats@[k]).mv == mv
}

proof fn lemma_with_stat(stats: Seq<RootStat>, s: RootStat)
    requires
        once_each(stats),
        visits_in(stats) + s.visits <= u64::MAX,
        wins_in(stats) + s.wins <= u64::MAX,
    ensures
        once_each(with_stat(stats, s)),
        visits_in(with_stat(stats, s)) == visits_in(stats) + s.visits,
        wins_in(with_stat(stats, s)) == wins_in(stats) + s.wins,
        forall|i: int|
            0 <= i < with_stat(stats, s).len() ==> (#[trigger] with_stat(stats, s)[i]).mv == s.mv
                || exists|k: int|
                0 <= k < stats.len() && (#[trigger] stats[k]).mv == with_stat(stats, s)[i].mv,
{
    let now = with_stat(stats, s);
    if exists|i: int| first_stat(stats, s.mv, i) {
        let i = choose|i: int| first_stat(stats, s.mv, i);
        lemma_visits_part(stats, i);
        lemma_visits_update(stats, i, now[i]);
        assert forall|m: int| 0 <= m < now.len() implies (#[trigger] now[m]).mv == s.mv || exists|
            k: int,
        |
            0 <= k < stats.len() && (#[trigger] stats[k]).mv == now[m].mv by {
            if m != i {
                assert(stats[m].mv == now[m].mv);
            }
        }
    } else {
        assert(now.drop_last() =~= stats);
        assert forall|m: int| 0 <= m < stats.len() implies (#[trigger] stats[m]).mv != s.mv by {
            if stats[m].mv == s.mv {
                lemma_first_exists(stats, s.mv, m);
            }
        }
        assert forall|m: int| 0 <= m < now.len() implies (#[trigger] now[m]).mv == s.mv || exists|
            k: int,
        |
            0 <= k < stats.len() && (#[trigger] stats[k]).mv == now[m].mv by {
            if m < stats.len() {
                assert(stats[m].mv == now[m].mv);
            }
        }
    }
}

proof fn lemma_first_exists(stats: Seq<RootStat>, mv: Move, m: int)
    requires
        0 <= m < stats.len(),
        stats[m].mv == mv,
    ensures
        exists|i: int| first_stat(stats, mv, i),
    decreases m,
{
    if forall|k: int| 0 <= k < m ==> (#[trigger] stats[k]).mv != mv {
        assert(first_stat(stats, mv, m));
    } else {
        let k = choose|k: int| 0 <= k < m && (#[trigger] stats[k]).mv == mv;
        lemma_first_exists(stats, mv, k);
    }
}

/// Merging sums: every move is named once, no visit and no win is lost or invented,
/// and no move comes in that no tree has reported. So a search offers no illegal
/// move, since no tree does.
pub proof fn law_merging_sums(reports: Seq<Report>)
    requires
        sums_fit(reports),
    ensures
        once_each(merged(reports)),
        visits_in(merged(reports)) == all_visits(reports),
        wins_in(merged(reports)) == all_wins(reports),
        forall|i: int|
            0 <= i < merged(reports).len() ==> is_reported(
                reports,
                (#[trigger] merged(reports)[i]).mv,
            ),
    decreases reports.len(),
{
    if reports.len() > 0 {
        let less = reports.drop_last();
        let n = reports.len() - 1;
        lemma_all_grow(reports, n);
        assert(reports.take(n) =~= less);
        law_merging_sums(less);
        lemma_with_stats(reports, merged(less), reports.last().stats@, n);
        assert forall|i: int| 0 <= i < merged(less).len() implies is_reported(
            reports,
            (#[trigger] merged(less)[i]).mv,
        ) by {
            let mv = merged(less)[i].mv;
            let (r, k) = choose|r: int, k: int|
                0 <= r < less.len() && 0 <= k < less[r].stats@.len() && (
                #[trigger] less[r].stats@[k]).mv == mv;
            assert(reports[r].stats@[k].mv == mv);
        }
    }
}

proof fn lemma_with_stats(
    reports: Seq<Report>,
    stats: Seq<RootStat>,
    more: Seq<RootStat>,
    r: int,
)
    requires
        once_each(stats),
        visits_in(stats) + visits_in(more) <= u64::MAX,
        wins_in(stats) + wins_in(more) <= u64::MAX,
        0 <= r < reports.len(),
        more.len() <= reports[r].stats@.len(),
        forall|k: int| 0 <= k < more.len() ==> #[trigger] more[k] == reports[r].stats@[k],
    ensures
        once_each(with_stats(stats, more)),
        visits_in(with_stats(stats, more)) == visits_in(stats) + visits_in(more),
        wins_in(with_stats(stats, more)) == wins_in(stats) + wins_in(more),
        forall|i: int|
            0 <= i < with_stats(stats, more).len() ==> is_reported(
                reports,
                (#[trigger] with_stats(stats, more)[i]).mv,
            ) || exists|k: int|
                0 <= k < stats.len() && (#[trigger] stats[k]).mv == with_stats(stats, more)[i].mv,
    decreases more.len(),
{
    let now = with_stats(stats, more);
    if more.len() == 0 {
        assert forall|i: int| 0 <= i < now.len() implies exists|k: int|
            0 <= k < stats.len() && (#[trigger] stats[k]).mv == (#[trigger] now[i]).mv by {
            assert(stats[i].mv == now[i].mv);
        }
    } else {
        let less = more.drop_last();
        let s = more.last();
        lemma_sums_grow(more, more.len() - 1);
        assert(more.take(more.len() - 1) =~= less);
        lemma_with_stats(reports, stats, less, r);
        let mid = with_stats(stats, less);
        lemma_with_stat(mid, s);
        assert forall|i: int| 0 <= i < now.len() implies is_reported(
            reports,
            (#[trigger] now[i]).mv,
        ) || exists|k: int| 0 <= k < stats.len() && (#[trigger] stats[k]).mv == now[i].mv by {
            if now[i].mv == s.mv {
                let k = more.len() - 1;
                assert(more[k] == reports[r].stats@[k]);
                assert(reports[r].stats@[k].mv == now[i].mv);
            } else {
                let m = choose|m: int| 0 <= m < mid.len() && (#[trigger] mid[m]).mv == now[i].mv;
                if is_reported(reports, mid[m].mv) {
                } else {
                    let k = choose|k: int|
                        0 <= k < stats.len() && (#[trigger] stats[k]).mv == mid[m].mv;
                    assert(stats[k].mv == now[i].mv);
                }
            }
        }
    }
}

/// The visits that some stats give to the move `mv`, all told.
pub open spec fn visits_for(stats: Seq<RootStat>, mv: Move) -> int
    decreases stats.len(),
{
    if stats.len() == 0 {
        0
    } else {
        visits_for(stats.drop_last(), mv) + if stats.last().mv == mv {
            stats.last().visits as int
        } else {
            0
        }
    }
}

/// The wins that some stats give to the move `mv`, all told.
pub open spec fn wins_for(stats: Seq<RootStat>, mv: Move) -> int
    decreases stats.len(),
{
    if stats.len() == 0 {
        0
    } else {
        wins_for(stats.drop_last(), mv) + if stats.last().mv == mv {
            stats.last().wins as int
        } else {
            0
        }
    }
}

/// The visits that all the reports give to the move `mv`.
pub open spec fn all_visits_for(reports: Seq<Report>, mv: Move) -> int
    decreases reports.len(),
{
    if reports.len() == 0 {
        0
    } else {
        all_visits_for(reports.drop_last(), mv) + visits_for(reports.last().stats@, mv)
    }
}

/// The wins that all the reports give to the move `mv`.
pub open spec fn all_wins_for(reports: Seq<Report>, mv: Move) -> int
    decreases reports.len(),
{
    if reports.len() == 0 {
        0
    } else {
        all_wins_for(reports.drop_last(), mv) + wins_for(reports.last().stats@, mv)
    }
}

proof fn lemma_for_update(stats: Seq<RootStat>, i: int, s: RootStat, mv: Move)
    requires
        0 <= i < stats.len(),
        stats[i].mv == s.mv,
    ensures
        visits_for(stats.update(i, s), mv) == visits_for(stats, mv) + if s.mv == mv {
            s.visits - stats[i].visits
        } else {
            0
        },
        wins_for(stats.update(i, s), mv) == wins_for(stats, mv) + if s.mv == mv {
            s.wins - stats[i].wins
        } else {
            0
        },
    decreases stats.len(),
{
    let less = stats.drop_last();
    let now = stats.update(i, s);
    if i < stats.len() - 1 {
        lemma_for_update(less, i, s, mv);
        assert(now.drop_last() =~= less.update(i, s));
    } else {
        assert(now.drop_last() =~= less);
    }
}

proof fn lemma_for_one(stats: Seq<RootStat>, s: RootStat, mv: Move)
    requires
        once_each(stats),
        visits_in(stats) + s.visits <= u64::MAX,
        wins_in(stats) + s.wins <= u64::MAX,
    ensures
        visits_for(with_stat(stats, s), mv) == visits_for(stats, mv) + if s.mv == mv {
            s.visits as int
        } else {
            0
        },
        wins_for(with_stat(stats, s), mv) == wins_for(stats, mv) + if s.mv == mv {
            s.wins as int
        } else {
            0
        },
        has_move(with_stat(stats, s), mv) <==> has_move(stats, mv) || s.mv == mv,
{
    let now = with_stat(stats, s);
    if exists|i: int| first_stat(stats, s.mv, i) {
        let i = choose|i: int| first_stat(stats, s.mv, i);
        lemma_visits_part(stats, i);
        lemma_for_update(stats, i, now[i], mv);
        assert(now[i].mv == s.mv);
        if has_move(stats, mv) {
            let k = choose|k: int| 0 <= k < stats.len() && (#[trigger] stats[k]).mv == mv;
            assert(now[k].mv == mv);
        }
        if has_move(now, mv) {
            let k = choose|k: int| 0 <= k < now.len() && (#[trigger] now[k]).mv == mv;
            assert(stats[k].mv == mv);
        }
    } else {
        assert(now.drop_last() =~= stats);
        assert(now.last() == s);
        if has_move(stats, mv) {
            let k = choose|k: int| 0 <= k < stats.len() && (#[trigger] stats[k]).mv == mv;
            assert(now[k].mv == mv);
        }
        assert(now[stats.len() as int].mv == s.mv);
        if has_move(now, mv) && s.mv != mv {
            let k = choose|k: int| 0 <= k < now.len() && (#[trigger] now[k]).mv == mv;
            assert(stats[k].mv == mv);
        }
    }
}

/// Do the stats speak of the move `mv`?
pub open spec fn has_move(stats: Seq<RootStat>, mv: Move) -> bool {
    exists|k: int| 0 <= k < stats.len() && (#[trigger] stats[k]).mv == mv
}

proof fn lemma_for_many(stats: Seq<RootStat>, more: Seq<RootStat>, mv: Move)
    requires
        once_each(stats),
        visits_in(stats) + visits_in(more) <= u64::MAX,
        wins_in(stats) + wins_in(more) <= u64::MAX,
    ensures
        once_each(with_stats(stats, more)),
        visits_in(with_stats(stats, more)) == visits_in(stats) + visits_in(more),
        wins_in(with_stats(stats, more)) == wins_in(stats) + wins_in(more),
        visits_for(with_stats(stats, more), mv) == visits_for(stats, mv) + visits_for(more, mv),
        wins_for(with_stats(stats, more), mv) == wins_for(stats, mv) + wins_for(more, mv),
        has_move(with_stats(stats, more), mv) <==> has_move(stats, mv) || has_move(more, mv),
    decreases more.len(),
{
    if more.len() > 0 {
        let less = more.drop_last();
        let s = more.last();
        lemma_sums_grow(more, more.len() - 1);
        assert(more.take(more.len() - 1) =~= less);
        lemma_for_many(stats, less, mv);
        lemma_with_stat(with_stats(stats, less), s);
        lemma_for_one(with_stats(stats, less), s, mv);
        if has_move(less, mv) {
            let k = choose|k: int| 0 <= k < less.len() && (#[trigger] less[k]).mv == mv;
            assert(more[k].mv == mv);
        }
        assert(more[more.len() - 1].mv == s.mv);
        if has_move(more, mv) && s.mv != mv {
            let k = choose|k: int| 0 <= k < more.len() && (#[trigger] more[k]).mv == mv;
            assert(less[k].mv == mv);
        }
    }
}

proof fn lemma_for_all(reports: Seq<Report>, mv: Move)
    requires
        sums_fit(reports),
    ensures
        once_each(merged(reports)),
        visits_in(merged(reports)) == all_visits(reports),
        wins_in(merged(reports)) == all_wins(reports),
        visits_for(merged(reports), mv) == all_visits_for(reports, mv),
        wins_for(merged(reports), mv) == all_wins_for(reports, mv),
        has_move(merged(reports), mv) <==> is_reported(reports, mv),
    decreases reports.len(),
{
    if reports.len() > 0 {
        let less = reports.drop_last();
        let n = reports.len() - 1;
        let more = reports.last().stats@;
        lemma_all_grow(reports, n);
        assert(reports.take(n) =~= less);
        lemma_for_all(less, mv);
        lemma_for_many(merged(less), more, mv);
        if is_reported(less, mv) {
            let (r, k) = choose|r: int, k: int|
                0 <= r < less.len() && 0 <= k < less[r].stats@.len() && (
                #[trigger] less[r].stats@[k]).mv == mv;
            assert(reports[r].stats@[k].mv == mv);
        }
        if has_move(more, mv) {
            let k = choose|k: int| 0 <= k < more.len() && (#[trigger] more[k]).mv == mv;
            assert(reports[n].stats@[k].mv == mv);
        }
        if is_reported(reports, mv) {
            let (r, k) = choose|r: int, k: int|
                0 <= r < reports.len() && 0 <= k < reports[r].stats@.len() && (
                #[trigger] reports[r].stats@[k]).mv == mv;
            if r < n {
                assert(less[r].stats@[k].mv == mv);
            } else {
                assert(more[k].mv == mv);
            }
        }
    }
}

proof fn lemma_for_once(stats: Seq<RootStat>, i: int)
    requires
        once_each(stats),
        0 <= i < stats.len(),
    ensures
        visits_for(stats, stats[i].mv) == stats[i].visits,
        wins_for(stats, stats[i].mv) == stats[i].wins,
    decreases stats.len(),
{
    let less = stats.drop_last();
    if i < less.len() {
        lemma_for_once(less, i);
        assert(less[i] == stats[i]);
        assert(stats[i].mv != stats[stats.len() - 1].mv);
    } else {
        lemma_for_none(less, stats[i].mv);
    }
}

proof fn lemma_for_none(stats: Seq<RootStat>, mv: Move)
    requires
        forall|k: int| 0 <= k < stats.len() ==> (#[trigger] stats[k]).mv != mv,
    ensures
        visits_for(stats, mv) == 0,
        wins_for(stats, mv) == 0,
    decreases stats.len(),
{
    if stats.len() > 0 {
        assert(stats[stats.len() - 1].mv != mv);
        lemma_for_none(stats.drop_last(), mv);
    }
}

proof fn lemma_ranked_same(stats: Seq<RootStat>, s: RootStat)
    ensures
        ranked(stats).contains(s) <==> stats.contains(s),
        ranked(stats).len() == stats.len(),
{
    broadcast use vstd::seq_lib::group_to_multiset_ensures;

    order::law_ranking(stats, by_visits());
    assert(ranked(stats).to_multiset().count(s) == stats.to_multiset().count(s));
}

/// What a search offers is what all its trees have seen. The candidates are the moves
/// that some tree has reported. Each has as many visits as all the trees gave it
/// together, and as many wins. They come with the most visited first, and the first of
/// them is the move to play; where there is none, the answer is to pass.
pub proof fn law_the_most_visited_move_is_best(r: SearchResult, reports: Seq<Report>, mv: Move)
    requires
        sums_fit(reports),
        sums_up(r, reports),
    ensures
        r.best == if r.candidates@.len() > 0 {
            r.candidates@[0].mv
        } else {
            Move::Pass
        },
        forall|i: int, j: int|
            0 <= i < j < r.candidates@.len() ==> (#[trigger] r.candidates@[i]).visits >= (
            #[trigger] r.candidates@[j]).visits,
        forall|i: int|
            0 <= i < r.candidates@.len() && (#[trigger] r.candidates@[i]).mv == mv ==> {
                &&& r.candidates@[i].visits == all_visits_for(reports, mv)
                &&& r.candidates@[i].wins == all_wins_for(reports, mv)
            },
        is_reported(reports, mv) <==> exists|i: int|
            0 <= i < r.candidates@.len() && (#[trigger] r.candidates@[i]).mv == mv,
        r.playouts == all_playouts(reports),
{
    let stats = merged(reports);
    let top = ranked(stats);
    order::law_ranking(stats, by_visits());
    lemma_for_all(reports, mv);
    assert forall|i: int, j: int| 0 <= i < j < r.candidates@.len() implies (
    #[trigger] r.candidates@[i]).visits >= (#[trigger] r.candidates@[j]).visits by {
        assert(is_candidate(r.candidates@[i], top[i], deepest_lines(reports)));
        assert(is_candidate(r.candidates@[j], top[j], deepest_lines(reports)));
        assert(by_visits()(top[i]) >= by_visits()(top[j]));
    }
    assert forall|i: int|
        0 <= i < r.candidates@.len() && (#[trigger] r.candidates@[i]).mv == mv implies {
        &&& r.candidates@[i].visits == all_visits_for(reports, mv)
        &&& r.candidates@[i].wins == all_wins_for(reports, mv)
        &&& is_reported(reports, mv)
    } by {
        assert(is_candidate(r.candidates@[i], top[i], deepest_lines(reports)));
        lemma_ranked_same(stats, top[i]);
        let k = choose|k: int| 0 <= k < stats.len() && stats[k] == top[i];
        lemma_for_once(stats, k);
    }
    if is_reported(reports, mv) {
        let k = choose|k: int| 0 <= k < stats.len() && (#[trigger] stats[k]).mv == mv;
        lemma_ranked_same(stats, stats[k]);
        let i = choose|i: int| 0 <= i < top.len() && top[i] == stats[k];
        assert(is_candidate(r.candidates@[i], top[i], deepest_lines(reports)));
        assert(r.candidates@[i].mv == mv);
    }
    if top.len() > 0 {
        assert(is_candidate(r.candidates@[0], top[0], deepest_lines(reports)));
    }
}

/// The lines that are shown all come from one tree, and no tree has made more playouts
/// than that one: the line of a candidate is the one that this tree has for its move,
/// or the move alone where it has none.
pub proof fn law_lines_come_from_the_deepest_tree(r: SearchResult, reports: Seq<Report>, i: int)
    requires
        sums_up(r, reports),
        0 <= i < r.candidates@.len(),
        reports.len() > 0,
    ensures
        exists|d: int|
            {
                &&& #[trigger] is_deepest(reports, d)
                &&& r.candidates@[i].pv@ == seq![r.candidates@[i].mv] || exists|k: int|
                    0 <= k < reports[d].lines@.len() && (#[trigger] reports[d].lines@[k]).mv
                        == r.candidates@[i].mv && reports[d].lines@[k].pv@ == r.candidates@[i].pv@
                &&& (forall|k: int|
                    0 <= k < reports[d].lines@.len() ==> (#[trigger] reports[d].lines@[k]).mv
                        != r.candidates@[i].mv) ==> r.candidates@[i].pv@ == seq![
                    r.candidates@[i].mv,
                ]
                &&& forall|k: int|
                    0 <= k < reports[d].lines@.len() && (#[trigger] reports[d].lines@[k]).mv
                        == r.candidates@[i].mv && (forall|m: int|
                        0 <= m < k ==> (#[trigger] reports[d].lines@[m]).mv
                            != r.candidates@[i].mv) ==> r.candidates@[i].pv@
                        == reports[d].lines@[k].pv@
            },
{
    let n = reports.len();
    lemma_deepest(reports, n);
    let d = deepest(reports, n)->0;
    assert(is_deepest(reports, d));
    let stats = ranked(merged(reports));
    assert(is_candidate(r.candidates@[i], stats[i], deepest_lines(reports)));
    let lines = tree::line_views(reports[d].lines@);
    let mv = r.candidates@[i].mv;
    lemma_line_for(lines, mv);
    if exists|k: int| 0 <= k < lines.len() && (#[trigger] lines[k]).mv == mv {
        let k = choose|k: int|
            0 <= k < lines.len() && (#[trigger] lines[k]).mv == mv && lines[k].pv == line_for(
                lines,
                mv,
            );
        assert(reports[d].lines@[k]@ == lines[k]);
    }
    assert forall|k: int| 0 <= k < reports[d].lines@.len() implies (
    #[trigger] reports[d].lines@[k]).mv == lines[k].mv && reports[d].lines@[k].pv@
        == lines[k].pv by {
        assert(reports[d].lines@[k]@ == lines[k]);
    }
    assert forall|k: int|
        0 <= k < reports[d].lines@.len() && (#[trigger] reports[d].lines@[k]).mv == mv && (forall|
            m: int,
        |
            0 <= m < k ==> (#[trigger] reports[d].lines@[m]).mv != mv) implies r.candidates@[i].pv@
        == reports[d].lines@[k].pv@ by {
        assert forall|m: int| 0 <= m < k implies (#[trigger] lines[m]).mv != mv by {
            assert(reports[d].lines@[m].mv != mv);
        }
        lemma_line_first(lines, mv, k);
    }
}

/// Has none of the trees made more playouts than number `d`?
pub open spec fn is_deepest(reports: Seq<Report>, d: int) -> bool {
    &&& 0 <= d < reports.len()
    &&& forall|k: int|
        0 <= k < reports.len() ==> (#[trigger] reports[k]).playouts <= reports[d].playouts
}

proof fn lemma_deepest(reports: Seq<Report>, n: nat)
    requires
        n <= reports.len(),
    ensures
        deepest(reports, n) is None <==> n == 0,
        deepest(reports, n) matches Some(d) ==> 0 <= d < n && forall|k: int|
            0 <= k < n ==> (#[trigger] reports[k]).playouts <= reports[d].playouts,
    decreases n,
{
    if n > 0 {
        lemma_deepest(reports, (n - 1) as nat);
    }
}

proof fn lemma_line_for(lines: Seq<LineState>, mv: Move)
    ensures
        (exists|k: int| 0 <= k < lines.len() && (#[trigger] lines[k]).mv == mv) ==> exists|k: int|
            0 <= k < lines.len() && (#[trigger] lines[k]).mv == mv && lines[k].pv == line_for(
                lines,
                mv,
            ),
        (forall|k: int| 0 <= k < lines.len() ==> (#[trigger] lines[k]).mv != mv) ==> line_for(
            lines,
            mv,
        ) == seq![mv],
    decreases lines.len(),
{
    if lines.len() > 0 {
        let rest = lines.skip(1);
        lemma_line_for(rest, mv);
        if lines[0].mv != mv {
            if exists|k: int| 0 <= k < lines.len() && (#[trigger] lines[k]).mv == mv {
                let k = choose|k: int| 0 <= k < lines.len() && (#[trigger] lines[k]).mv == mv;
                assert(rest[k - 1].mv == mv);
                let m = choose|m: int|
                    0 <= m < rest.len() && (#[trigger] rest[m]).mv == mv && rest[m].pv == line_for(
                        rest,
                        mv,
                    );
                assert(lines[m + 1].mv == mv);
            } else {
                assert forall|k: int| 0 <= k < rest.len() implies (#[trigger] rest[k]).mv != mv by {
                    assert(lines[k + 1].mv != mv);
                }
            }
        }
    }
}

proof fn lemma_line_first(lines: Seq<LineState>, mv: Move, k: int)
    requires
        0 <= k < lines.len(),
        lines[k].mv == mv,
        forall|m: int| 0 <= m < k ==> (#[trigger] lines[m]).mv != mv,
    ensures
        line_for(lines, mv) == lines[k].pv,
    decreases lines.len(),
{
    if k > 0 {
        assert(lines[0].mv != mv);
        let rest = lines.skip(1);
        assert forall|m: int| 0 <= m < k - 1 implies (#[trigger] rest[m]).mv != mv by {
            assert(lines[m + 1].mv != mv);
        }
        lemma_line_first(rest, mv, k - 1);
    }
}

/// Each thread has a stream of random numbers of its own: the seeds of two threads of
/// one search are never the same.
pub proof fn law_threads_have_seeds_of_their_own(seed: u64, t: u64, u: u64)
    requires
        t < 0x1_0000_0000,
        u < 0x1_0000_0000,
        t != u,
    ensures
        seed ^ t.wrapping_mul(0x9E37_79B9) != seed ^ u.wrapping_mul(0x9E37_79B9),
{
    assert(t * 0x9E37_79B9 <= u64::MAX && u * 0x9E37_79B9 <= u64::MAX) by (nonlinear_arith)
        requires
            t < 0x1_0000_0000,
            u < 0x1_0000_0000,
    ;
    let a = t.wrapping_mul(0x9E37_79B9);
    let b = u.wrapping_mul(0x9E37_79B9);
    assert(a == t * 0x9E37_79B9 && b == u * 0x9E37_79B9);
    assert(a != b) by (nonlinear_arith)
        requires
            a == t * 0x9E37_79B9,
            b == u * 0x9E37_79B9,
            t != u,
    ;
    assert(a != b ==> seed ^ a != seed ^ b) by (bit_vector);
}

} // verus!
