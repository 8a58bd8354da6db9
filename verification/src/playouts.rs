//! What can be relied on in a playout: which moves it makes, and when it ends.

use vstd::prelude::*;

use crate::area;
use crate::board;
use crate::board::{Cell, Color, Move, Point, Position};
use crate::laws;
use crate::mcts;
use crate::mcts::Playout;
use crate::rules;
use crate::tree;

verus! {

/// Does the list hold every empty point of the board, each of them once?
pub open spec fn lists_the_empties(pos: Position, empties: Seq<Point>) -> bool {
    &&& empties.no_duplicates()
    &&& forall|pt: Point| #[trigger]
        empties.contains(pt) <==> pos.on_board(pt as int) && pos.cells[pt as int] == Cell::Empty
}

proof fn lemma_listed(pos: Position)
    requires
        pos.wf(),
    ensures
        lists_the_empties(pos, mcts::empty_points(pos)),
{
    let pts = board::points_of(pos.size);
    let keep = |pt: Point| pos.cells[pt as int] == Cell::Empty;
    assert forall|j: int, k: int| 0 <= j < pts.len() && 0 <= k < pts.len() && j != k implies pts[j]
        != pts[k] by {
        board::lemma_points_distinct(pos.size, j, k);
    }
    tree::lemma_kept(pts, keep);
    assert forall|pt: Point| #[trigger]
        mcts::empty_points(pos).contains(pt) <==> pos.on_board(pt as int) && pos.cells[pt as int]
            == Cell::Empty by {
        if pts.contains(pt) {
            let i = choose|i: int| 0 <= i < pts.len() && pts[i] == pt;
            board::lemma_points_on_board(pos.size, i);
        }
        if pos.on_board(pt as int) {
            board::lemma_points_cover(pos.size, pt as int);
        }
    }
}

proof fn lemma_without(s: Seq<Point>, pt: Point)
    requires
        s.no_duplicates(),
        s.contains(pt),
    ensures
        mcts::without_first(s, pt).no_duplicates(),
        forall|x: Point| #[trigger]
            mcts::without_first(s, pt).contains(x) <==> s.contains(x) && x != pt,
{
    s.index_of_first_ensures(pt);
    let i = s.index_of_first(pt)->0;
    let t = mcts::without_first(s, pt);
    assert(t == s.update(i, s.last()).drop_last());
    assert forall|x: Point| #[trigger] t.contains(x) <==> s.contains(x) && x != pt by {
        if t.contains(x) {
            let k = choose|k: int| 0 <= k < t.len() && t[k] == x;
            if k == i {
                assert(s[s.len() - 1] == x);
            } else {
                assert(s[k] == x);
            }
        }
        if s.contains(x) && x != pt {
            let k = choose|k: int| 0 <= k < s.len() && s[k] == x;
            if k == s.len() - 1 {
                assert(t[i] == x);
            } else {
                assert(t[k] == x);
            }
        }
    }
}

/// A playout always knows the empty points of its board, all of them and no others:
/// one that does goes on to do so after its next move.
#[verifier::rlimit(40)]
pub proof fn law_playouts_know_the_empty_points(p: Playout, percent: u32)
    requires
        p.pos.wf(),
        lists_the_empties(p.pos, p.empties),
    ensures
        lists_the_empties(p.step(percent).pos, p.step(percent).empties),
        lists_the_empties(p.pos, Playout::from(p.pos, p.rng, p.moves).empties),
{
    let pos = p.pos;
    lemma_listed(pos);
    let (mv, rng) = p.choice(percent);
    if let Move::Play(pt) = mv {
        if let Ok(next) = pos.outcome(mv) {
            laws::law_moves_keep_the_board_sound(pos, mv);
            lemma_listed(next);
            let c = pos.to_move;
            rules::lemma_after_own(pos.size, pos.cells, pt as int, c);
            laws::law_stones_are_conserved(pos, pt);
            if next.black_prisoners + next.white_prisoners == pos.black_prisoners
                + pos.white_prisoners {
                let gone = rules::prisoners_of(pos.cells, pt as int, c);
                rules::lemma_captures(pos.size, rules::place(pos.cells, pt as int, c), pt as int, c);
                assert(gone.len() == 0);
                assert(gone =~= Set::<int>::empty()) by {
                    lemma_no_prisoners(pos, pt, c);
                }
                lemma_without(p.empties, pt);
            }
        }
    }
}

proof fn lemma_no_prisoners(pos: Position, pt: Point, c: Color)
    requires
        pos.wf(),
        pos.on_board(pt as int),
        rules::prisoners_of(pos.cells, pt as int, c).len() == 0,
    ensures
        rules::prisoners_of(pos.cells, pt as int, c) == Set::<int>::empty(),
{
    let gone = rules::prisoners_of(pos.cells, pt as int, c);
    let all = vstd::set_lib::set_int_range(0, 441);
    vstd::set_lib::lemma_int_range(0, 441);
    assert(gone.subset_of(all));
    vstd::set_lib::lemma_len_subset(gone, all);
    assert(gone =~= Set::<int>::empty());
}

/// May a playout play at `pt`: is it an empty point of the board where `c` may play,
/// that is not one of its own eyes, and that does not leave the new chain in atari?
pub open spec fn sensible(pos: Position, pt: Point, c: Color) -> bool {
    &&& pos.on_board(pt as int)
    &&& pos.illegal(pt, c) is None
    &&& !rules::eyelike(pos.cells, pt as int, c)
    &&& !rules::self_atari(pos.cells, pt as int, c)
}

proof fn lemma_sample(pos: Position, empties: Seq<Point>, c: Color, rng: u64, tries: nat)
    requires
        0 < empties.len() <= 361,
    ensures
        (mcts::sample(pos, empties, c, rng, tries)).0 matches Some(i) ==> 0 <= i < empties.len()
            && mcts::is_playable(pos, empties[i], c),
    decreases tries,
{
    if tries > 0 {
        let drawn = mcts::advance(rng);
        mcts::lemma_pick(drawn, empties.len());
        lemma_sample(pos, empties, c, drawn, (tries - 1) as nat);
    }
}

proof fn lemma_walk(pos: Position, empties: Seq<Point>, c: Color, start: int, k: nat)
    requires
        0 <= start < empties.len(),
        k <= empties.len(),
    ensures
        match mcts::walk(pos, empties, c, start, k) {
            Some(i) => 0 <= i < empties.len() && mcts::is_playable(pos, empties[i], c),
            None => forall|m: int|
                k <= m < empties.len() ==> !mcts::is_playable(
                    pos,
                    empties[#[trigger] mcts::turned(start, m, empties.len() as int)],
                    c,
                ),
        },
    decreases empties.len() - k,
{
    if k < empties.len() {
        lemma_walk(pos, empties, c, start, k + 1);
    }
}

/// A playout never gives up early and never plays senselessly: where it answers no
/// atari, it plays a legal point that neither fills an own eye nor puts its own chain
/// into atari, and it passes only where there is no such point on the board.
#[verifier::rlimit(40)]
pub proof fn law_playouts_pass_only_when_they_must(p: Playout, percent: u32)
    requires
        p.pos.wf(),
        lists_the_empties(p.pos, p.empties),
        p.empties.len() <= 361,
        (p.forced(percent)).0 is None,
    ensures
        match (p.choice(percent)).0 {
            Move::Play(pt) => sensible(p.pos, pt, p.pos.to_move),
            Move::Pass => forall|pt: Point| !#[trigger] sensible(p.pos, pt, p.pos.to_move),
            Move::Resign => false,
        },
{
    let c = p.pos.to_move;
    let drawn = (p.forced(percent)).1;
    let n = p.empties.len();
    if n > 0 {
        lemma_sample(p.pos, p.empties, c, drawn, 8);
        let (found, after) = mcts::sample(p.pos, p.empties, c, drawn, 8);
        if found is None {
            let again = mcts::advance(after);
            let start = mcts::pick(again, n) as int;
            mcts::lemma_pick(again, n);
            lemma_walk(p.pos, p.empties, c, start, 0);
        }
    }
    match (p.choice(percent)).0 {
        Move::Play(pt) => {
            let k = choose|k: int|
                0 <= k < n && p.empties[k] == pt && mcts::is_playable(p.pos, pt, c);
            assert(p.empties.contains(pt));
        },
        Move::Pass => {
            assert forall|pt: Point| !#[trigger] sensible(p.pos, pt, c) by {
                if sensible(p.pos, pt, c) {
                    assert(p.empties.contains(pt));
                    let k = choose|k: int| 0 <= k < n && p.empties[k] == pt;
                    let (found, after) = mcts::sample(p.pos, p.empties, c, drawn, 8);
                    let again = mcts::advance(after);
                    let start = mcts::pick(again, n) as int;
                    mcts::lemma_pick(again, n);
                    lemma_walk(p.pos, p.empties, c, start, 0);
                    let m = if k >= start {
                        k - start
                    } else {
                        k - start + n
                    };
                    assert(mcts::turned(start, m, n as int) == k);
                    assert(mcts::is_playable(p.pos, pt, c));
                }
            }
        },
        Move::Resign => {},
    }
}

/// Is playing at `pt` an answer to an atari on the chain of `q`: does the chain have no
/// other liberty, and does `c` take it there, or, if the chain is its own, save it
/// without running into another atari?
pub open spec fn answers_atari(pos: Position, c: Color, q: int, pt: Point) -> bool {
    &&& rules::is_stone(pos.cells[q])
    &&& rules::liberties(pos.cells, q) == set![pt as int]
    &&& pos.illegal(pt, c) is None
    &&& pos.cells[q] == c.spec_cell() ==> !rules::self_atari(pos.cells, pt as int, c)
}

proof fn lemma_answer(pos: Position, c: Color, q: int)
    requires
        pos.wf(),
        0 <= q < 441,
        mcts::in_atari(pos.cells, q),
        rules::legal(pos.cells, pos.ko, mcts::last_liberty(pos.cells, q), c),
        pos.cells[q] == c.spec_cell() ==> !rules::self_atari(
            pos.cells,
            mcts::last_liberty(pos.cells, q) as int,
            c,
        ),
    ensures
        answers_atari(pos, c, q, mcts::last_liberty(pos.cells, q)),
{
    let libs = rules::liberties(pos.cells, q);
    let pt = mcts::last_liberty(pos.cells, q);
    let x = libs.choose();
    let all = vstd::set_lib::set_int_range(0, 441);
    vstd::set_lib::lemma_int_range(0, 441);
    assert(libs.subset_of(all));
    vstd::set_lib::lemma_len_subset(libs, all);
    Set::lemma_is_singleton(libs);
    assert(libs.contains(x));
    assert(libs =~= set![x]);
    assert(rules::liberty(pos.cells, q, x));
    assert(x == pt as int);
    assert((pos.cells[x] != Cell::Border) <==> rules::on_board(pos.size, x));
}

/// A move that a playout makes to answer an atari does answer one: on the first move
/// any on the board, later one on the stone that was just played or next to it.
#[verifier::rlimit(40)]
pub proof fn law_forced_moves_answer_an_atari(p: Playout, percent: u32)
    requires
        p.pos.wf(),
        (p.forced(percent)).0 is Some,
        p.pos.last_move matches Some(Move::Play(last)) ==> p.pos.on_board(last as int),
    ensures
        ({
            let mv = (p.forced(percent)).0->0;
            &&& mv is Play
            &&& p.played == 0 ==> exists|q: int|
                p.pos.on_board(q) && #[trigger] answers_atari(
                    p.pos,
                    p.pos.to_move,
                    q,
                    mv->Play_0,
                )
            &&& p.played > 0 ==> (p.pos.last_move matches Some(Move::Play(last))
                && answered_near(p.pos, p.pos.to_move, last, mv->Play_0))
        }),
{
    let pos = p.pos;
    let c = pos.to_move;
    if p.played == 0 {
        assert(pos.size * pos.size >= 0) by (nonlinear_arith);
        let n = (pos.size * pos.size) as nat;
        lemma_reply(pos, c, n);
        let (stake, lib) = mcts::best_reply(pos, c, n)->0;
        assert((p.forced(percent)).0 == Some(Move::Play(lib)));
        let q = choose|q: int| pos.on_board(q) && #[trigger] answers_atari(pos, c, q, lib);
        assert(pos.on_board(q));
        assert(answers_atari(pos, c, q, lib));
        assert(lib == (p.forced(percent)).0->0->Play_0);
    } else if let Some(Move::Play(last)) = pos.last_move {
        let drawn = mcts::advance(p.rng);
        let options = mcts::answers_upto(pos, c, last, 4);
        lemma_answers(pos, c, last, 4);
        if options.len() > 0 {
            let again = mcts::advance(drawn);
            mcts::lemma_pick(again, options.len());
            let k = mcts::pick(again, options.len()) as int;
            assert(answered_near(pos, c, last, options[k]));
            assert((p.forced(percent)).0 == Some(Move::Play(options[k])));
            let q = choose|q: int|
                (q == last || rules::adjacent(last as int, q)) && #[trigger] answers_atari(
                    pos,
                    c,
                    q,
                    options[k],
                );
            assert((q == last || rules::adjacent(last as int, q)) && answers_atari(
                pos,
                c,
                q,
                options[k],
            ));
            assert(answered_near(p.pos, p.pos.to_move, last, (p.forced(percent)).0->0->Play_0));
        } else {
            assert(false);
        }
    } else {
        assert(false);
    }
}

proof fn lemma_reply(pos: Position, c: Color, n: nat)
    requires
        pos.wf(),
        n <= pos.size * pos.size,
    ensures
        mcts::best_reply(pos, c, n) matches Some((stake, lib)) ==> exists|q: int|
            pos.on_board(q) && #[trigger] answers_atari(pos, c, q, lib),
    decreases n,
{
    if n > 0 {
        lemma_reply(pos, c, (n - 1) as nat);
        board::lemma_points_on_board(pos.size, n - 1);
        let q = board::points_of(pos.size)[n - 1] as int;
        if let Some((stake, lib)) = mcts::reply_at(pos, c, q) {
            lemma_answer(pos, c, q);
            assert(pos.on_board(q) && answers_atari(pos, c, q, lib));
        }
    }
}

/// Is playing at `pt` an answer to an atari on the stone on `last` or on one next to it?
pub open spec fn answered_near(pos: Position, c: Color, last: Point, pt: Point) -> bool {
    exists|q: int|
        (q == last || rules::adjacent(last as int, q)) && #[trigger] answers_atari(pos, c, q, pt)
}

proof fn lemma_answers(pos: Position, c: Color, last: Point, n: nat)
    requires
        pos.wf(),
        pos.on_board(last as int),
        n <= 4,
    ensures
        mcts::answers_upto(pos, c, last, n).len() <= n + 1,
        forall|k: int|
            0 <= k < mcts::answers_upto(pos, c, last, n).len() ==> answered_near(
                pos,
                c,
                last,
                #[trigger] mcts::answers_upto(pos, c, last, n)[k],
            ),
    decreases n,
{
    if n == 0 {
        if mcts::answer_for(pos, c, last as int, false) is Some {
            lemma_answer(pos, c, last as int);
        }
    } else {
        lemma_answers(pos, c, last, (n - 1) as nat);
        let around = seq![last - 1, last + 1, last - 21, last + 21];
        let q = around[n - 1];
        assert(rules::adjacent(last as int, q));
        if mcts::answer_for(pos, c, q, true) is Some {
            lemma_answer(pos, c, q);
        }
    }
}

/// A playout comes to an end: two passes in a row, or three moves for every point of
/// the board and forty more.
pub proof fn law_playouts_end(p: Playout, percent: u32)
    requires
        p.played <= p.limit(),
        p.pos.wf(),
    ensures
        p.finished(percent).pos.passes >= 2 || p.finished(percent).played == p.pos.size * p.pos.size
            * 3 + 40,
        p.finished(percent).pos.size == p.pos.size,
{
    lemma_runs_out(p, percent, (p.limit() - p.played) as nat);
}

proof fn lemma_runs_out(p: Playout, percent: u32, n: nat)
    requires
        p.pos.wf(),
        n == p.limit() - p.played,
    ensures
        p.after(percent, n).over(),
        p.after(percent, n).pos.size == p.pos.size,
        p.after(percent, n).played <= p.limit(),
    decreases n,
{
    if n > 0 && !p.over() {
        let next = p.step(percent);
        laws::law_moves_keep_the_board_sound(p.pos, (p.choice(percent)).0);
        laws::law_moves_keep_the_board_sound(p.pos, Move::Pass);
        assert(next.pos.size == p.pos.size);
        lemma_runs_out(next, percent, (n - 1) as nat);
    }
}

/// A playout goes to Black exactly if the points that count for Black, its stones and
/// the empty points beside them and beside no white stone, are more than White's by more
/// than the komi. So one more point of komi never helps Black.
pub proof fn law_komi_is_whites(pos: Position, komi: i32, more: i32)
    requires
        komi <= more,
    ensures
        mcts::winner_of(pos, more) == Color::Black ==> mcts::winner_of(pos, komi) == Color::Black,
        mcts::winner_of(pos, komi) == Color::Black <==> area::claims(pos.cells, Color::Black).len()
            > area::claims(pos.cells, Color::White).len() + komi,
{
}

/// How often ataris are answered is up to the percentage: at none they never are, and
/// at a hundred always, where there is one to answer.
pub proof fn law_ataris_are_answered_as_often_as_asked(p: Playout, percent: u32)
    ensures
        (p.forced(0)).0 is None,
        percent >= 100 && p.played == 0 ==> (p.forced(percent)).0 == mcts::atari_reply_of(
            p.pos,
            p.pos.to_move,
        ),
        percent >= 100 && p.played > 0 ==> (p.pos.last_move matches Some(Move::Play(last)) ==> (
        mcts::answers_upto(p.pos, p.pos.to_move, last, 4).len() > 0 <==> (p.forced(percent)).0
            is Some)),
{
    mcts::lemma_pick(mcts::advance(p.rng), 100);
}

/// The answer to an atari goes where most stones are at stake: no other answer is about
/// a larger chain, and among chains of one size taking comes before saving. There is no
/// answer only where there is no atari to answer.
#[verifier::rlimit(40)]
pub proof fn law_the_largest_chain_is_answered(pos: Position, c: Color, q: int, pt: Point)
    requires
        pos.wf(),
        pos.on_board(q),
        answers_atari(pos, c, q, pt),
    ensures
        mcts::atari_reply_of(pos, c) is Some,
        exists|r: int|
            {
                &&& pos.on_board(r)
                &&& #[trigger] answers_atari(
                    pos,
                    c,
                    r,
                    mcts::atari_reply_of(pos, c)->0->Play_0,
                )
                &&& rules::chain(pos.cells, r).len() >= rules::chain(pos.cells, q).len()
                &&& rules::chain(pos.cells, r).len() == rules::chain(pos.cells, q).len()
                    && pos.cells[q] != c.spec_cell() ==> pos.cells[r] != c.spec_cell()
            },
{
    let libs = rules::liberties(pos.cells, q);
    assert(libs.contains(pt as int));
    assert(libs.contains(libs.choose()));
    assert(mcts::last_liberty(pos.cells, q) == pt);
    assert(mcts::in_atari(pos.cells, q));
    assert(mcts::reply_at(pos, c, q) is Some);
    mcts::law_atari_reply_is_the_best(pos, c, q);
    let n = (pos.size * pos.size) as nat;
    let (stake, lib) = mcts::best_reply(pos, c, n)->0;
    let r = choose|r: int|
        rules::on_board(pos.size, r) && #[trigger] mcts::reply_at(pos, c, r) == Some((stake, lib));
    lemma_answer(pos, c, r);
    let (value, _) = mcts::reply_at(pos, c, q)->0;
    assert(stake >= value);
    assert(stake == rules::chain(pos.cells, r).len() * 2 + if pos.cells[r] == c.spec_cell() {
        0nat
    } else {
        1nat
    });
    assert(value == rules::chain(pos.cells, q).len() * 2 + if pos.cells[q] == c.spec_cell() {
        0nat
    } else {
        1nat
    });
    assert(mcts::atari_reply_of(pos, c)->0->Play_0 == lib);
    assert(pos.on_board(r) && answers_atari(pos, c, r, lib));
}

} // verus!
