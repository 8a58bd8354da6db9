//! What can be relied on over the web: what is read of a request, and what can be read
//! back from an answer.

use vstd::prelude::*;

use crate::board::{Cell, Color, Move, Point, Position};
use crate::coords;
use crate::game::GameState;
use crate::laws;
use crate::rebuild;
use crate::rules;
use crate::text;
use crate::web;
use crate::web::{FieldsState, Route, ShownState};

verus! {

proof fn lemma_request_words()
    ensures
        "size"@.len() == 4 && "size"@[0] == 's' && "size"@[1] == 'i',
        "komi"@.len() == 4 && "komi"@[0] == 'k' && "komi"@[1] == 'o',
        "time"@.len() == 4 && "time"@[0] == 't' && "time"@[1] == 'i',
        "move"@.len() == 4 && "move"@[0] == 'm' && "move"@[1] == 'o',
        "ko"@.len() == 2 && "ko"@[0] == 'k' && "ko"@[1] == 'o',
        "seen"@.len() == 4 && "seen"@[0] == 's' && "seen"@[1] == 'e',
        "tomove"@.len() == 6 && "tomove"@[0] == 't' && "tomove"@[1] == 'o',
        "b"@.len() == 1 && "b"@[0] == 'b',
        "w"@.len() == 1 && "w"@[0] == 'w',
{
    reveal_strlit("size");
    reveal_strlit("komi");
    reveal_strlit("time");
    reveal_strlit("move");
    reveal_strlit("ko");
    reveal_strlit("seen");
    reveal_strlit("tomove");
    reveal_strlit("b");
    reveal_strlit("w");
}

/// A line of a request sets what its first word names, and nothing else. Numbers are
/// written in decimal; a stone is given by its column and its row, both counted from
/// zero at the lower left.
pub proof fn law_request_lines_mean_what_they_say(f: FieldsState, x: usize, y: usize, v: Seq<char>)
    ensures
        f.with_line(seq!["size"@, text::decimal(x as nat)]) == (FieldsState {
            size: x as nat,
            ..f
        }),
        f.with_line(seq!["b"@, text::decimal(x as nat), text::decimal(y as nat)]) == (FieldsState {
            stones: f.stones.push((x, y, Color::Black)),
            ..f
        }),
        f.with_line(seq!["w"@, text::decimal(x as nat), text::decimal(y as nat)]) == (FieldsState {
            stones: f.stones.push((x, y, Color::White)),
            ..f
        }),
        f.with_line(seq!["tomove"@, "b"@]) == (FieldsState { to_move: Color::Black, ..f }),
        f.with_line(seq!["tomove"@, "w"@]) == (FieldsState { to_move: Color::White, ..f }),
        f.with_line(seq!["move"@, v]) == (FieldsState { move_first: Some(v), ..f }),
        f.with_line(seq!["ko"@, v]) == (FieldsState { ko: Some(v), ..f }),
        f.with_line(seq!["seen"@, v]) == (FieldsState { seen: f.seen.push(v), ..f }),
        f.with_line(seq!["komi"@, v]) == (FieldsState { komi: f.komi.push(v), ..f }),
        f.with_line(seq!["time"@, v]) == (FieldsState { time: f.time.push(v), ..f }),
{
    lemma_request_words();
    text::law_number_round_trip(x as nat);
    text::law_number_round_trip(y as nat);
}

/// A request that says nothing is about an empty board of the usual size with Black to
/// move.
pub proof fn law_silence_means_an_empty_board(size: nat)
    requires
        2 <= size <= 19,
    ensures
        ({
            let f = web::fields_upto(size, Seq::empty(), 0);
            &&& f.size == size
            &&& f.move_first is None
            &&& f.position().to_move == Color::Black
            &&& f.position().ko is None
            &&& forall|p: int| 0 <= p < 441 ==> !rules::is_stone(#[trigger] f.position().cells[p])
        }),
{
    let f = FieldsState::fresh(size);
    assert(f.wanted() =~= Seq::empty());
    let empty = Position::empty(size as int);
    assert(coords::set_up(empty, f.wanted()) == empty);
}

/// Do the stones make up the position: is each of them on it, on a point of its own,
/// and is every stone of it among them?
pub open spec fn make_up(stones: Seq<(Point, Color)>, pos: Position) -> bool {
    &&& forall|j: int|
        0 <= j < stones.len() ==> pos.on_board((#[trigger] stones[j]).0 as int)
            && pos.cells[stones[j].0 as int] == stones[j].1.spec_cell()
    &&& forall|j: int, k: int|
        0 <= j < stones.len() && 0 <= k < stones.len() && j != k ==> (#[trigger] stones[j]).0 != (
        #[trigger] stones[k]).0
    &&& forall|p: int|
        0 <= p < 441 && rules::is_stone(#[trigger] pos.cells[p]) ==> exists|j: int|
            0 <= j < stones.len() && (#[trigger] stones[j]).0 == p
}

spec fn among(stones: Seq<(Point, Color)>, n: int, p: int) -> bool {
    exists|j: int| 0 <= j < n && (#[trigger] stones[j]).0 == p
}

proof fn lemma_built_so_far(stones: Seq<(Point, Color)>, pos: Position, n: nat)
    requires
        pos.wf(),
        rules::all_breathe(pos.cells),
        make_up(stones, pos),
        n <= stones.len(),
    ensures
        ({
            let built = coords::set_up(Position::empty(pos.size), stones.take(n as int));
            &&& built.wf()
            &&& built.size == pos.size
            &&& forall|q: int|
                0 <= q < 441 ==> #[trigger] built.cells[q] == if among(stones, n as int, q) {
                    pos.cells[q]
                } else {
                    Position::empty(pos.size).cells[q]
                }
        }),
    decreases n,
{
    let size = pos.size;
    let start = Position::empty(size);
    rebuild::lemma_empty_board(size);
    if n > 0 {
        lemma_built_so_far(stones, pos, (n - 1) as nat);
        let part = coords::set_up(start, stones.take(n - 1));
        let built = coords::set_up(start, stones.take(n as int));
        let (pt, c) = stones[n - 1];
        let p = pt as int;
        assert(stones.take(n as int).drop_last() =~= stones.take(n - 1));
        assert(stones.take(n as int).last() == stones[n - 1]);
        assert(built == part.after_setup(p, c));
        assert(!among(stones, n - 1, p)) by {
            if among(stones, n - 1, p) {
                let j = choose|j: int| 0 <= j < n - 1 && (#[trigger] stones[j]).0 == p;
                assert(stones[j].0 != stones[n - 1].0);
            }
        }
        assert(laws::part_of(part.cells, pos.cells)) by {
            assert forall|q: int|
                0 <= q < part.cells.len() && #[trigger] part.cells[q] != pos.cells[q] implies part.cells[q]
                == Cell::Empty && rules::is_stone(pos.cells[q]) by {
                assert((pos.cells[q] != Cell::Border) <==> rules::on_board(size, q));
            }
        }
        laws::law_missing_stone_may_be_played(size, pos.cells, part.cells, p, c);
        rules::lemma_after_own(size, part.cells, p, c);
        assert forall|q: int| 0 <= q < 441 implies #[trigger] built.cells[q] == if among(
            stones,
            n as int,
            q,
        ) {
            pos.cells[q]
        } else {
            start.cells[q]
        } by {
            if q == p {
                assert(stones[n - 1].0 == q);
            } else {
                if among(stones, n as int, q) {
                    let j = choose|j: int| 0 <= j < n && (#[trigger] stones[j]).0 == q;
                    assert(j < n - 1);
                    assert(among(stones, n - 1, q));
                }
                if among(stones, n - 1, q) {
                    let j = choose|j: int| 0 <= j < n - 1 && (#[trigger] stones[j]).0 == q;
                    assert(0 <= j < n && stones[j].0 == q);
                }
            }
        }
    } else {
        assert(stones.take(0).len() == 0);
    }
}

/// A request that sends the stones of a position, in any order, is about that position:
/// every stone stands where it was sent, none is dropped, and the side to move is the
/// one that was named. It asks only that the position could stand on a board.
pub proof fn law_requests_rebuild_the_board(f: FieldsState, pos: Position)
    requires
        f.playable(),
        pos.wf(),
        pos.size == f.size,
        rules::all_breathe(pos.cells),
        make_up(f.wanted(), pos),
    ensures
        f.position().cells == pos.cells,
        f.position().hash == pos.hash,
        f.position().to_move == f.to_move,
        f.dropped().len() == 0,
        f.game().history.len() == 0,
        f.game().seen.contains(pos.hash),
{
    let stones = f.wanted();
    let n = stones.len();
    let built = coords::set_up(Position::empty(pos.size), stones);
    lemma_built_so_far(stones, pos, n);
    assert(stones.take(n as int) =~= stones);
    assert forall|q: int| 0 <= q < 441 implies #[trigger] built.cells[q] == pos.cells[q] by {
        assert((pos.cells[q] != Cell::Border) <==> rules::on_board(pos.size, q));
        if rules::is_stone(pos.cells[q]) {
            let j = choose|j: int| 0 <= j < n && (#[trigger] stones[j]).0 == q;
            assert(among(stones, n as int, q));
        }
    }
    assert(built.cells =~= pos.cells);
    laws::law_settled_boards_breathe(built);
    lemma_none_missing(pos.cells, stones);
    assert(f.game().seen[0] == pos.hash);
}

proof fn lemma_none_missing(cells: Seq<Cell>, stones: Seq<(Point, Color)>)
    requires
        forall|j: int|
            0 <= j < stones.len() ==> cells[(#[trigger] stones[j]).0 as int]
                == stones[j].1.spec_cell(),
    ensures
        coords::missing(cells, stones).len() == 0,
    decreases stones.len(),
{
    if stones.len() > 0 {
        let less = stones.drop_last();
        assert forall|j: int| 0 <= j < less.len() implies cells[(#[trigger] less[j]).0 as int]
            == less[j].1.spec_cell() by {
            assert(less[j] == stones[j]);
        }
        lemma_none_missing(cells, less);
        assert(stones[stones.len() - 1] == stones.last());
    }
}

/// The stones that a request is about are those it sends that lie on the board, in the
/// order it sends them, each on the point of its column and row.
pub proof fn law_stones_outside_are_left_out(stones: Seq<(usize, usize, Color)>, size: int)
    requires
        2 <= size <= 19,
    ensures
        forall|i: int|
            0 <= i < stones.len() && (#[trigger] stones[i]).0 < size && stones[i].1 < size
                ==> web::inside(stones, size).contains(
                ((21 * (stones[i].1 + 1) + stones[i].0 + 1) as Point, stones[i].2),
            ),
        web::inside(stones, size).len() <= stones.len(),
        (forall|i: int|
            0 <= i < stones.len() ==> (#[trigger] stones[i]).0 >= size || stones[i].1 >= size)
            ==> web::inside(stones, size).len() == 0,
    decreases stones.len(),
{
    let all = web::inside(stones, size);
    if stones.len() > 0 {
        let less = stones.drop_last();
        let before = web::inside(less, size);
        law_stones_outside_are_left_out(less, size);
        assert forall|i: int|
            0 <= i < stones.len() && (#[trigger] stones[i]).0 < size && stones[i].1
                < size implies all.contains(
            ((21 * (stones[i].1 + 1) + stones[i].0 + 1) as Point, stones[i].2),
        ) by {
            if i < less.len() {
                assert(less[i] == stones[i]);
                let s = ((21 * (stones[i].1 + 1) + stones[i].0 + 1) as Point, stones[i].2);
                assert(before.contains(s));
                let k = choose|k: int| 0 <= k < before.len() && before[k] == s;
                assert(all[k] == s);
            } else {
                assert(all[before.len() as int] == (
                    (21 * (stones[i].1 + 1) + stones[i].0 + 1) as Point,
                    stones[i].2,
                ));
            }
        }
        if forall|i: int|
            0 <= i < stones.len() ==> (#[trigger] stones[i]).0 >= size || stones[i].1 >= size {
            assert forall|i: int| 0 <= i < less.len() implies (#[trigger] less[i]).0 >= size
                || less[i].1 >= size by {
                assert(less[i] == stones[i]);
            }
            assert(stones[stones.len() - 1] == stones.last());
        }
    }
}

/// A move that comes with a request is made by the side to move, or refused: where the
/// game goes on, the stone stands on the vertex and it is the other side's turn.
pub proof fn law_the_move_of_a_request_is_made(game: GameState, vertex: Seq<char>, pt: Point)
    requires
        game.board.wf(),
        coords::named_move(game.board.size, vertex) == Some(Move::Play(pt)),
    ensures
        match web::first_move(game, vertex) {
            Ok(next) => {
                &&& game.board.illegal(pt, game.board.to_move) is None
                &&& next.board.cells[pt as int] == game.board.to_move.spec_cell()
                &&& next.board.to_move == game.board.to_move.spec_other()
                &&& !game.seen.contains(next.board.hash)
                &&& next.undone() == game
            },
            Err(_) => game.board.illegal(pt, game.board.to_move) is Some || game.seen.contains(
                game.board.after_stone(pt).hash,
            ),
        },
{
    coords::lemma_named_move(game.board.size, vertex);
    rules::lemma_after_own(game.board.size, game.board.cells, pt as int, game.board.to_move);
    if let Ok(next) = web::first_move(game, vertex) {
        assert(next.history.drop_last() =~= game.history);
        assert(next.seen.drop_last() =~= game.seen);
    }
}

/// Where a request goes: what changes nothing is asked for with `GET`, and what is
/// about a position with `POST`, each by its own name; anything else goes nowhere.
pub proof fn law_routes_have_their_own_names(line: Seq<char>)
    ensures
        ({
            let w = text::words(line);
            let named = |method: Seq<char>, path: Seq<char>|
                w.len() > 1 && w[0] == method && w[1] == path;
            &&& web::route_of(line) == Route::Page <==> named("GET"@, "/"@) || (w.len() == 1 && w[0]
                == "GET"@)
            &&& web::route_of(line) == Route::Defaults <==> named("GET"@, "/defaults"@)
            &&& web::route_of(line) == Route::Move <==> named("POST"@, "/move"@)
            &&& web::route_of(line) == Route::Play <==> named("POST"@, "/play"@)
            &&& web::route_of(line) == Route::Analyse <==> named("POST"@, "/analyse"@)
        }),
{
    reveal_strlit("GET");
    reveal_strlit("POST");
    reveal_strlit("/");
    reveal_strlit("/defaults");
    reveal_strlit("/move");
    reveal_strlit("/play");
    reveal_strlit("/analyse");
    assert("GET"@.len() == 3 && "POST"@.len() == 4);
    assert("/"@.len() == 1 && "/defaults"@.len() == 9 && "/move"@.len() == 5 && "/play"@.len() == 5
        && "/analyse"@.len() == 8);
    assert("/move"@[1] == 'm' && "/play"@[1] == 'p');
    assert(Seq::<char>::empty().len() == 0);
}

/// What a shown move says, word for word.
pub open spec fn shown_words(s: ShownState) -> Seq<Seq<char>> {
    seq!["move"@, coords::move_name(s.mv), s.winrate, text::decimal(s.visits as nat)] + s.pv.map_values(
        |mv: Move| coords::move_name(mv),
    )
}

proof fn lemma_join_two(a: Seq<Seq<char>>, b: Seq<Seq<char>>, sep: Seq<char>)
    requires
        a.len() > 0,
        b.len() > 0,
    ensures
        text::join(a + b, sep) == text::join(a, sep) + sep + text::join(b, sep),
    decreases b.len(),
{
    let whole = a + b;
    let less = b.drop_last();
    assert(whole.drop_last() =~= a + less);
    assert(whole.last() == b.last());
    if less.len() > 0 {
        lemma_join_two(a, less, sep);
        assert(text::join(whole, sep) =~= text::join(a, sep) + sep + text::join(b, sep));
    } else {
        assert(a + less =~= a);
        assert(text::join(whole, sep) =~= text::join(a, sep) + sep + text::join(b, sep));
    }
}

proof fn lemma_shown_joined(s: ShownState)
    requires
        s.pv.len() > 0,
    ensures
        web::shown_line(s) == text::join(shown_words(s), " "@).push('\n'),
{
    reveal_strlit("move ");
    reveal_strlit("move");
    reveal_strlit(" ");
    reveal_strlit("\n");
    reveal_with_fuel(text::join, 5);
    let head = seq!["move"@, coords::move_name(s.mv), s.winrate, text::decimal(s.visits as nat)];
    let names = web::line_names(s.pv);
    lemma_join_two(head, names, " "@);
    assert(head.drop_last() =~= seq!["move"@, coords::move_name(s.mv), s.winrate]);
    assert(head.drop_last().drop_last() =~= seq!["move"@, coords::move_name(s.mv)]);
    assert(head.drop_last().drop_last().drop_last() =~= seq!["move"@]);
    assert("move "@ =~= "move"@ + " "@);
    assert(text::join(head, " "@) =~= "move"@ + " "@ + coords::move_name(s.mv) + " "@ + s.winrate
        + " "@ + text::decimal(s.visits as nat));
    assert(web::shown_line(s) =~= text::join(shown_words(s), " "@).push('\n'));
}

/// A move that an answer shows can be read back from it: the words of its line are
/// `move`, the name of the move, its win rate, its visits and the names of its line.
pub proof fn law_shown_moves_can_be_read_back(s: ShownState)
    requires
        s.pv.len() > 0,
        web::has_names(s),
        text::is_word(s.winrate),
    ensures
        web::shown_line(s).last() == '\n',
        text::words(web::shown_line(s).drop_last()) == shown_words(s),
        text::number(shown_words(s)[3]) == Some(s.visits as nat),
{
    lemma_shown_joined(s);
    assert(web::shown_line(s).drop_last() =~= text::join(shown_words(s), " "@));
    let w = shown_words(s);
    reveal_strlit("move");
    text::law_number_round_trip(s.visits as nat);
    assert forall|i: int| 0 <= i < w.len() implies text::is_word(#[trigger] w[i]) by {
        if i == 3 {
            lemma_decimal_is_word(s.visits as nat);
        } else if i == 1 {
            lemma_name_is_word(s.mv);
        } else if i >= 4 {
            assert(coords::has_name(s.pv[i - 4]));
            lemma_name_is_word(s.pv[i - 4]);
        }
    }
    text::law_words_round_trip(w);
}

proof fn lemma_decimal_is_word(n: nat)
    ensures
        text::is_word(text::decimal(n)),
{
    text::lemma_decimal(n);
    let d = text::decimal(n);
    assert forall|i: int| 0 <= i < d.len() implies !text::is_white(#[trigger] d[i]) by {
        assert(text::is_digit(d[i]));
    }
}

proof fn lemma_name_is_word(mv: Move)
    requires
        coords::has_name(mv),
    ensures
        text::is_word(coords::move_name(mv)),
{
    reveal_strlit("pass");
    reveal_strlit("resign");
    if let Move::Play(pt) = mv {
        let d = text::decimal((pt / 21) as nat);
        lemma_decimal_is_word((pt / 21) as nat);
        let name = coords::move_name(mv);
        assert forall|i: int| 0 <= i < name.len() implies !text::is_white(#[trigger] name[i]) by {
            if i > 0 {
                assert(name[i] == d[i - 1]);
            }
        }
    }
}

/// An answer shows the moves it is given in their order, and no more than six of them;
/// where only visited moves are to be shown, the others are left out and nothing else.
pub proof fn law_answers_show_six_moves_in_order(all: Seq<ShownState>, n: nat, visited: bool)
    requires
        n < all.len(),
    ensures
        web::at_most_six(all.len()) <= 6,
        web::at_most_six(all.len()) <= all.len(),
        web::at_most_six(all.len()) == 6 || web::at_most_six(all.len()) == all.len(),
        web::shown_lines(all, 0, visited).len() == 0,
        visited && all[n as int].visits == 0 ==> web::shown_lines(all, n + 1, visited)
            == web::shown_lines(all, n, visited),
        !(visited && all[n as int].visits == 0) ==> web::shown_lines(all, n + 1, visited)
            == web::shown_lines(all, n, visited) + web::shown_line(all[n as int]),
{
}

proof fn lemma_joined_at(rows: Seq<Seq<char>>, width: nat, i: int, x: int)
    requires
        forall|k: int| 0 <= k < rows.len() ==> (#[trigger] rows[k]).len() == width,
        0 <= i < rows.len(),
        0 <= x < width,
    ensures
        text::join(rows, "/"@).len() == rows.len() * (width + 1) - 1,
        text::join(rows, "/"@)[i * (width + 1) + x] == rows[i][x],
    decreases rows.len(),
{
    reveal_strlit("/");
    let w = width + 1;
    if rows.len() == 1 {
        assert(i * w == 0) by (nonlinear_arith)
            requires
                i == 0,
        ;
        assert(1 * w == w) by (nonlinear_arith);
    } else {
        let less = rows.drop_last();
        assert(less.len() * w + w == rows.len() * w) by (nonlinear_arith)
            requires
                less.len() + 1 == rows.len(),
        ;
        assert forall|k: int| 0 <= k < less.len() implies (#[trigger] less[k]).len() == width by {
            assert(less[k] == rows[k]);
        }
        if i < less.len() {
            lemma_joined_at(less, width, i, x);
            assert(less[i] == rows[i]);
            assert(0 <= i * w && i * w + w <= less.len() * w) by (nonlinear_arith)
                requires
                    0 <= i < less.len(),
                    w > 0,
            ;
        } else {
            lemma_joined_at(less, width, 0, x);
            assert(i * w == less.len() * w);
        }
    }
}

/// The rows of an answer show the board from the top down: after each row comes a
/// slash, and the letter of a point stands in the row of its number, counted from the
/// bottom, at its column. It is `b` exactly for a black stone and `w` exactly for a
/// white one.
pub proof fn law_rows_show_the_board_from_the_top(pos: Position, x: int, y: int)
    requires
        pos.wf(),
        0 <= x < pos.size,
        0 <= y < pos.size,
    ensures
        ({
            let at = (pos.size - 1 - y) * (pos.size + 1) + x;
            let cell = pos.cells[21 * (y + 1) + x + 1];
            let shown = web::board_text(pos)[at];
            &&& shown == 'b' <==> cell == Cell::Black
            &&& shown == 'w' <==> cell == Cell::White
            &&& shown == '.' <==> cell == Cell::Empty
            &&& web::board_text(pos).len() == pos.size * (pos.size + 1) - 1
        }),
{
    let rows = web::all_letters(pos);
    assert forall|k: int| 0 <= k < rows.len() implies (#[trigger] rows[k]).len() == pos.size by {}
    lemma_joined_at(rows, pos.size as nat, pos.size - 1 - y, x);
    assert(rules::point_at(x, y) == 21 * (y + 1) + x + 1);
    laws::law_points_and_coordinates_are_inverse(pos.size, 0, x, y);
    let p = rules::point_at(x, y);
    assert((pos.cells[p] != Cell::Border) <==> rules::on_board(pos.size, p));
}

/// Whose turn an answer says it is, a request can say in the same words.
pub proof fn law_turns_are_understood(f: FieldsState, c: Color)
    ensures
        web::turn_line(c).last() == '\n',
        f.with_line(text::words(web::turn_line(c).drop_last())) == (FieldsState {
            to_move: c,
            ..f
        }),
{
    lemma_request_words();
    reveal_strlit("tomove");
    reveal_strlit("tomove b\n");
    reveal_strlit("tomove w\n");
    reveal_strlit(" ");
    reveal_strlit("b");
    reveal_strlit("w");
    reveal_with_fuel(text::join, 3);
    let letter = if c == Color::Black {
        "b"@
    } else {
        "w"@
    };
    let w = seq!["tomove"@, letter];
    assert(w.drop_last() =~= seq!["tomove"@]);
    assert(web::turn_line(c).drop_last() =~= text::join(w, " "@));
    text::law_words_round_trip(w);
}

/// Are the addresses up to number `k` those of a tailnet, and the others not?
pub open spec fn tailnet_first(all: Seq<Seq<char>>, k: int) -> bool {
    &&& 0 <= k < all.len()
    &&& forall|i: int| 0 <= i < k ==> web::is_tailnet(#[trigger] all[i])
    &&& forall|i: int| k <= i < all.len() - 1 ==> !web::is_tailnet(#[trigger] all[i])
}

proof fn lemma_addresses(lines: Seq<Seq<char>>, n: nat, tailnet: bool)
    requires
        n <= lines.len(),
    ensures
        forall|i: int|
            0 <= i < web::addresses_upto(lines, n, tailnet).len() ==> web::is_tailnet(
                #[trigger] web::addresses_upto(lines, n, tailnet)[i],
            ) == tailnet,
        forall|i: int|
            0 <= i < n ==> (web::address_in(#[trigger] lines[i]) matches Some(ip) ==> (
            web::is_tailnet(ip) == tailnet ==> web::addresses_upto(lines, n, tailnet).contains(
                ip,
            ))),
    decreases n,
{
    if n > 0 {
        lemma_addresses(lines, (n - 1) as nat, tailnet);
        let before = web::addresses_upto(lines, (n - 1) as nat, tailnet);
        let all = web::addresses_upto(lines, n, tailnet);
        assert forall|i: int| 0 <= i < n implies (web::address_in(#[trigger] lines[i]) matches Some(
            ip,
        ) ==> (web::is_tailnet(ip) == tailnet ==> all.contains(ip))) by {
            if let Some(ip) = web::address_in(lines[i]) {
                if web::is_tailnet(ip) == tailnet {
                    if i < n - 1 {
                        assert(before.contains(ip));
                        let k = choose|k: int| 0 <= k < before.len() && before[k] == ip;
                        assert(all[k] == ip);
                    } else {
                        assert(all[before.len() as int] == ip);
                    }
                }
            }
        }
    }
}

/// The addresses that are printed are all those in the listing, those of a tailnet
/// before the others, and at the end the machine itself.
pub proof fn law_tailnet_addresses_come_first(listing: Seq<char>)
    ensures
        exists|k: int| #[trigger] tailnet_first(web::addresses_of(listing), k),
        web::addresses_of(listing).last() == "127.0.0.1"@,
        forall|i: int|
            0 <= i < text::lines(listing).len() ==> (web::address_in(
                #[trigger] text::lines(listing)[i],
            ) matches Some(ip) ==> web::addresses_of(listing).contains(ip)),
{
    let lines = text::lines(listing);
    let near = web::addresses_upto(lines, lines.len(), true);
    let far = web::addresses_upto(lines, lines.len(), false);
    let all = web::addresses_of(listing);
    lemma_addresses(lines, lines.len(), true);
    lemma_addresses(lines, lines.len(), false);
    assert(all == (near + far).push("127.0.0.1"@));
    assert forall|i: int| 0 <= i < near.len() implies #[trigger] all[i] == near[i] by {}
    assert forall|i: int| near.len() <= i < all.len() - 1 implies #[trigger] all[i] == far[i
        - near.len()] by {}
    assert(tailnet_first(all, near.len() as int));
    assert forall|i: int| 0 <= i < lines.len() implies (web::address_in(
        #[trigger] lines[i],
    ) matches Some(ip) ==> all.contains(ip)) by {
        if let Some(ip) = web::address_in(lines[i]) {
            if web::is_tailnet(ip) {
                let k = choose|k: int| 0 <= k < near.len() && near[k] == ip;
                assert(all[k] == ip);
            } else {
                let k = choose|k: int| 0 <= k < far.len() && far[k] == ip;
                assert(all[near.len() + k] == ip);
            }
        }
    }
}

/// The length of a request is what its header says, however the header is capitalised.
pub proof fn law_lengths_are_read_from_the_header(n: usize)
    ensures
        web::length_in("Content-Length:"@ + " "@ + text::decimal(n as nat)) == Some(n as nat),
        web::length_in("content-length:"@ + " "@ + text::decimal(n as nat)) == Some(n as nat),
{
    let d = text::decimal(n as nat);
    text::lemma_decimal(n as nat);
    text::law_number_round_trip(n as nat);
    lemma_decimal_is_word(n as nat);
    reveal_strlit("Content-Length:");
    reveal_strlit("content-length:");
    reveal_strlit(" ");
    lemma_length("Content-Length:"@, d);
    lemma_length("content-length:"@, d);
}

proof fn lemma_length(head: Seq<char>, d: Seq<char>)
    requires
        head.len() == 15,
        text::is_word(d),
    ensures
        ({
            let line = head + " "@ + d;
            &&& text::trim_end(line) == line
            &&& head.is_prefix_of(line)
            &&& text::trim(line.skip(15)) == d
        }),
{
    reveal_strlit(" ");
    let line = head + " "@ + d;
    assert(line.last() == d[d.len() - 1]);
    assert(line.take(15) =~= head);
    let rest = line.skip(15);
    assert(rest =~= " "@ + d);
    assert(text::is_white(' '));
    assert(rest[0] == ' ');
    assert(rest.skip(1) =~= d);
    assert(text::trim_start(rest) == text::trim_start(d));
    assert(!text::is_white(d[0]));
}

/// The first line of an answer gives the size of the board and its rows, and where a
/// ko stands in the way of the next move, the second gives the point, by its name.
#[verifier::rlimit(40)]
pub proof fn law_the_board_line_can_be_read_back(pos: Position)
    requires
        pos.wf(),
        web::ko_on_board(pos),
    ensures
        ({
            let lines = text::lines(web::board_lines(pos));
            &&& lines.len() == if pos.ko is Some {
                2int
            } else {
                1
            }
            &&& text::words(lines[0]) == seq![
                "board"@,
                text::decimal(pos.size as nat),
                web::board_text(pos),
            ]
            &&& pos.ko matches Some(pt) ==> text::words(lines[1]) == seq![
                "ko"@,
                coords::move_name(Move::Play(pt)),
            ]
        }),
{
    reveal_strlit("board");
    reveal_strlit("board ");
    reveal_strlit(" ");
    reveal_strlit("\n");
    reveal_strlit("ko");
    reveal_strlit("ko ");
    reveal_with_fuel(text::join, 4);
    reveal_with_fuel(text::unlines, 3);
    let d = text::decimal(pos.size as nat);
    let rows = web::board_text(pos);
    lemma_decimal_is_word(pos.size as nat);
    lemma_rows_are_a_word(pos);
    let w = seq!["board"@, d, rows];
    assert(w.drop_last() =~= seq!["board"@, d]);
    assert(w.drop_last().drop_last() =~= seq!["board"@]);
    text::law_words_round_trip(w);
    let first = text::join(w, " "@);
    assert("board "@ =~= "board"@ + " "@);
    assert(first =~= "board "@ + d + " "@ + rows);
    lemma_join_is_line(w);
    if let Some(pt) = pos.ko {
        let name = coords::move_name(Move::Play(pt));
        lemma_name_is_word(Move::Play(pt));
        let v = seq!["ko"@, name];
        assert(v.drop_last() =~= seq!["ko"@]);
        text::law_words_round_trip(v);
        let second = text::join(v, " "@);
        assert("ko "@ =~= "ko"@ + " "@);
        assert(second =~= "ko "@ + name);
        lemma_join_is_line(v);
        let all = seq![first, second];
        assert(all.drop_last() =~= seq![first]);
        assert(all.drop_last().drop_last() =~= Seq::<Seq<char>>::empty());
        assert(web::board_lines(pos) =~= text::unlines(all));
        text::law_lines_round_trip(all);
    } else {
        let all = seq![first];
        assert(all.drop_last() =~= Seq::<Seq<char>>::empty());
        assert(web::board_lines(pos) =~= text::unlines(all));
        text::law_lines_round_trip(all);
    }
}

proof fn lemma_rows_are_a_word(pos: Position)
    requires
        pos.wf(),
    ensures
        text::is_word(web::board_text(pos)),
{
    let rows = web::all_letters(pos);
    assert forall|k: int| 0 <= k < rows.len() implies (#[trigger] rows[k]).len() > 0 && forall|
        x: int,
    |
        0 <= x < rows[k].len() ==> !text::is_white(#[trigger] rows[k][x]) by {}
    lemma_joined_word(rows);
}

proof fn lemma_joined_word(rows: Seq<Seq<char>>)
    requires
        rows.len() > 0,
        forall|k: int|
            0 <= k < rows.len() ==> (#[trigger] rows[k]).len() > 0 && forall|x: int|
                0 <= x < rows[k].len() ==> !text::is_white(#[trigger] rows[k][x]),
    ensures
        text::is_word(text::join(rows, "/"@)),
    decreases rows.len(),
{
    reveal_strlit("/");
    let all = text::join(rows, "/"@);
    if rows.len() == 1 {
        assert(rows[0].len() > 0);
    } else {
        let less = rows.drop_last();
        assert forall|k: int| 0 <= k < less.len() implies (#[trigger] less[k]).len() > 0 && forall|
            x: int,
        |
            0 <= x < less[k].len() ==> !text::is_white(#[trigger] less[k][x]) by {
            assert(less[k] == rows[k]);
        }
        lemma_joined_word(less);
        let before = text::join(less, "/"@);
        let last = rows[rows.len() - 1];
        assert(last.len() > 0);
        assert(all == before + "/"@ + last);
        assert forall|i: int| 0 <= i < all.len() implies !text::is_white(#[trigger] all[i]) by {
            if i < before.len() {
                assert(all[i] == before[i]);
            } else if i > before.len() {
                assert(all[i] == last[i - before.len() - 1]);
            }
        }
    }
}

/// Words with spaces between them are one line.
proof fn lemma_join_is_line(w: Seq<Seq<char>>)
    requires
        w.len() > 0,
        forall|i: int| 0 <= i < w.len() ==> text::is_word(#[trigger] w[i]),
    ensures
        text::is_line(text::join(w, " "@)),
        text::join(w, " "@).len() > 0,
        !text::is_white(text::join(w, " "@).last()),
    decreases w.len(),
{
    reveal_strlit(" ");
    let all = text::join(w, " "@);
    let last = w[w.len() - 1];
    assert(text::is_word(last));
    assert(!text::is_white(last[last.len() - 1]));
    if w.len() == 1 {
        assert forall|i: int| 0 <= i < all.len() implies #[trigger] all[i] != '\n' by {
            assert(!text::is_white(last[i]));
        }
    } else {
        let less = w.drop_last();
        assert forall|i: int| 0 <= i < less.len() implies text::is_word(#[trigger] less[i]) by {
            assert(less[i] == w[i]);
        }
        lemma_join_is_line(less);
        let before = text::join(less, " "@);
        assert(all == before + " "@ + last);
        assert forall|i: int| 0 <= i < all.len() implies #[trigger] all[i] != '\n' by {
            if i < before.len() {
                assert(all[i] == before[i]);
            } else if i > before.len() {
                assert(all[i] == last[i - before.len() - 1]);
                assert(!text::is_white(last[i - before.len() - 1]));
            }
        }
        assert(all.last() == last[last.len() - 1]);
    }
}

/// The answer to a turn shows the board after the engine's move and says whose turn it
/// is then; and in between it names the move that counts as played, where there is one.
pub proof fn law_answers_to_a_turn_show_what_was_played(
    game: GameState,
    mv: Move,
    source: Seq<char>,
)
    ensures
        ({
            let (next, played) = web::engine_move(game, mv);
            let said = web::turn_answer(game, mv, source);
            let start = web::board_lines(next.board);
            let end = web::turn_line(next.board.to_move);
            &&& start.is_prefix_of(said)
            &&& said.len() >= start.len() + end.len()
            &&& said.skip(said.len() - end.len()) == end
            &&& played matches Some(made) ==> ("played "@ + coords::move_name(made) + "\n"@).is_prefix_of(
                said.skip(start.len() as int),
            )
            &&& game.outcome(mv) matches Ok(after) ==> next == after && played == Some(mv)
        }),
{
    let (next, played) = web::engine_move(game, mv);
    let said = web::turn_answer(game, mv, source);
    let start = web::board_lines(next.board);
    let end = web::turn_line(next.board.to_move);
    assert(said.take(start.len() as int) =~= start);
    assert(said.skip(said.len() - end.len()) =~= end);
    if let Some(made) = played {
        reveal_strlit("\n");
        reveal_strlit("\nlast ");
        let named = "played "@ + coords::move_name(made) + "\n"@;
        let rest = said.skip(start.len() as int);
        let middle = "played "@ + coords::move_name(made) + "\nlast "@ + coords::move_name(made)
            + "\nsource "@ + source + "\n"@;
        assert(rest =~= middle + end);
        assert(rest.take(named.len() as int) =~= named);
    }
}

} // verus!
