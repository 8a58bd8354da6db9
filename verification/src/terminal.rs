//! What can be relied on at the terminal board: what each command changes, and what
//! it leaves alone.

use vstd::prelude::*;

use crate::board::{Cell, Color, Move, Point, Position};
use crate::cli;
use crate::cli::{ActionState, DiagramState};
use crate::coords;
use crate::game::{GameState, Rejected};
use crate::gtp;
use crate::rules;
use crate::text;
use crate::web::ShownState;

verus! {

/// The words of a line.
pub open spec fn words_of(line: Seq<char>) -> Seq<Seq<char>> {
    text::words(text::trim(line))
}

/// The word that says what a line is about.
pub open spec fn head_of(line: Seq<char>) -> Seq<char> {
    text::lowered(words_of(line)[0])
}

/// The game after a line.
pub open spec fn after_line(game: GameState, line: Seq<char>) -> GameState {
    (cli::entered(game, line)).0
}

/// What a line comes to.
pub open spec fn action_of(game: GameState, line: Seq<char>) -> ActionState {
    (cli::entered(game, line)).1
}

/// The letters of the command words.
proof fn lemma_command_words()
    ensures
        "quit"@ == seq!['q', 'u', 'i', 't'],
        "quit"@[0] == 'q',
        "quit"@[1] == 'u',
        "q"@ == seq!['q'],
        "q"@[0] == 'q',
        "exit"@ == seq!['e', 'x', 'i', 't'],
        "exit"@[0] == 'e',
        "exit"@[1] == 'x',
        "help"@ == seq!['h', 'e', 'l', 'p'],
        "help"@[0] == 'h',
        "help"@[1] == 'e',
        "?"@ == seq!['?'],
        "?"@[0] == '?',
        "show"@ == seq!['s', 'h', 'o', 'w'],
        "show"@[0] == 's',
        "show"@[1] == 'h',
        "s"@ == seq!['s'],
        "s"@[0] == 's',
        "score"@ == seq!['s', 'c', 'o', 'r', 'e'],
        "score"@[0] == 's',
        "score"@[1] == 'c',
        "undo"@ == seq!['u', 'n', 'd', 'o'],
        "undo"@[0] == 'u',
        "undo"@[1] == 'n',
        "u"@ == seq!['u'],
        "u"@[0] == 'u',
        "komi"@ == seq!['k', 'o', 'm', 'i'],
        "komi"@[0] == 'k',
        "komi"@[1] == 'o',
        "time"@ == seq!['t', 'i', 'm', 'e'],
        "time"@[0] == 't',
        "time"@[1] == 'i',
        "me"@ == seq!['m', 'e'],
        "me"@[0] == 'm',
        "me"@[1] == 'e',
        "handicap"@ == seq!['h', 'a', 'n', 'd', 'i', 'c', 'a', 'p'],
        "handicap"@[0] == 'h',
        "handicap"@[1] == 'a',
        "turn"@ == seq!['t', 'u', 'r', 'n'],
        "turn"@[0] == 't',
        "turn"@[1] == 'u',
        "hint"@ == seq!['h', 'i', 'n', 't'],
        "hint"@[0] == 'h',
        "hint"@[1] == 'i',
        "h"@ == seq!['h'],
        "h"@[0] == 'h',
        "add"@ == seq!['a', 'd', 'd'],
        "add"@[0] == 'a',
        "add"@[1] == 'd',
        "del"@ == seq!['d', 'e', 'l'],
        "del"@[0] == 'd',
        "del"@[1] == 'e',
        "remove"@ == seq!['r', 'e', 'm', 'o', 'v', 'e'],
        "remove"@[0] == 'r',
        "remove"@[1] == 'e',
        "setup"@ == seq!['s', 'e', 't', 'u', 'p'],
        "setup"@[0] == 's',
        "setup"@[1] == 'e',
        "pass"@ == seq!['p', 'a', 's', 's'],
        "pass"@[0] == 'p',
        "pass"@[1] == 'a',
        "b"@ == seq!['b'],
        "b"@[0] == 'b',
        "black"@ == seq!['b', 'l', 'a', 'c', 'k'],
        "black"@[0] == 'b',
        "black"@[1] == 'l',
        "x"@ == seq!['x'],
        "x"@[0] == 'x',
        "w"@ == seq!['w'],
        "w"@[0] == 'w',
        "white"@ == seq!['w', 'h', 'i', 't', 'e'],
        "white"@[0] == 'w',
        "white"@[1] == 'h',
        "o"@ == seq!['o'],
        "o"@[0] == 'o',
{
    reveal_strlit("quit");
    reveal_strlit("q");
    reveal_strlit("exit");
    reveal_strlit("help");
    reveal_strlit("?");
    reveal_strlit("show");
    reveal_strlit("s");
    reveal_strlit("score");
    reveal_strlit("undo");
    reveal_strlit("u");
    reveal_strlit("komi");
    reveal_strlit("time");
    reveal_strlit("me");
    reveal_strlit("handicap");
    reveal_strlit("turn");
    reveal_strlit("hint");
    reveal_strlit("h");
    reveal_strlit("add");
    reveal_strlit("del");
    reveal_strlit("remove");
    reveal_strlit("setup");
    reveal_strlit("pass");
    reveal_strlit("b");
    reveal_strlit("black");
    reveal_strlit("x");
    reveal_strlit("w");
    reveal_strlit("white");
    reveal_strlit("o");
}

/// Taking a stone off changes one point and nobody's turn: after `del` with a vertex,
/// or `remove`, that point is empty, every other holds what it held, and the side to
/// move, the prisoners and the passes are what they were.
pub proof fn law_taking_off_changes_one_point(game: GameState, line: Seq<char>, pt: Point)
    requires
        game.board.wf(),
        words_of(line).len() >= 2,
        head_of(line) == "del"@ || head_of(line) == "remove"@,
        coords::named_move(game.board.size, words_of(line)[1]) == Some(Move::Play(pt)),
    ensures
        ({
            let was = game.board;
            let now = after_line(game, line).board;
            &&& now.cells[pt as int] == Cell::Empty
            &&& forall|q: int| 0 <= q < 441 && q != pt ==> #[trigger] now.cells[q] == was.cells[q]
            &&& now.to_move == was.to_move
            &&& now.size == was.size
            &&& now.black_prisoners == was.black_prisoners
            &&& now.white_prisoners == was.white_prisoners
            &&& now.passes == was.passes
            &&& now.ko is None
        }),
        after_line(game, line).history.len() == 0,
        after_line(game, line).moves == 0,
{
    lemma_command_words();
    coords::lemma_named_move(game.board.size, words_of(line)[1]);
    assert(words_of(line).skip(1)[0] == words_of(line)[1]);
    assert((game.board.cells[pt as int] != Cell::Border) <==> rules::on_board(
        game.board.size,
        pt as int,
    ));
}

/// Giving the turn to a side moves no stone.
pub proof fn law_turn_moves_no_stone(game: GameState, line: Seq<char>, c: Color)
    requires
        words_of(line).len() >= 2,
        head_of(line) == "turn"@,
        cli::colour_named(words_of(line)[1]) == Some(c),
    ensures
        after_line(game, line).board.to_move == c,
        after_line(game, line).board.cells == game.board.cells,
        after_line(game, line).board.size == game.board.size,
        after_line(game, line).board.black_prisoners == game.board.black_prisoners,
        after_line(game, line).board.white_prisoners == game.board.white_prisoners,
        after_line(game, line).history == game.history,
        after_line(game, line).moves == game.moves,
        after_line(game, line).seen == game.seen,
{
    lemma_command_words();
    assert(words_of(line).skip(1)[0] == words_of(line)[1]);
}

/// The words that name a side: `b`, `black` and `x` are Black, `w`, `white` and `o`
/// are White, and one word never names both.
pub proof fn law_sides_have_names(word: Seq<char>)
    ensures
        cli::colour_named(word) == Some(Color::Black) <==> {
            let w = text::lowered(word);
            w == seq!['b'] || w == seq!['b', 'l', 'a', 'c', 'k'] || w == seq!['x']
        },
        cli::colour_named(word) == Some(Color::White) <==> {
            let w = text::lowered(word);
            w == seq!['w'] || w == seq!['w', 'h', 'i', 't', 'e'] || w == seq!['o']
        },
{
    lemma_command_words();
    let w = text::lowered(word);
    assert(seq!['b'][0] != seq!['w'][0]);
    assert(seq!['b'][0] != seq!['o'][0]);
    assert(seq!['x'][0] != seq!['w'][0]);
    assert(seq!['x'][0] != seq!['o'][0]);
    assert(seq!['b', 'l', 'a', 'c', 'k'][0] != seq!['w', 'h', 'i', 't', 'e'][0]);
}

/// A move that names its side is made by that side, whoever's turn it was: where it is
/// accepted, the stone on the vertex is of that colour, it is the other side's turn,
/// and one more move has been made. Where it is refused, no stone has moved.
#[verifier::rlimit(40)]
pub proof fn law_named_side_makes_the_move(game: GameState, line: Seq<char>, c: Color, pt: Point)
    requires
        game.board.wf(),
        words_of(line).len() >= 2,
        c == Color::Black ==> head_of(line) == "b"@ || head_of(line) == "black"@,
        c == Color::White ==> head_of(line) == "w"@ || head_of(line) == "white"@,
        coords::named_move(game.board.size, words_of(line)[1]) == Some(Move::Play(pt)),
    ensures
        ({
            let was = game.board;
            let after = after_line(game, line);
            let now = after.board;
            if after.history.len() > game.history.len() {
                &&& was.cells[pt as int] == Cell::Empty
                &&& now.cells[pt as int] == c.spec_cell()
                &&& now.to_move == c.spec_other()
                &&& now.last_move == Some(Move::Play(pt))
                &&& after.moves == game.moves + 1
                &&& !game.seen.contains(now.hash)
                &&& forall|q: int|
                    0 <= q < 441 && q != pt ==> #[trigger] now.cells[q] == was.cells[q] || (
                    now.cells[q] == Cell::Empty && was.cells[q] == c.spec_other().spec_cell())
            } else {
                &&& now.cells == was.cells
                &&& after.moves == game.moves
            }
        }),
        (cli::entered(game, line)).2,
{
    lemma_command_words();
    let w = words_of(line)[0];
    let head = head_of(line);
    assert(text::lowered(head) =~= head) by {
        assert forall|i: int| 0 <= i < head.len() implies text::lower(#[trigger] head[i])
            == head[i] by {}
    }
    law_sides_have_names(head);
    coords::lemma_named_move(game.board.size, words_of(line)[1]);
    assert(words_of(line).skip(1)[0] == words_of(line)[1]);
    lemma_stone_down(game.board.size, game.board.cells, pt, c);
}

/// A stone that is put down stands; what else changes is stones of the other side that
/// go.
proof fn lemma_stone_down(size: int, cells: Seq<Cell>, pt: Point, c: Color)
    requires
        rules::framed(size, cells),
        rules::on_board(size, pt as int),
    ensures
        rules::framed(size, rules::after(cells, pt as int, c)),
        rules::after(cells, pt as int, c)[pt as int] == c.spec_cell(),
        forall|q: int|
            0 <= q < 441 && q != pt ==> #[trigger] rules::after(cells, pt as int, c)[q] == cells[q]
                || (rules::after(cells, pt as int, c)[q] == Cell::Empty && cells[q]
                == c.spec_other().spec_cell()),
{
    rules::lemma_after_own(size, cells, pt as int, c);
}

/// A vertex alone is a move of the side to move.
pub proof fn law_bare_vertex_is_played_by_the_side_to_move(
    game: GameState,
    line: Seq<char>,
    pt: Point,
)
    requires
        game.board.wf(),
        words_of(line).len() > 0,
        !is_command(head_of(line)),
        coords::named_move(game.board.size, text::trim(line)) == Some(Move::Play(pt)),
    ensures
        ({
            let was = game.board;
            let after = after_line(game, line);
            let now = after.board;
            if after.history.len() > game.history.len() {
                &&& was.cells[pt as int] == Cell::Empty
                &&& now.cells[pt as int] == was.to_move.spec_cell()
                &&& now.to_move == was.to_move.spec_other()
                &&& after.undone() == game
                &&& !game.seen.contains(now.hash)
            } else {
                after == game
            }
        }),
{
    coords::lemma_named_move(game.board.size, text::trim(line));
    lemma_stone_down(game.board.size, game.board.cells, pt, game.board.to_move);
    if let Ok(next) = game.outcome(Move::Play(pt)) {
        assert(next.history.drop_last() =~= game.history);
        assert(next.seen.drop_last() =~= game.seen);
    }
}

/// The words that a line can start with to mean something other than a vertex.
pub open spec fn is_command(head: Seq<char>) -> bool {
    ||| head == "quit"@ || head == "q"@ || head == "exit"@
    ||| head == "help"@ || head == "?"@
    ||| head == "show"@ || head == "s"@
    ||| head == "score"@
    ||| head == "undo"@ || head == "u"@
    ||| head == "komi"@ || head == "time"@ || head == "me"@
    ||| head == "handicap"@ || head == "turn"@
    ||| head == "hint"@ || head == "h"@
    ||| head == "add"@ || head == "del"@ || head == "remove"@ || head == "setup"@
    ||| head == "pass"@
    ||| head == "b"@ || head == "black"@ || head == "w"@ || head == "white"@
}

/// A pass moves no stone and gives the other side the turn.
pub proof fn law_pass_gives_the_turn(game: GameState, line: Seq<char>)
    requires
        words_of(line).len() > 0,
        head_of(line) == "pass"@,
    ensures
        after_line(game, line).board.cells == game.board.cells,
        after_line(game, line).board.to_move == game.board.to_move.spec_other(),
        after_line(game, line).board.passes == game.board.passes + 1,
        after_line(game, line).moves == game.moves + 1,
        after_line(game, line).undone() == game,
        (cli::entered(game, line)).2,
{
    lemma_command_words();
    let next = after_line(game, line);
    assert(next.history.drop_last() =~= game.history);
    assert(next.seen.drop_last() =~= game.seen);
}

/// Undoing a line that made a step brings the game back, and undoing at the start
/// changes nothing.
pub proof fn law_undo_steps_back(game: GameState, line: Seq<char>)
    requires
        words_of(line).len() > 0,
        head_of(line) == "undo"@ || head_of(line) == "u"@,
    ensures
        game.history.len() == 0 ==> after_line(game, line) == game,
        game.history.len() > 0 ==> {
            let after = after_line(game, line);
            &&& after.board == game.history.last().board
            &&& after.moves == game.history.last().moves
            &&& after.history == game.history.drop_last()
        },
{
    lemma_command_words();
}

/// Is this a word that asks for something and changes nothing?
pub open spec fn asks(head: Seq<char>) -> bool {
    ||| head == "quit"@ || head == "q"@ || head == "exit"@
    ||| head == "help"@ || head == "?"@
    ||| head == "show"@ || head == "s"@
    ||| head == "score"@ || head == "komi"@ || head == "time"@ || head == "me"@
    ||| head == "hint"@ || head == "h"@ || head == "setup"@
}

/// Asking for something changes nothing in the game, and is no move.
#[verifier::rlimit(40)]
pub proof fn law_questions_change_nothing(game: GameState, line: Seq<char>)
    requires
        words_of(line).len() > 0,
        asks(head_of(line)),
    ensures
        after_line(game, line) == game,
        !(cli::entered(game, line)).2,
{
    lemma_command_words();
}

/// What is asked for is what the word says.
#[verifier::rlimit(40)]
pub proof fn law_words_ask_for_what_they_say(game: GameState, line: Seq<char>)
    requires
        words_of(line).len() > 0,
        asks(head_of(line)),
    ensures
        ({
            let head = head_of(line);
            let action = action_of(game, line);
            let arg = if words_of(line).len() > 1 {
                Some(words_of(line)[1])
            } else {
                None
            };
            &&& head == "quit"@ || head == "q"@ || head == "exit"@ ==> action
                == ActionState::Leave
            &&& head == "help"@ || head == "?"@ ==> action == ActionState::Help
            &&& head == "score"@ ==> action == ActionState::Score
            &&& head == "setup"@ ==> action == ActionState::Setup
            &&& head == "komi"@ ==> action == ActionState::Komi(arg)
            &&& head == "time"@ ==> action == ActionState::Time(arg)
            &&& head == "hint"@ || head == "h"@ ==> action == ActionState::Hint(arg)
            &&& head == "me"@ && arg is Some ==> (cli::colour_named(arg->0) matches Some(c) ==> action
                == ActionState::Me(c))
            &&& head == "show"@ || head == "s"@ ==> action == ActionState::Say(
                text::unlines(coords::diagram_lines(game.board, Seq::empty())),
            )
        }),
{
    lemma_command_words();
    if words_of(line).len() > 1 {
        assert(words_of(line).skip(1)[0] == words_of(line)[1]);
    }
}

/// Adding stones puts one of the colour that was named on every vertex that was named,
/// and nothing else on the board: what else changes is stones of the other side that
/// are taken. It is nobody's move.
#[verifier::rlimit(40)]
pub proof fn law_added_stones_stand(game: GameState, line: Seq<char>, c: Color)
    requires
        game.board.wf(),
        words_of(line).len() >= 2,
        head_of(line) == "add"@,
        cli::colour_named(words_of(line)[1]) == Some(c),
    ensures
        ({
            let was = game.board;
            let after = after_line(game, line);
            let now = after.board;
            &&& now.to_move == was.to_move
            &&& after.moves == game.moves
            &&& forall|i: int|
                2 <= i < words_of(line).len() ==> (coords::named_move(
                    was.size,
                    #[trigger] words_of(line)[i],
                ) matches Some(Move::Play(pt)) ==> now.cells[pt as int] == c.spec_cell())
            &&& forall|q: int|
                0 <= q < 441 && #[trigger] now.cells[q] != was.cells[q] ==> {
                    ||| now.cells[q] == Cell::Empty && was.cells[q] == c.spec_other().spec_cell()
                    ||| now.cells[q] == c.spec_cell() && exists|i: int|
                        2 <= i < words_of(line).len() && coords::named_move(
                            was.size,
                            #[trigger] words_of(line)[i],
                        ) == Some(Move::Play(q as Point))
                }
        }),
{
    lemma_command_words();
    let w = words_of(line);
    let rest = w.skip(1);
    assert(rest[0] == w[1]);
    let words = rest.skip(1);
    let after = after_line(game, line);
    assert(after == cli::with_added(game, c, words, words.len()));
    lemma_added(game, c, words, words.len());
    assert forall|i: int| 2 <= i < w.len() implies (coords::named_move(
        game.board.size,
        #[trigger] w[i],
    ) matches Some(Move::Play(pt)) ==> after.board.cells[pt as int] == c.spec_cell()) by {
        assert(words[i - 2] == w[i]);
    }
    assert forall|q: int| 0 <= q < 441 && #[trigger] after.board.cells[q] != game.board.cells[q]
        && after.board.cells[q] != Cell::Empty implies exists|i: int|
        2 <= i < w.len() && coords::named_move(game.board.size, #[trigger] w[i]) == Some(
            Move::Play(q as Point),
        ) by {
        let i = choose|i: int|
            0 <= i < words.len() && coords::named_move(game.board.size, #[trigger] words[i])
                == Some(Move::Play(q as Point));
        assert(w[i + 2] == words[i]);
    }
}

#[verifier::rlimit(40)]
proof fn lemma_added(game: GameState, c: Color, words: Seq<Seq<char>>, n: nat)
    requires
        game.board.wf(),
        n <= words.len(),
    ensures
        ({
            let was = game.board;
            let after = cli::with_added(game, c, words, n);
            let now = after.board;
            &&& now.wf()
            &&& now.size == was.size
            &&& now.to_move == was.to_move
            &&& after.moves == game.moves
            &&& forall|i: int|
                0 <= i < n ==> (coords::named_move(was.size, #[trigger] words[i]) matches Some(
                    Move::Play(pt),
                ) ==> now.cells[pt as int] == c.spec_cell())
            &&& forall|q: int|
                0 <= q < 441 && #[trigger] now.cells[q] != was.cells[q] ==> {
                    ||| now.cells[q] == Cell::Empty && was.cells[q] == c.spec_other().spec_cell()
                    ||| now.cells[q] == c.spec_cell() && exists|i: int|
                        0 <= i < n && coords::named_move(was.size, #[trigger] words[i]) == Some(
                            Move::Play(q as Point),
                        )
                }
        }),
    decreases n,
{
    if n > 0 {
        let was = game.board;
        let before = cli::with_added(game, c, words, (n - 1) as nat);
        let after = cli::with_added(game, c, words, n);
        lemma_added(game, c, words, (n - 1) as nat);
        coords::lemma_named_move(was.size, words[n - 1]);
        if let Some(Move::Play(pt)) = coords::named_move(was.size, words[n - 1]) {
            lemma_stone_down(was.size, before.board.cells, pt, c);
            assert forall|i: int| 0 <= i < n implies (coords::named_move(
                was.size,
                #[trigger] words[i],
            ) matches Some(Move::Play(p)) ==> after.board.cells[p as int] == c.spec_cell()) by {
                coords::lemma_named_move(was.size, words[i]);
            }
            assert forall|q: int|
                0 <= q < 441 && #[trigger] after.board.cells[q] != was.cells[q] implies {
                ||| after.board.cells[q] == Cell::Empty && was.cells[q]
                    == c.spec_other().spec_cell()
                ||| after.board.cells[q] == c.spec_cell() && exists|i: int|
                    0 <= i < n && coords::named_move(was.size, #[trigger] words[i]) == Some(
                        Move::Play(q as Point),
                    )
            } by {
                if q == pt {
                    assert(coords::named_move(was.size, words[n - 1]) == Some(
                        Move::Play(q as Point),
                    ));
                } else if before.board.cells[q] != was.cells[q] {
                    if before.board.cells[q] == c.spec_cell() {
                        let i = choose|i: int|
                            0 <= i < n - 1 && coords::named_move(was.size, #[trigger] words[i])
                                == Some(Move::Play(q as Point));
                        assert(coords::named_move(was.size, words[i]) == Some(
                            Move::Play(q as Point),
                        ));
                    }
                }
            }
        }
    }
}

proof fn lemma_one_colour_stands(size: int, stones: Seq<(Point, Color)>, c: Color)
    requires
        2 <= size <= 19,
        forall|i: int|
            0 <= i < stones.len() ==> (#[trigger] stones[i]).1 == c && rules::on_board(
                size,
                stones[i].0 as int,
            ),
    ensures
        coords::set_up(Position::empty(size), stones).wf(),
        coords::set_up(Position::empty(size), stones).size == size,
        forall|i: int|
            0 <= i < stones.len() ==> coords::set_up(
                Position::empty(size),
                stones,
            ).cells[(#[trigger] stones[i]).0 as int] == c.spec_cell(),
    decreases stones.len(),
{
    coords::lemma_only_these(size, stones);
    if stones.len() > 0 {
        let less = stones.drop_last();
        let (pt, _) = stones.last();
        assert(stones[stones.len() - 1] == stones.last());
        assert forall|i: int| 0 <= i < less.len() implies (#[trigger] less[i]).1 == c
            && rules::on_board(size, less[i].0 as int) by {
            assert(less[i] == stones[i]);
        }
        lemma_one_colour_stands(size, less, c);
        let before = coords::set_up(Position::empty(size), less);
        lemma_stone_down(size, before.cells, pt, c);
        assert forall|i: int| 0 <= i < stones.len() implies coords::set_up(
            Position::empty(size),
            stones,
        ).cells[(#[trigger] stones[i]).0 as int] == c.spec_cell() by {
            if i < less.len() {
                assert(less[i] == stones[i]);
            }
        }
    }
}

/// Does the board hold a black stone on each of these points, and no other stone?
pub open spec fn black_exactly_on(cells: Seq<Cell>, points: Seq<(usize, usize)>) -> bool {
    &&& forall|p: int| 0 <= p < 441 ==> #[trigger] cells[p] != Cell::White
    &&& forall|p: int|
        0 <= p < 441 ==> (#[trigger] cells[p] == Cell::Black <==> exists|i: int|
            0 <= i < points.len() && p == rules::point_at(
                (#[trigger] points[i]).0 as int,
                points[i].1 as int,
            ))
}

#[verifier::rlimit(40)]
proof fn lemma_black_exactly_on(size: int, points: Seq<(usize, usize)>)
    requires
        2 <= size <= 19,
        forall|i: int|
            0 <= i < points.len() ==> (#[trigger] points[i]).0 < size && points[i].1 < size,
    ensures
        gtp::handicap_board(size, points).wf(),
        black_exactly_on(gtp::handicap_board(size, points).cells, points),
{
    let stones = gtp::handicap_stones(points);
    let cells = gtp::handicap_board(size, points).cells;
    assert forall|i: int| 0 <= i < stones.len() implies (#[trigger] stones[i]).1 == Color::Black
        && rules::on_board(size, stones[i].0 as int) && stones[i].0 == rules::point_at(
        points[i].0 as int,
        points[i].1 as int,
    ) by {
        assert(points[i].0 < size && points[i].1 < size);
    }
    coords::lemma_only_these(size, stones);
    lemma_one_colour_stands(size, stones, Color::Black);
    assert forall|p: int| 0 <= p < 441 implies #[trigger] cells[p] != Cell::White && (cells[p]
        == Cell::Black <==> exists|i: int|
        0 <= i < points.len() && p == rules::point_at(
            (#[trigger] points[i]).0 as int,
            points[i].1 as int,
        )) by {
        if rules::is_stone(cells[p]) {
            let i = choose|i: int|
                0 <= i < stones.len() && (#[trigger] stones[i]).0 == p && stones[i].1.spec_cell()
                    == cells[p];
            assert(points[i].0 < size);
        }
        if exists|i: int|
            0 <= i < points.len() && p == rules::point_at(
                (#[trigger] points[i]).0 as int,
                points[i].1 as int,
            ) {
            let i = choose|i: int|
                0 <= i < points.len() && p == rules::point_at(
                    (#[trigger] points[i]).0 as int,
                    points[i].1 as int,
                );
            assert(stones[i].0 == p);
        }
    }
}

/// A board with handicap stones holds a black stone on each of the handicap points, as
/// many as were asked for, and no other stone; White is to move.
#[verifier::rlimit(40)]
pub proof fn law_handicap_stones_are_black(size: usize, n: usize)
    requires
        size <= 19,
        coords::handicap_error(size, n) is None,
    ensures
        ({
            let points = coords::handicap_layout(size, n);
            let board = gtp::handicap_board(size as int, points);
            &&& board.wf()
            &&& board.to_move == Color::White
            &&& board.ko is None
            &&& points.len() == n
            &&& black_exactly_on(board.cells, points)
        }),
{
    coords::lemma_handicap_inside(size, n);
    coords::law_handicap_points_are_star_points(size, n, 0, 1);
    lemma_black_exactly_on(size as int, coords::handicap_layout(size, n));
}

/// A handicap command that is not refused starts the game over from the board with as
/// many handicap stones as it asks for; one that is refused changes nothing.
pub proof fn law_handicap_starts_over(game: GameState, line: Seq<char>, n: usize)
    requires
        2 <= game.board.size <= 19,
        words_of(line).len() >= 2,
        head_of(line) == "handicap"@,
        text::number_upto(words_of(line)[1], usize::MAX as nat) == Some(n as nat),
    ensures
        ({
            let size = game.board.size as usize;
            let after = after_line(game, line);
            if 2 <= n <= 9 && size >= 7 && (n <= 4 || size % 2 == 1) {
                &&& after.board == gtp::handicap_board(
                    game.board.size,
                    coords::handicap_layout(size, n),
                )
                &&& after.history.len() == 0
                &&& after.moves == 0
                &&& after.seen == seq![after.board.hash]
            } else {
                after == game
            }
        }),
{
    lemma_command_words();
    assert(words_of(line).skip(1)[0] == words_of(line)[1]);
}

/// A position that is entered as a diagram replaces the game: the side it was entered
/// for is to move, there is nothing to undo, and no chain is without a liberty. A
/// diagram that does not line up leaves the game alone.
#[verifier::rlimit(40)]
pub proof fn law_set_up_replaces_the_game(game: GameState, said: Seq<char>, me: Color)
    requires
        2 <= game.board.size <= 19,
    ensures
        ({
            let size = game.board.size;
            let rows = coords::stone_rows(text::lines(said));
            let after = (cli::set_up_from(game, said, me)).0;
            if rows.len() == size && forall|i: int|
                0 <= i < size ==> (#[trigger] rows[i]).len() == size {
                &&& after.board.to_move == me
                &&& after.board.size == size
                &&& after.history.len() == 0
                &&& after.moves == 0
                &&& rules::all_breathe(after.board.cells)
                &&& forall|p: int|
                    0 <= p < 441 && rules::is_stone(#[trigger] after.board.cells[p]) ==> {
                        let x = p % 21 - 1;
                        let y = p / 21 - 1;
                        after.board.cells[p] == rows[size - 1 - y][x]
                    }
            } else {
                after == game
            }
        }),
{
    let size = game.board.size;
    let rows = coords::stone_rows(text::lines(said));
    let after = (cli::set_up_from(game, said, me)).0;
    lemma_misfit(rows, size, 0);
    if rows.len() == size && forall|i: int| 0 <= i < size ==> (#[trigger] rows[i]).len() == size {
        let stones = coords::stones_in(rows, size);
        let built = coords::laid_out(rows, size);
        coords::lemma_only_these(size, stones);
        crate::laws::law_settled_boards_breathe(built);
        assert forall|p: int|
            0 <= p < 441 && rules::is_stone(#[trigger] after.board.cells[p]) implies {
            let x = p % 21 - 1;
            let y = p / 21 - 1;
            after.board.cells[p] == rows[size - 1 - y][x]
        } by {
            let i = choose|i: int|
                0 <= i < stones.len() && (#[trigger] stones[i]).0 == p && stones[i].1.spec_cell()
                    == after.board.cells[p];
            lemma_shown_where_drawn(rows, size, (size * size) as nat, i);
        }
    }
}

proof fn lemma_misfit(rows: Seq<Seq<Cell>>, size: int, from: nat)
    requires
        from <= rows.len(),
    ensures
        from <= coords::first_misfit(rows, size, from) <= rows.len(),
        coords::first_misfit(rows, size, from) == rows.len() <==> forall|i: int|
            from <= i < rows.len() ==> (#[trigger] rows[i]).len() == size,
    decreases rows.len() - from,
{
    if from < rows.len() {
        lemma_misfit(rows, size, from + 1);
        assert(rows[from as int].len() == size || rows[from as int].len() != size);
    }
}

/// Every stone that is read from the rows of a diagram stands in them where it is to
/// stand on the board, the first row being the highest.
proof fn lemma_shown_where_drawn(rows: Seq<Seq<Cell>>, size: int, n: nat, k: int)
    requires
        2 <= size <= 19,
        n <= size * size,
        0 <= k < coords::stones_upto(rows, size, n).len(),
    ensures
        ({
            let (pt, c) = coords::stones_upto(rows, size, n)[k];
            let x = pt % 21 - 1;
            let y = pt / 21 - 1;
            &&& 0 <= x < size
            &&& 0 <= y < size
            &&& rows[size - 1 - y][x] == c.spec_cell()
        }),
    decreases n,
{
    if n > 0 {
        let i = (n - 1) / size;
        let x = (n - 1) % size;
        let before = coords::stones_upto(rows, size, (n - 1) as nat);
        assert(0 <= i < size && 0 <= x < size) by (nonlinear_arith)
            requires
                0 < size,
                0 < n <= size * size,
                i == (n - 1) / size,
                x == (n - 1) % size,
        ;
        if k < before.len() {
            lemma_shown_where_drawn(rows, size, (n - 1) as nat, k);
            assert(coords::stones_upto(rows, size, n)[k] == before[k]);
        }
    }
}

/// With three more digits behind them, the commas among the first digits stay where
/// they are.
proof fn lemma_commas_stay(short: Seq<char>, long: Seq<char>, n: nat)
    requires
        n <= short.len(),
        long.len() == short.len() + 3,
        forall|i: int| 0 <= i < short.len() ==> #[trigger] long[i] == short[i],
    ensures
        cli::commas_upto(long, n) == cli::commas_upto(short, n),
    decreases n,
{
    if n > 0 {
        lemma_commas_stay(short, long, (n - 1) as nat);
        assert((long.len() - (n - 1)) % 3 == (short.len() - (n - 1)) % 3);
    }
}

/// A number is written in groups of three digits: below a thousand as it is, and from
/// there on as its thousands, a comma, and its last three digits.
pub proof fn law_numbers_are_grouped_in_threes(n: nat)
    ensures
        n < 1000 ==> cli::in_threes(n) == text::decimal(n),
        n >= 1000 ==> cli::in_threes(n) == cli::in_threes(n / 1000) + seq![
            ',',
            text::digit(n / 100 % 10),
            text::digit(n / 10 % 10),
            text::digit(n % 10),
        ],
{
    let d = text::decimal(n);
    if n < 1000 {
        reveal_with_fuel(text::decimal, 4);
        reveal_with_fuel(cli::commas_upto, 5);
        assert(cli::in_threes(n) =~= d);
    } else {
        let less = text::decimal(n / 1000);
        let a = text::digit(n / 100 % 10);
        let b = text::digit(n / 10 % 10);
        let c = text::digit(n % 10);
        assert(n / 10 / 10 == n / 100 && n / 100 / 10 == n / 1000);
        assert(text::decimal(n) == text::decimal(n / 10).push(c));
        assert(text::decimal(n / 10) == text::decimal(n / 100).push(b));
        assert(text::decimal(n / 100) == less.push(a));
        let k = less.len();
        assert(d == less.push(a).push(b).push(c));
        assert(d.len() == k + 3);
        text::lemma_decimal(n / 1000);
        lemma_commas_stay(less, d, k);
        let start = cli::commas_upto(d, k);
        assert(cli::commas_upto(d, k + 1) == start.push(',').push(a));
        assert(cli::commas_upto(d, k + 2) == start.push(',').push(a).push(b));
        assert(cli::commas_upto(d, k + 3) == start.push(',').push(a).push(b).push(c));
        assert(cli::in_threes(n) =~= cli::in_threes(n / 1000) + seq![',', a, b, c]);
    }
}

/// The lines of the first `k` moves of a table, the first of them pointed out.
pub open spec fn table_upto(all: Seq<ShownState>, k: nat) -> Seq<char>
    decreases k,
{
    if k == 0 {
        Seq::empty()
    } else {
        table_upto(all, (k - 1) as nat) + cli::table_line(all[k - 1], k == 1)
    }
}

/// A table shows the moves in their order, the first one pointed out, and no more than
/// five; it ends before the first that was never visited, if such are not wanted.
pub proof fn law_tables_show_five_moves_in_order(all: Seq<ShownState>, k: nat, visited: bool)
    requires
        k <= 5,
        k <= all.len(),
        forall|i: int| 0 <= i < k ==> (visited ==> (#[trigger] all[i]).visits > 0),
        k == 5 || k == all.len() || (visited && all[k as int].visits == 0),
    ensures
        cli::table_from(all, 0, visited) == table_upto(all, k),
{
    lemma_table(all, k, visited, 0);
    assert(table_upto(all, 0) + cli::table_from(all, 0, visited) =~= cli::table_from(
        all,
        0,
        visited,
    ));
}

proof fn lemma_table(all: Seq<ShownState>, k: nat, visited: bool, i: nat)
    requires
        i <= k <= 5,
        k <= all.len(),
        forall|i: int| 0 <= i < k ==> (visited ==> (#[trigger] all[i]).visits > 0),
        k == 5 || k == all.len() || (visited && all[k as int].visits == 0),
    ensures
        table_upto(all, i) + cli::table_from(all, i as int, visited) == table_upto(all, k),
    decreases k - i,
{
    if i < k {
        lemma_table(all, k, visited, i + 1);
        assert(all[i as int].visits > 0 || !visited);
        let line = cli::table_line(all[i as int], i == 0);
        let rest = cli::table_from(all, i as int + 1, visited);
        assert(cli::table_from(all, i as int, visited) == line + rest);
        assert(table_upto(all, i + 1) == table_upto(all, i) + line);
        assert(table_upto(all, i) + (line + rest) =~= table_upto(all, i) + line + rest);
    } else {
        assert(table_upto(all, i) + Seq::<char>::empty() =~= table_upto(all, i));
    }
}

/// The lines of a diagram are collected as they are entered: what has been entered is
/// those lines, one after the other, and it is complete with the last row of the board
/// or with a blank line, which is not part of it.
pub proof fn law_diagrams_are_collected_line_by_line(
    d: DiagramState,
    all: Seq<Seq<char>>,
    size: nat,
    line: Seq<char>,
)
    requires
        d.text == text::unlines(all),
        d.rows == all.len(),
    ensures
        text::trim(line).len() == 0 ==> d.fed(size, line).done && d.fed(size, line).text == d.text
            && d.fed(size, line).rows == d.rows,
        text::trim(line).len() > 0 ==> {
            &&& d.fed(size, line).text == text::unlines(all.push(line))
            &&& d.fed(size, line).rows == all.len() + 1
            &&& d.fed(size, line).done <==> all.len() + 1 == size
        },
        DiagramState::fresh().text == text::unlines(Seq::empty()),
        DiagramState::fresh().rows == 0,
        !DiagramState::fresh().done,
{
    assert(all.push(line).drop_last() =~= all);
    assert(d.text + line.push('\n') =~= (d.text + line).push('\n'));
    assert(text::unlines(Seq::empty()) =~= Seq::<char>::empty());
}

/// What changes the board shows it: after a move that was made, an undo that had
/// something to undo, and a stone taken off, what is printed is the board as it now is.
#[verifier::rlimit(40)]
pub proof fn law_changes_are_shown(game: GameState, line: Seq<char>, pt: Point)
    requires
        words_of(line).len() >= 2,
        coords::named_move(game.board.size, words_of(line)[1]) == Some(Move::Play(pt)),
    ensures
        ({
            let head = head_of(line);
            let after = after_line(game, line);
            let shown = ActionState::Say(
                text::unlines(coords::diagram_lines(after.board, Seq::empty())),
            );
            &&& (head == "b"@ || head == "black"@ || head == "w"@ || head == "white"@)
                && after.history.len() > game.history.len() ==> action_of(game, line) == shown
            &&& head == "del"@ || head == "remove"@ ==> action_of(game, line) == shown
            &&& (head == "undo"@ || head == "u"@) && game.history.len() > 0 ==> action_of(game, line)
                == shown
            &&& head == "pass"@ ==> action_of(game, line) == shown
        }),
{
    lemma_command_words();
    assert(words_of(line).skip(1)[0] == words_of(line)[1]);
}

} // verus!
