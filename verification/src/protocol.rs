//! What can be relied on over the Go Text Protocol: what each command changes, and
//! what it leaves alone.

use vstd::prelude::*;

use crate::board::{Cell, Color, Move, Point};
use crate::coords;
use crate::game::GameState;
use crate::gtp;
use crate::gtp::ActionState;
use crate::rules;
use crate::text;

verus! {

/// The game after a command.
pub open spec fn after_command(game: GameState, name: Seq<char>, args: Seq<Seq<char>>) -> GameState {
    (gtp::executed(game, name, args, Seq::empty())).0
}

/// What a command comes to.
pub open spec fn answer_of(game: GameState, name: Seq<char>, args: Seq<Seq<char>>) -> ActionState {
    (gtp::executed(game, name, args, Seq::empty())).1
}

proof fn lemma_names()
    ensures
        "protocol_version"@.len() == 16,
        "protocol_version"@[0] == 'p',
        "name"@.len() == 4,
        "name"@[0] == 'n',
        "version"@.len() == 7,
        "version"@[0] == 'v',
        "known_command"@.len() == 13,
        "known_command"@[0] == 'k',
        "list_commands"@.len() == 13,
        "list_commands"@[0] == 'l',
        "quit"@.len() == 4,
        "quit"@[0] == 'q',
        "boardsize"@.len() == 9,
        "boardsize"@[0] == 'b',
        "clear_board"@.len() == 11,
        "clear_board"@[0] == 'c',
        "komi"@.len() == 4,
        "komi"@[0] == 'k',
        "play"@.len() == 4,
        "play"@[0] == 'p',
        "genmove"@.len() == 7,
        "genmove"@[0] == 'g',
        "showboard"@.len() == 9,
        "showboard"@[0] == 's',
        "final_score"@.len() == 11,
        "final_score"@[0] == 'f',
        "time_settings"@.len() == 13,
        "time_settings"@[0] == 't',
        "undo"@.len() == 4,
        "undo"@[0] == 'u',
        "fixed_handicap"@.len() == 14,
        "fixed_handicap"@[0] == 'f',
{
    reveal_strlit("protocol_version");
    reveal_strlit("name");
    reveal_strlit("version");
    reveal_strlit("known_command");
    reveal_strlit("list_commands");
    reveal_strlit("quit");
    reveal_strlit("boardsize");
    reveal_strlit("clear_board");
    reveal_strlit("komi");
    reveal_strlit("play");
    reveal_strlit("genmove");
    reveal_strlit("showboard");
    reveal_strlit("final_score");
    reveal_strlit("time_settings");
    reveal_strlit("undo");
    reveal_strlit("fixed_handicap");
}

/// Is this the name of a command that asks for something and changes nothing?
pub open spec fn asks(name: Seq<char>) -> bool {
    ||| name == "protocol_version"@
    ||| name == "name"@
    ||| name == "version"@
    ||| name == "known_command"@
    ||| name == "list_commands"@
    ||| name == "quit"@
    ||| name == "komi"@
    ||| name == "showboard"@
    ||| name == "final_score"@
    ||| name == "time_settings"@
}

/// A command that asks for something changes nothing.
pub proof fn law_questions_change_nothing(game: GameState, name: Seq<char>, args: Seq<Seq<char>>)
    requires
        asks(name),
    ensures
        after_command(game, name, args) == game,
{
    lemma_names();
}

/// What a command that is not known is answered.
pub open spec fn unknown(name: Seq<char>) -> ActionState {
    ActionState::Failure("unknown command: "@ + name)
}

/// The commands that are listed are those that are understood: any other is refused by
/// name and changes nothing, none of them is, and `known_command` says of each name
/// which of the two it is.
#[verifier::rlimit(40)]
pub proof fn law_listed_commands_are_understood(
    game: GameState,
    name: Seq<char>,
    args: Seq<Seq<char>>,
)
    ensures
        gtp::command_names().contains(name) <==> answer_of(game, name, args) != unknown(name),
        !gtp::command_names().contains(name) ==> after_command(game, name, args) == game,
        answer_of(game, "known_command"@, seq![name]) == ActionState::Answer(
            if answer_of(game, name, args) != unknown(name) {
                "true"@
            } else {
                "false"@
            },
        ),
{
    lemma_names();
    reveal_strlit("unknown command: ");
    reveal_strlit("syntax error");
    reveal_strlit("invalid colour");
    reveal_strlit("invalid coordinate");
    reveal_strlit("illegal move: ");
    reveal_strlit("unacceptable size");
    reveal_strlit("cannot undo");
    reveal_strlit("handicap is 2 to 9 stones");
    reveal_strlit("a ");
    let all = gtp::command_names();
    let said = unknown(name)->Failure_0;
    assert(said[0] == 'u' && said[1] == 'n' && said[2] == 'k');
    assert(all[0] == "protocol_version"@);
    assert(all[1] == "name"@);
    assert(all[2] == "version"@);
    assert(all[3] == "known_command"@);
    assert(all[4] == "list_commands"@);
    assert(all[5] == "quit"@);
    assert(all[6] == "boardsize"@);
    assert(all[7] == "clear_board"@);
    assert(all[8] == "komi"@);
    assert(all[9] == "play"@);
    assert(all[10] == "genmove"@);
    assert(all[11] == "showboard"@);
    assert(all[12] == "final_score"@);
    assert(all[13] == "time_settings"@);
    assert(all[14] == "undo"@);
    assert(all[15] == "fixed_handicap"@);
    if all.contains(name) {
        let i = choose|i: int| 0 <= i < all.len() && all[i] == name;
        assert(answer_of(game, name, args) != unknown(name)) by {
            if let ActionState::Failure(why) = answer_of(game, name, args) {
                assert(why[0] != 'u' || why[2] != 'k');
            }
        }
    }
    let one = seq![name];
    assert(one[0] == name);
}

/// The words that name a side in the protocol.
pub proof fn law_sides_have_names(word: Seq<char>)
    ensures
        gtp::colour_named(word) == Some(Color::Black) <==> {
            let w = text::lowered(word);
            w == seq!['b'] || w == seq!['b', 'l', 'a', 'c', 'k']
        },
        gtp::colour_named(word) == Some(Color::White) <==> {
            let w = text::lowered(word);
            w == seq!['w'] || w == seq!['w', 'h', 'i', 't', 'e']
        },
{
    reveal_strlit("b");
    reveal_strlit("black");
    reveal_strlit("w");
    reveal_strlit("white");
    let w = text::lowered(word);
    assert("b"@ =~= seq!['b']);
    assert("black"@ =~= seq!['b', 'l', 'a', 'c', 'k']);
    assert("w"@ =~= seq!['w']);
    assert("white"@ =~= seq!['w', 'h', 'i', 't', 'e']);
    assert(seq!['b'][0] != seq!['w'][0]);
    assert(seq!['b', 'l', 'a', 'c', 'k'][0] != seq!['w', 'h', 'i', 't', 'e'][0]);
}

/// `play` puts a stone of the side that it names on the vertex that it names, whoever's
/// turn it was, and it is the other side's turn; the answer is empty exactly then.
/// Otherwise no stone has moved.
pub proof fn law_play_puts_the_stone_down(
    game: GameState,
    args: Seq<Seq<char>>,
    c: Color,
    pt: Point,
)
    requires
        game.board.wf(),
        args.len() >= 2,
        gtp::colour_named(args[0]) == Some(c),
        coords::named_move(game.board.size, args[1]) == Some(Move::Play(pt)),
    ensures
        ({
            let was = game.board;
            let after = after_command(game, "play"@, args);
            let now = after.board;
            if answer_of(game, "play"@, args) == ActionState::Answer(Seq::empty()) {
                &&& was.cells[pt as int] == Cell::Empty
                &&& now.cells[pt as int] == c.spec_cell()
                &&& now.to_move == c.spec_other()
                &&& after.moves == game.moves + 1
                &&& after.history.len() == game.history.len() + 1
                &&& !game.seen.contains(now.hash)
                &&& after_command(after, "undo"@, Seq::empty()).board.cells == was.cells
                &&& after_command(after, "undo"@, Seq::empty()).moves == game.moves
                &&& forall|q: int|
                    0 <= q < 441 && q != pt ==> #[trigger] now.cells[q] == was.cells[q] || (
                    now.cells[q] == Cell::Empty && was.cells[q] == c.spec_other().spec_cell())
            } else {
                &&& answer_of(game, "play"@, args) is Failure
                &&& now.cells == was.cells
                &&& after.history == game.history
                &&& after.moves == game.moves
            }
        }),
{
    lemma_names();
    coords::lemma_named_move(game.board.size, args[1]);
    rules::lemma_after_own(game.board.size, game.board.cells, pt as int, c);
}

/// `genmove` gives the turn to the side it names, and asks for a move of that side.
pub proof fn law_genmove_is_for_the_side_named(game: GameState, args: Seq<Seq<char>>, c: Color)
    requires
        args.len() > 0,
        gtp::colour_named(args[0]) == Some(c),
    ensures
        answer_of(game, "genmove"@, args) == ActionState::Genmove(c),
        after_command(game, "genmove"@, args).board.to_move == c,
        after_command(game, "genmove"@, args).board.cells == game.board.cells,
        after_command(game, "genmove"@, args).history == game.history,
        after_command(game, "genmove"@, args).moves == game.moves,
{
    lemma_names();
}

/// The move that is found is made and named. Resigning says so and changes nothing, and
/// so does nothing but say so a move that the game refuses.
pub proof fn law_found_move_is_made(game: GameState, best: Move, resign: bool)
    requires
        game.board.wf(),
        best matches Move::Play(pt) ==> game.board.on_board(pt as int),
    ensures
        ({
            let (after, said) = gtp::generated(game, best, resign);
            &&& resign ==> after == game && coords::named_move(game.board.size, said) == Some(
                Move::Resign,
            )
            &&& !resign ==> coords::named_move(game.board.size, said) == Some(best)
            &&& !resign && best is Play && game.outcome(best) is Ok ==> {
                &&& after.board.cells[best->Play_0 as int] == game.board.to_move.spec_cell()
                &&& after.board.to_move == game.board.to_move.spec_other()
                &&& after.moves == game.moves + 1
            }
            &&& !resign && best is Pass ==> {
                &&& after.board.cells == game.board.cells
                &&& after.board.to_move == game.board.to_move.spec_other()
                &&& after.moves == game.moves + 1
            }
            &&& game.outcome(best) is Err ==> after == game
        }),
{
    coords::law_move_names_round_trip(game.board.size, best);
    coords::law_move_names_round_trip(game.board.size, Move::Resign);
    if let Move::Play(pt) = best {
        rules::lemma_after_own(
            game.board.size,
            game.board.cells,
            pt as int,
            game.board.to_move,
        );
    }
}

/// Is this the start of a game: no stones, nothing captured, nothing to undo, and
/// Black to move?
pub open spec fn at_the_start(game: GameState, size: int) -> bool {
    &&& game.board.size == size
    &&& forall|p: int| 0 <= p < 441 ==> !rules::is_stone(#[trigger] game.board.cells[p])
    &&& game.board.to_move == Color::Black
    &&& game.board.ko is None
    &&& game.board.black_prisoners == 0
    &&& game.board.white_prisoners == 0
    &&& game.board.passes == 0
    &&& game.history.len() == 0
    &&& game.moves == 0
}

/// `clear_board` starts over on a board of the same size, and `boardsize` on one of
/// the size that it names, from two to nineteen; any other is refused and changes
/// nothing.
pub proof fn law_boards_are_cleared(game: GameState, args: Seq<Seq<char>>)
    ensures
        at_the_start(after_command(game, "clear_board"@, args), game.board.size),
        args.len() > 0 ==> (text::number(args[0]) matches Some(n) ==> if 2 <= n <= 19 {
            at_the_start(after_command(game, "boardsize"@, args), n as int)
        } else {
            after_command(game, "boardsize"@, args) == game
        }),
        args.len() > 0 && text::number(args[0]) is None ==> after_command(game, "boardsize"@, args)
            == game,
{
    lemma_names();
}

proof fn lemma_points_are_named(size: int, points: Seq<(usize, usize)>)
    requires
        2 <= size <= 19,
        forall|i: int|
            0 <= i < points.len() ==> (#[trigger] points[i]).0 < size && points[i].1 < size,
    ensures
        gtp::handicap_names(points).len() == points.len(),
        forall|i: int|
            0 <= i < points.len() ==> coords::named_move(
                size,
                #[trigger] gtp::handicap_names(points)[i],
            ) == Some(
                Move::Play(rules::point_at(points[i].0 as int, points[i].1 as int) as Point),
            ),
{
    assert forall|i: int| 0 <= i < points.len() implies coords::named_move(
        size,
        #[trigger] gtp::handicap_names(points)[i],
    ) == Some(Move::Play(rules::point_at(points[i].0 as int, points[i].1 as int) as Point)) by {
        assert(points[i].0 < size && points[i].1 < size);
        let pt = rules::point_at(points[i].0 as int, points[i].1 as int) as Point;
        coords::law_move_names_round_trip(size, Move::Play(pt));
    }
}

/// `fixed_handicap` sets up the board with the stones and names the points that they
/// went on, in order; where it is refused, nothing changes.
#[verifier::rlimit(40)]
pub proof fn law_fixed_handicap_says_where(game: GameState, args: Seq<Seq<char>>, n: usize)
    requires
        2 <= game.board.size <= 19,
        args.len() > 0,
        text::number_upto(args[0], usize::MAX as nat) == Some(n as nat),
    ensures
        ({
            let size = game.board.size as usize;
            let after = after_command(game, "fixed_handicap"@, args);
            let points = coords::handicap_layout(size, n);
            if 2 <= n <= 9 && size >= 7 && (n <= 4 || size % 2 == 1) {
                &&& after.board == gtp::handicap_board(game.board.size, points)
                &&& after.history.len() == 0
                &&& answer_of(game, "fixed_handicap"@, args) == ActionState::Answer(
                    text::join(gtp::handicap_names(points), " "@),
                )
                &&& gtp::handicap_names(points).len() == n
                &&& forall|i: int|
                    0 <= i < n ==> coords::named_move(
                        game.board.size,
                        #[trigger] gtp::handicap_names(points)[i],
                    ) == Some(
                        Move::Play(
                            rules::point_at(points[i].0 as int, points[i].1 as int) as Point,
                        ),
                    )
            } else {
                after == game && answer_of(game, "fixed_handicap"@, args) is Failure
            }
        }),
{
    lemma_names();
    let size = game.board.size as usize;
    if coords::handicap_error(size, n) is None {
        let points = coords::handicap_layout(size, n);
        coords::law_handicap_points_are_star_points(size, n, 0, 1);
        coords::lemma_handicap_inside(size, n);
        lemma_points_are_named(game.board.size, points);
    }
}

/// A command may have a number before its name, which is echoed and otherwise changes
/// nothing: the name and the arguments are the words that follow.
pub proof fn law_commands_may_be_numbered(line: Seq<char>)
    requires
        gtp::line_words(line).len() > 0,
    ensures
        ({
            let w = gtp::line_words(line);
            let numbered = text::number(w[0]) matches Some(n) && n <= u32::MAX;
            &&& numbered ==> gtp::line_id(line) == text::number(w[0])
            &&& numbered && w.len() > 1 ==> gtp::line_name(line) == w[1] && gtp::line_args(line)
                == w.skip(2)
            &&& !numbered ==> gtp::line_id(line) is None && gtp::line_name(line) == w[0]
                && gtp::line_args(line) == w.skip(1)
        }),
{
}

proof fn lemma_first_part(a: Seq<char>, rest: Seq<char>)
    requires
        forall|i: int| 0 <= i < a.len() ==> #[trigger] a[i] != '#',
    ensures
        text::split(a.push('#') + rest, '#').len() >= 2,
        text::split(a.push('#') + rest, '#')[0] == a,
    decreases rest.len(),
{
    let whole = a.push('#') + rest;
    if rest.len() == 0 {
        assert(whole =~= a.push('#'));
        assert(whole.drop_last() =~= a);
        lemma_one_part(a);
    } else {
        let less = rest.drop_last();
        assert(whole.drop_last() =~= a.push('#') + less);
        assert(whole.last() == rest.last());
        lemma_first_part(a, less);
    }
}

proof fn lemma_one_part(a: Seq<char>)
    requires
        forall|i: int| 0 <= i < a.len() ==> #[trigger] a[i] != '#',
    ensures
        text::split(a, '#') == seq![a],
    decreases a.len(),
{
    if a.len() > 0 {
        let less = a.drop_last();
        assert forall|i: int| 0 <= i < less.len() implies #[trigger] less[i] != '#' by {
            assert(less[i] == a[i]);
        }
        lemma_one_part(less);
        assert(a[a.len() - 1] != '#');
        assert(less.push(a.last()) =~= a);
        assert(text::split(a, '#') =~= seq![a]);
    } else {
        assert(a =~= Seq::<char>::empty());
        assert(text::split(a, '#') =~= seq![a]);
    }
}

/// What follows a `#` on a line is a comment, and changes nothing.
pub proof fn law_comments_change_nothing(line: Seq<char>, comment: Seq<char>)
    requires
        forall|i: int| 0 <= i < line.len() ==> #[trigger] line[i] != '#',
    ensures
        gtp::line_words(line.push('#') + comment) == gtp::line_words(line),
        gtp::line_id(line.push('#') + comment) == gtp::line_id(line),
        gtp::line_name(line.push('#') + comment) == gtp::line_name(line),
        gtp::line_args(line.push('#') + comment) == gtp::line_args(line),
{
    lemma_first_part(line, comment);
    lemma_one_part(line);
}

} // verus!
