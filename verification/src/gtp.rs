//! Go Text Protocol, enough of it to be driven by `gogui-twogtp`.
//!
//! This is here to answer one question the terminal board cannot: is a change to
//! the search actually stronger? Two builds play a few hundred games against
//! each other and the win rate says so.

use vstd::prelude::*;

use crate::board::{Board, Color, Illegal, Move, Point, Position};
use crate::coords;
use crate::game::{Game, GameState, Rejected};
use crate::mcts;
use crate::rules;
use crate::text;

verus! {

/// A command: the number it was given, if any, its name and its arguments.
pub struct Command {
    pub id: Option<u32>,
    pub name: Vec<char>,
    pub args: Vec<Vec<char>>,
}

/// What a command comes to.
pub enum Action {
    /// An answer, in the affirmative.
    Answer(String),
    /// An answer in the negative, with the reason.
    Failure(String),
    /// An empty answer, and the end of the session.
    Quit,
    /// Set komi to the number that the word writes, if there is a word and it
    /// writes a number.
    Komi(Option<String>),
    /// Find a move for the side to move, which is this colour.
    Genmove(Color),
    /// Say what the score is.
    FinalScore,
}

/// What an action says.
pub enum ActionState {
    Answer(Seq<char>),
    Failure(Seq<char>),
    Quit,
    Komi(Option<Seq<char>>),
    Genmove(Color),
    FinalScore,
}

impl View for Action {
    type V = ActionState;

    open spec fn view(&self) -> ActionState {
        match *self {
            Action::Answer(s) => ActionState::Answer(s@),
            Action::Failure(s) => ActionState::Failure(s@),
            Action::Quit => ActionState::Quit,
            Action::Komi(word) => ActionState::Komi(
                match word {
                    Some(w) => Some(w@),
                    None => None,
                },
            ),
            Action::Genmove(c) => ActionState::Genmove(c),
            Action::FinalScore => ActionState::FinalScore,
        }
    }
}

/// The names of the commands that are understood.
pub open spec fn command_names() -> Seq<Seq<char>> {
    seq![
        "protocol_version"@,
        "name"@,
        "version"@,
        "known_command"@,
        "list_commands"@,
        "quit"@,
        "boardsize"@,
        "clear_board"@,
        "komi"@,
        "play"@,
        "genmove"@,
        "showboard"@,
        "final_score"@,
        "time_settings"@,
        "undo"@,
        "fixed_handicap"@,
    ]
}

/// The words of a line, comment aside.
pub open spec fn line_words(line: Seq<char>) -> Seq<Seq<char>> {
    text::words(text::trim(text::split(line, '#')[0]))
}

/// The number at the start of a line, if there is one: echoed back with the answer.
pub open spec fn line_id(line: Seq<char>) -> Option<nat> {
    text::number_upto(line_words(line)[0], u32::MAX as nat)
}

/// The name of the command on a line.
pub open spec fn line_name(line: Seq<char>) -> Seq<char> {
    let w = line_words(line);
    if line_id(line) is None {
        w[0]
    } else if w.len() > 1 {
        w[1]
    } else {
        Seq::empty()
    }
}

/// The arguments of the command on a line.
pub open spec fn line_args(line: Seq<char>) -> Seq<Seq<char>> {
    let w = line_words(line);
    if line_id(line) is None {
        w.skip(1)
    } else if w.len() > 1 {
        w.skip(2)
    } else {
        Seq::empty()
    }
}

/// The colour that a word names.
pub open spec fn colour_named(word: Seq<char>) -> Option<Color> {
    let w = text::lowered(word);
    if w == "b"@ || w == "black"@ {
        Some(Color::Black)
    } else if w == "w"@ || w == "white"@ {
        Some(Color::White)
    } else {
        None
    }
}

/// The name of a reason for refusing a move.
pub open spec fn illegal_name(why: Illegal) -> Seq<char> {
    match why {
        Illegal::NotEmpty => "NotEmpty"@,
        Illegal::Suicide => "Suicide"@,
        Illegal::Ko => "Ko"@,
        Illegal::OffBoard => "OffBoard"@,
    }
}

pub open spec fn rejected_name(why: Rejected) -> Seq<char> {
    match why {
        Rejected::Rules(why) => "Rules("@ + illegal_name(why) + ")"@,
        Rejected::Superko => "Superko"@,
    }
}

/// What `play` with these arguments does to a game, and answers.
pub open spec fn played(game: GameState, args: Seq<Seq<char>>) -> (GameState, ActionState) {
    if args.len() < 2 {
        (game, ActionState::Failure("syntax error"@))
    } else {
        match (colour_named(args[0]), coords::named_move(game.board.size, args[1])) {
            (None, _) => (game, ActionState::Failure("invalid colour"@)),
            (_, None) => (game, ActionState::Failure("invalid coordinate"@)),
            (Some(c), Some(mv)) => {
                let turned = GameState {
                    board: Position { to_move: c, ko: None, ..game.board },
                    ..game
                };
                match turned.outcome(mv) {
                    Ok(next) => (next, ActionState::Answer(Seq::empty())),
                    Err(why) => (
                        turned,
                        ActionState::Failure("illegal move: "@ + rejected_name(why)),
                    ),
                }
            },
        }
    }
}

/// The stones that go on the handicap points.
pub open spec fn handicap_stones(points: Seq<(usize, usize)>) -> Seq<(Point, Color)> {
    points.map_values(
        |p: (usize, usize)| (rules::point_at(p.0 as int, p.1 as int) as Point, Color::Black),
    )
}

/// A board with handicap stones for Black and White to move.
pub open spec fn handicap_board(size: int, points: Seq<(usize, usize)>) -> Position {
    Position {
        to_move: Color::White,
        ko: None,
        ..coords::set_up(Position::empty(size), handicap_stones(points))
    }
}

/// The names of the handicap points.
pub open spec fn handicap_names(points: Seq<(usize, usize)>) -> Seq<Seq<char>> {
    handicap_stones(points).map_values(|s: (Point, Color)| coords::move_name(Move::Play(s.0)))
}

/// What `fixed_handicap` with these arguments does to a game, and answers.
pub open spec fn handicapped(game: GameState, args: Seq<Seq<char>>) -> (GameState, ActionState) {
    let size = game.board.size as usize;
    if args.len() == 0 || text::number_upto(args[0], usize::MAX as nat) is None {
        (game, ActionState::Failure("syntax error"@))
    } else {
        let n = text::number_upto(args[0], usize::MAX as nat)->0 as usize;
        match coords::handicap_error(size, n) {
            Some(why) => (game, ActionState::Failure(why)),
            None => {
                let points = coords::handicap_layout(size, n);
                (
                    GameState::fresh(handicap_board(game.board.size, points)),
                    ActionState::Answer(text::join(handicap_names(points), " "@)),
                )
            },
        }
    }
}

/// What `boardsize` with these arguments does to a game, and answers.
pub open spec fn resized(game: GameState, args: Seq<Seq<char>>) -> (GameState, ActionState) {
    match text::number(args[0]) {
        Some(n) if args.len() > 0 && 2 <= n <= 19 => (
            GameState::fresh(Position::empty(n as int)),
            ActionState::Answer(Seq::empty()),
        ),
        _ => (game, ActionState::Failure("unacceptable size"@)),
    }
}

/// What a command does to a game, and what it comes to.
pub open spec fn executed(
    game: GameState,
    name: Seq<char>,
    args: Seq<Seq<char>>,
    version: Seq<char>,
) -> (GameState, ActionState) {
    if name == "protocol_version"@ {
        (game, ActionState::Answer("2"@))
    } else if name == "name"@ {
        (game, ActionState::Answer("gobot"@))
    } else if name == "version"@ {
        (game, ActionState::Answer(version))
    } else if name == "list_commands"@ {
        (game, ActionState::Answer(text::join(command_names(), "\n"@)))
    } else if name == "known_command"@ {
        (
            game,
            ActionState::Answer(
                if command_names().contains(args[0]) {
                    "true"@
                } else {
                    "false"@
                },
            ),
        )
    } else if name == "quit"@ {
        (game, ActionState::Quit)
    } else if name == "boardsize"@ {
        resized(game, args)
    } else if name == "clear_board"@ {
        (
            GameState::fresh(Position::empty(game.board.size)),
            ActionState::Answer(Seq::empty()),
        )
    } else if name == "komi"@ {
        (
            game,
            ActionState::Komi(
                if args.len() > 0 {
                    Some(args[0])
                } else {
                    None
                },
            ),
        )
    } else if name == "play"@ {
        played(game, args)
    } else if name == "genmove"@ {
        match colour_named(args[0]) {
            Some(c) if args.len() > 0 => (
                GameState { board: Position { to_move: c, ko: None, ..game.board }, ..game },
                ActionState::Genmove(c),
            ),
            _ => (game, ActionState::Failure("invalid colour"@)),
        }
    } else if name == "showboard"@ {
        (
            game,
            ActionState::Answer(
                "\n"@ + text::unlines(coords::diagram_lines(game.board, Seq::empty())),
            ),
        )
    } else if name == "undo"@ {
        if game.history.len() > 0 {
            (game.undone(), ActionState::Answer(Seq::empty()))
        } else {
            (game, ActionState::Failure("cannot undo"@))
        }
    } else if name == "fixed_handicap"@ {
        handicapped(game, args)
    } else if name == "final_score"@ {
        (game, ActionState::FinalScore)
    } else if name == "time_settings"@ {
        (game, ActionState::Answer(Seq::empty()))
    } else {
        (game, ActionState::Failure("unknown command: "@ + name))
    }
}

/// Reads the command on a line, if there is one.
pub fn read_command(line: &str) -> (r: Option<Command>)
    ensures
        r is None <==> line_words(line@).len() == 0,
        r matches Some(c) ==> {
            &&& match c.id {
                Some(n) => line_id(line@) == Some(n as nat),
                None => line_id(line@) is None,
            }
            &&& c.name@ == line_name(line@)
            &&& text::views(c.args@) == line_args(line@)
        },
{
    let parts: Vec<Vec<char>> = text::split_at(&text::chars_of(line), '#');
    proof {
        text::lemma_split_nonempty(line@, '#');
        assert(text::views(parts@)[0] == parts@[0]@);
    }
    let mut words: Vec<Vec<char>> = text::words_of(&text::trimmed(&parts[0]));
    let ghost all = text::views(words@);
    assert(all == line_words(line@));
    if words.len() == 0 {
        return None;
    }
    // An optional leading integer is the command id, echoed back.
    let first: Vec<char> = words.remove(0);
    proof {
        assert(first@ == all[0]);
        assert(text::views(words@) =~= all.skip(1));
    }
    match text::parse_number(&first, u32::MAX as u64) {
        None => Some(Command { id: None, name: first, args: words }),
        Some(n) => {
            let id: Option<u32> = Some(n as u32);
            if words.len() == 0 {
                assert(text::views(words@) =~= Seq::<Seq<char>>::empty());
                return Some(Command { id, name: Vec::new(), args: words });
            }
            let name: Vec<char> = words.remove(0);
            proof {
                assert(name@ == all.skip(1)[0]);
                assert(text::views(words@) =~= all.skip(2));
            }
            Some(Command { id, name, args: words })
        },
    }
}

pub fn parse_colour(word: &Vec<char>) -> (r: Option<Color>)
    ensures
        r == colour_named(word@),
{
    let w: Vec<char> = text::to_lowered(word);
    if text::same(&w, "b") || text::same(&w, "black") {
        Some(Color::Black)
    } else if text::same(&w, "w") || text::same(&w, "white") {
        Some(Color::White)
    } else {
        None
    }
}

pub fn illegal_text(why: Illegal) -> (r: &'static str)
    ensures
        r@ == illegal_name(why),
{
    match why {
        Illegal::NotEmpty => "NotEmpty",
        Illegal::Suicide => "Suicide",
        Illegal::Ko => "Ko",
        Illegal::OffBoard => "OffBoard",
    }
}

/// Puts the name of a reason for refusing a move at the end of a text.
pub fn push_rejected(out: &mut String, why: Rejected)
    ensures
        final(out)@ == old(out)@ + rejected_name(why),
{
    match why {
        Rejected::Rules(why) => {
            out.append("Rules(");
            out.append(illegal_text(why));
            out.append(")");
        },
        Rejected::Superko => {
            out.append("Superko");
        },
    }
    assert(out@ =~= old(out)@ + rejected_name(why));
}

fn list_names() -> (r: Vec<String>)
    ensures
        text::string_views(r@) == command_names(),
{
    let mut out: Vec<String> = Vec::new();
    out.push("protocol_version".to_owned());
    out.push("name".to_owned());
    out.push("version".to_owned());
    out.push("known_command".to_owned());
    out.push("list_commands".to_owned());
    out.push("quit".to_owned());
    out.push("boardsize".to_owned());
    out.push("clear_board".to_owned());
    out.push("komi".to_owned());
    out.push("play".to_owned());
    out.push("genmove".to_owned());
    out.push("showboard".to_owned());
    out.push("final_score".to_owned());
    out.push("time_settings".to_owned());
    out.push("undo".to_owned());
    out.push("fixed_handicap".to_owned());
    assert(text::string_views(out@) =~= command_names());
    out
}

fn is_known(word: &Vec<char>) -> (r: bool)
    ensures
        r == command_names().contains(word@),
{
    let names: Vec<String> = list_names();
    let ghost all = text::string_views(names@);
    let mut i: usize = 0;
    while i < names.len()
        invariant
            i <= names.len(),
            all == text::string_views(names@),
            all == command_names(),
            forall|j: int| 0 <= j < i ==> #[trigger] all[j] != word@,
        decreases names.len() - i,
    {
        assert(all[i as int] == names@[i as int]@);
        if text::same(word, names[i].as_str()) {
            return true;
        }
        i += 1;
    }
    false
}

fn empty_answer() -> (r: Action)
    ensures
        r@ == ActionState::Answer(Seq::empty()),
{
    let out: String = String::new();
    assert(out@ =~= Seq::<char>::empty());
    Action::Answer(out)
}

fn play_command<K>(game: &mut Game<K>, args: &Vec<Vec<char>>) -> (r: Action)
    requires
        old(game)@.wf(),
        old(game)@.board.roomy(),
    ensures
        (final(game)@, r@) == played(old(game)@, text::views(args@)),
        final(game)@.wf(),
        final(game).agreed_komi() == old(game).agreed_komi(),
{
    let ghost views = text::views(args@);
    if args.len() < 2 {
        return Action::Failure("syntax error".to_owned());
    }
    assert(views[0] == args@[0]@ && views[1] == args@[1]@);
    let colour: Color = match parse_colour(&args[0]) {
        Some(c) => c,
        None => {
            return Action::Failure("invalid colour".to_owned());
        },
    };
    let mv: Move = match coords::read_move(game.board(), &args[1]) {
        Some(mv) => mv,
        None => {
            return Action::Failure("invalid coordinate".to_owned());
        },
    };
    game.set_to_move(colour);
    proof {
        coords::lemma_named_move(game@.board.size, views[1]);
        game.lemma_counts();
        mcts::lemma_load(game@.board, mv);
    }
    match game.play(mv) {
        Ok(()) => empty_answer(),
        Err(why) => {
            let mut out: String = "illegal move: ".to_owned();
            push_rejected(&mut out, why);
            Action::Failure(out)
        },
    }
}

/// A board with the conventional handicap stones, and their points.
pub fn set_handicap(size: usize, points: &Vec<(usize, usize)>) -> (r: (Board, Vec<Point>))
    requires
        2 <= size <= 19,
        forall|i: int|
            0 <= i < points@.len() ==> (#[trigger] points@[i]).0 < size && points@[i].1 < size,
    ensures
        (r.0)@ == handicap_board(size as int, points@),
        (r.0)@.wf(),
        (r.1)@ == handicap_stones(points@).map_values(|s: (Point, Color)| s.0),
        forall|i: int|
            0 <= i < (r.1)@.len() ==> rules::on_board(size as int, #[trigger] (r.1)@[i] as int),
{
    let mut stones: Vec<(Point, Color)> = Vec::new();
    let mut at: Vec<Point> = Vec::new();
    let mut i: usize = 0;
    while i < points.len()
        invariant
            i <= points.len(),
            2 <= size <= 19,
            forall|i: int|
                0 <= i < points@.len() ==> (#[trigger] points@[i]).0 < size && points@[i].1 < size,
            stones@ =~= handicap_stones(points@).take(i as int),
            at@ =~= handicap_stones(points@).map_values(|s: (Point, Color)| s.0).take(i as int),
            forall|j: int|
                0 <= j < stones@.len() ==> rules::on_board(
                    size as int,
                    (#[trigger] stones@[j]).0 as int,
                ),
            forall|j: int| 0 <= j < at@.len() ==> rules::on_board(size as int, #[trigger] at@[j] as int),
        decreases points.len() - i,
    {
        let (x, y) = points[i];
        proof {
            assert(points@[i as int].0 < size && points@[i as int].1 < size);
            crate::laws::law_points_and_coordinates_are_inverse(size as int, 0, x as int, y as int);
        }
        let pt: Point = ((y + 1) * 21 + (x + 1)) as Point;
        stones.push((pt, Color::Black));
        at.push(pt);
        i += 1;
    }
    assert(stones@ =~= handicap_stones(points@));
    let mut board: Board = Board::new(size);
    coords::place_stones(&mut board, &stones);
    board.set_to_move(Color::White);
    (board, at)
}

/// Lays out the conventional handicap stones and reports where they went. The
/// caller is told rather than assumed to agree, which is what keeps two engines
/// on the same board.
fn fixed_handicap<K>(game: &mut Game<K>, args: &Vec<Vec<char>>) -> (r: Action)
    requires
        old(game)@.wf(),
    ensures
        (final(game)@, r@) == handicapped(old(game)@, text::views(args@)),
        final(game)@.wf(),
        final(game).agreed_komi() == old(game).agreed_komi(),
{
    let ghost views = text::views(args@);
    if args.len() == 0 {
        return Action::Failure("syntax error".to_owned());
    }
    assert(views[0] == args@[0]@);
    let n: usize = match text::parse_number(&args[0], usize::MAX as u64) {
        Some(n) => n as usize,
        None => {
            return Action::Failure("syntax error".to_owned());
        },
    };
    let size: usize = game.board().size();
    match coords::handicap_points(size, n) {
        Err(why) => Action::Failure(why),
        Ok(points) => {
            proof {
                coords::lemma_handicap_inside(size, n);
            }
            let (board, at) = set_handicap(size, &points);
            let mut names: Vec<String> = Vec::new();
            let mut i: usize = 0;
            let ghost all = handicap_names(points@);
            while i < at.len()
                invariant
                    i <= at.len(),
                    2 <= size <= 19,
                    all == handicap_names(points@),
                    at@ == handicap_stones(points@).map_values(|s: (Point, Color)| s.0),
                    forall|i: int|
                        0 <= i < at@.len() ==> rules::on_board(
                            size as int,
                            #[trigger] at@[i] as int,
                        ),
                    text::string_views(names@) == all.take(i as int),
                decreases at.len() - i,
            {
                let ghost before = text::string_views(names@);
                assert(rules::on_board(size as int, at@[i as int] as int));
                let name: String = coords::format_move(&board, Move::Play(at[i]));
                let ghost shown = name@;
                names.push(name);
                proof {
                    assert(shown == all[i as int]);
                    assert(text::string_views(names@) =~= before.push(shown));
                    assert(all.take(i + 1) =~= before.push(shown));
                }
                i += 1;
            }
            assert(all.take(i as int) =~= all);
            game.restart(board);
            Action::Answer(text::joined(&names, " "))
        },
    }
}

/// Carries a command out, as far as the game itself goes.
pub fn execute<K>(game: &mut Game<K>, command: &Command, version: &str) -> (r: Action)
    requires
        old(game)@.wf(),
        old(game)@.board.roomy(),
        command.name@ == "known_command"@ ==> command.args@.len() > 0,
    ensures
        (final(game)@, r@) == executed(
            old(game)@,
            command.name@,
            text::views(command.args@),
            version@,
        ),
        final(game)@.wf(),
        final(game).agreed_komi() == old(game).agreed_komi(),
{
    let name: &Vec<char> = &command.name;
    let args: &Vec<Vec<char>> = &command.args;
    let ghost views = text::views(args@);
    if text::same(name, "protocol_version") {
        return Action::Answer("2".to_owned());
    }
    if text::same(name, "name") {
        return Action::Answer("gobot".to_owned());
    }
    if text::same(name, "version") {
        return Action::Answer(version.to_owned());
    }
    if text::same(name, "list_commands") {
        return Action::Answer(text::joined(&list_names(), "\n"));
    }
    if text::same(name, "known_command") {
        assert(views[0] == args@[0]@);
        return if is_known(&args[0]) {
            Action::Answer("true".to_owned())
        } else {
            Action::Answer("false".to_owned())
        };
    }
    if text::same(name, "quit") {
        return Action::Quit;
    }
    if text::same(name, "boardsize") {
        if args.len() > 0 {
            assert(views[0] == args@[0]@);
            if let Some(n) = text::parse_number(&args[0], 19) {
                if n >= 2 {
                    proof {
                        crate::rebuild::lemma_empty_board(n as int);
                    }
                    game.restart(Board::new(n as usize));
                    return empty_answer();
                }
            }
        }
        return Action::Failure("unacceptable size".to_owned());
    }
    if text::same(name, "clear_board") {
        let n: usize = game.board().size();
        game.restart(Board::new(n));
        return empty_answer();
    }
    if text::same(name, "komi") {
        return if args.len() > 0 {
            assert(views[0] == args@[0]@);
            Action::Komi(Some(text::text_of(&args[0])))
        } else {
            Action::Komi(None)
        };
    }
    if text::same(name, "play") {
        return play_command(game, args);
    }
    if text::same(name, "genmove") {
        if args.len() > 0 {
            assert(views[0] == args@[0]@);
            if let Some(c) = parse_colour(&args[0]) {
                game.set_to_move(c);
                return Action::Genmove(c);
            }
        }
        return Action::Failure("invalid colour".to_owned());
    }
    if text::same(name, "showboard") {
        let mut out: String = "\n".to_owned();
        let none: [Point; 0] = [];
        out.append(coords::diagram(game.board(), &none).as_str());
        assert(none@ =~= Seq::<Point>::empty());
        return Action::Answer(out);
    }
    if text::same(name, "undo") {
        return if game.undo() {
            empty_answer()
        } else {
            Action::Failure("cannot undo".to_owned())
        };
    }
    if text::same(name, "fixed_handicap") {
        return fixed_handicap(game, args);
    }
    if text::same(name, "final_score") {
        return Action::FinalScore;
    }
    if text::same(name, "time_settings") {
        return empty_answer();
    }
    let mut out: String = "unknown command: ".to_owned();
    text::push_chars(&mut out, name);
    Action::Failure(out)
}

/// What `genmove` answers once a move has been found: the move is made, or not
/// where the side to move would rather resign.
pub open spec fn generated(game: GameState, best: Move, resign: bool) -> (GameState, Seq<char>) {
    let mv = if resign {
        Move::Resign
    } else {
        best
    };
    let next = if mv is Resign {
        game
    } else {
        match game.outcome(mv) {
            Ok(next) => next,
            Err(_) => game,
        }
    };
    (next, coords::move_name(mv))
}

/// Makes the move that was found, or resigns, and says which.
pub fn answer_genmove<K>(game: &mut Game<K>, best: Move, resign: bool) -> (r: String)
    requires
        old(game)@.wf(),
        old(game)@.board.roomy(),
        best matches Move::Play(pt) ==> old(game)@.board.on_board(pt as int),
    ensures
        (final(game)@, r@) == generated(old(game)@, best, resign),
        final(game)@.wf(),
        final(game).agreed_komi() == old(game).agreed_komi(),
{
    let mv: Move = if resign {
        Move::Resign
    } else {
        best
    };
    match mv {
        Move::Resign => {},
        _ => {
            proof {
                game.lemma_counts();
                mcts::lemma_load(game@.board, mv);
            }
            let _ = game.play(mv);
        },
    }
    coords::format_move(game.board(), mv)
}

/// A response as it goes over the wire.
pub open spec fn response(id: Option<u32>, ok: bool, body: Seq<char>) -> Seq<char> {
    let sign = if ok {
        seq!['=']
    } else {
        seq!['?']
    };
    let number = match id {
        Some(n) => text::decimal(n as nat),
        None => Seq::empty(),
    };
    sign + number + " "@ + body + "\n\n"@
}

pub fn response_text(id: Option<u32>, ok: bool, body: &str) -> (r: String)
    ensures
        r@ == response(id, ok, body@),
{
    let mut out: String = String::new();
    if ok {
        out.push('=');
    } else {
        out.push('?');
    }
    if let Some(n) = id {
        text::push_number(&mut out, n as u64);
    }
    out.append(" ");
    out.append(body);
    out.append("\n\n");
    assert(out@ =~= response(id, ok, body@));
    out
}

} // verus!
