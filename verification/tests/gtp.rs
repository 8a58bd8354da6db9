//! The text protocol: commands in, answers out.

use gobot::board::{Board, Color, Illegal, Move};
use gobot::coords::{diagram, parse_move};
use gobot::game::{Game, Rejected};
use gobot::gtp::{
    answer_genmove, execute, illegal_text, parse_colour, push_rejected, read_command,
    response_text, Action,
};

fn run(game: &mut Game<f32>, line: &str) -> Action {
    match read_command(line) {
        Some(command) => execute(game, &command, "1.2.3"),
        None => panic!("`{line}` holds no command"),
    }
}

fn yes(game: &mut Game<f32>, line: &str) -> String {
    match run(game, line) {
        Action::Answer(body) => body,
        Action::Failure(why) => panic!("`{line}`: {why}"),
        _ => panic!("`{line}` has no answer of its own"),
    }
}

fn no(game: &mut Game<f32>, line: &str) -> String {
    match run(game, line) {
        Action::Failure(why) => why,
        _ => panic!("`{line}` should fail"),
    }
}

#[test]
fn a_line_is_an_id_a_command_and_arguments() {
    let c = read_command("  12 play b e5 # a comment").expect("a command");
    assert_eq!(c.id, Some(12));
    assert_eq!(c.name, "play".chars().collect::<Vec<char>>());
    assert_eq!(c.args.len(), 2);
    assert_eq!(c.args[1], vec!['e', '5']);
    let c = read_command("name").expect("a command");
    assert_eq!(c.id, None);
    assert!(c.args.is_empty());
    let c = read_command("7").expect("an id alone");
    assert_eq!(c.id, Some(7));
    assert!(c.name.is_empty());
    assert!(read_command("").is_none());
    assert!(read_command("  # only a comment").is_none());
}

#[test]
fn an_answer_is_framed_and_numbered() {
    assert_eq!(response_text(None, true, "gobot"), "= gobot\n\n");
    assert_eq!(response_text(Some(3), true, ""), "=3 \n\n");
    assert_eq!(response_text(Some(3), false, "no"), "?3 no\n\n");
    assert_eq!(response_text(None, false, "no"), "? no\n\n");
}

#[test]
fn it_says_what_it_is() {
    let mut g = Game::new(9, 7.5);
    assert_eq!(yes(&mut g, "protocol_version"), "2");
    assert_eq!(yes(&mut g, "name"), "gobot");
    assert_eq!(yes(&mut g, "version"), "1.2.3");
    assert_eq!(yes(&mut g, "known_command genmove"), "true");
    assert_eq!(yes(&mut g, "known_command dance"), "false");
    let list = yes(&mut g, "list_commands");
    assert_eq!(list.lines().count(), 16);
    assert!(list.starts_with("protocol_version\nname\n"));
    assert_eq!(yes(&mut g, "time_settings 1 2 3"), "");
    assert_eq!(no(&mut g, "dance"), "unknown command: dance");
    assert!(matches!(run(&mut g, "quit"), Action::Quit));
    assert!(matches!(run(&mut g, "final_score"), Action::FinalScore));
}

#[test]
fn a_game_is_played_by_commands() {
    let mut g = Game::new(9, 7.5);
    assert_eq!(yes(&mut g, "boardsize 5"), "");
    assert_eq!(g.board().size(), 5);
    assert_eq!(no(&mut g, "boardsize 20"), "unacceptable size");
    assert_eq!(no(&mut g, "boardsize"), "unacceptable size");
    assert_eq!(yes(&mut g, "play black c3"), "");
    assert_eq!(no(&mut g, "play w c3"), "illegal move: Rules(NotEmpty)");
    assert_eq!(no(&mut g, "play w"), "syntax error");
    assert_eq!(no(&mut g, "play red c3"), "invalid colour");
    assert_eq!(no(&mut g, "play w q9"), "invalid coordinate");
    assert_eq!(
        yes(&mut g, "showboard"),
        format!("\n{}", diagram(g.board(), &[]))
    );
    assert_eq!(yes(&mut g, "undo"), "");
    assert_eq!(g.board().hash(), Board::new(5).hash());
    assert_eq!(no(&mut g, "undo"), "cannot undo");
    assert_eq!(yes(&mut g, "play b c3"), "");
    assert_eq!(yes(&mut g, "clear_board"), "");
    assert_eq!(g.board().size(), 5);
    assert_eq!(g.board().stone_count(), 0);
    assert_eq!(g.komi, 7.5, "komi stays");
}

#[test]
fn a_number_is_left_to_whoever_reads_numbers() {
    let mut g = Game::new(9, 7.5);
    match run(&mut g, "komi 6.5") {
        Action::Komi(word) => assert_eq!(word, Some("6.5".to_string())),
        _ => panic!("komi is komi"),
    }
    match run(&mut g, "komi") {
        Action::Komi(word) => assert_eq!(word, None),
        _ => panic!("komi is komi"),
    }
}

#[test]
fn a_handicap_is_reported_as_it_was_placed() {
    let mut g = Game::new(9, 7.5);
    assert_eq!(yes(&mut g, "fixed_handicap 4"), "C3 G7 C7 G3");
    assert_eq!(g.to_move(), Color::White);
    assert_eq!(no(&mut g, "fixed_handicap"), "syntax error");
    assert_eq!(g.board().stone_count(), 4, "a refusal leaves the board alone");
    assert!(!no(&mut g, "fixed_handicap 10").is_empty());
}

#[test]
fn a_move_is_found_for_the_colour_that_was_asked() {
    let mut g = Game::new(9, 7.5);
    match run(&mut g, "genmove w") {
        Action::Genmove(c) => assert_eq!(c, Color::White),
        _ => panic!("a move was asked for"),
    }
    assert_eq!(g.to_move(), Color::White);
    assert_eq!(no(&mut g, "genmove"), "invalid colour");
    let e5 = parse_move(g.board(), "e5").expect("vertex");
    assert_eq!(answer_genmove(&mut g, e5, false), "E5");
    assert_eq!(g.board().stone_count(), 1);
    assert_eq!(answer_genmove(&mut g, Move::Pass, false), "pass");
    assert_eq!(g.board().passes(), 1);
    assert_eq!(answer_genmove(&mut g, e5, true), "resign");
    assert_eq!(g.moves_played(), 2, "resigning is no move");
}

#[test]
fn a_refusal_has_a_name() {
    let mut out = String::new();
    push_rejected(&mut out, Rejected::Superko);
    push_rejected(&mut out, Rejected::Rules(Illegal::Ko));
    assert_eq!(out, "SuperkoRules(Ko)");
    assert_eq!(illegal_text(Illegal::OffBoard), "OffBoard");
    assert_eq!(illegal_text(Illegal::Suicide), "Suicide");
    assert_eq!(parse_colour(&vec!['B']), Some(Color::Black));
    assert_eq!(parse_colour(&"white".chars().collect()), Some(Color::White));
    assert_eq!(parse_colour(&vec!['x']), None);
}

#[test]
fn the_protocol_knows_superko() {
    let mut g = Game::new(9, 7.5);
    for (colour, v) in [
        ("b", "e6"),
        ("b", "d5"),
        ("b", "e4"),
        ("w", "f6"),
        ("w", "e5"),
        ("w", "g5"),
        ("w", "f4"),
        ("b", "f5"),
    ] {
        assert_eq!(yes(&mut g, &format!("play {colour} {v}")), "");
    }
    // Naming the colour clears the ko, and the history still sees the repeat.
    assert_eq!(no(&mut g, "play w e5"), "illegal move: Superko");
}
