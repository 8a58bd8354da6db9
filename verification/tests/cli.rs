//! The command line and the terminal board.

use gobot::board::{Board, Color, Illegal, Move};
use gobot::cli::{
    advice_text, enter, hint_text, marks_for, parse_args, parse_colour, place_handicap,
    prompt_text, reason_text, report_dropped, set_up, show, size_error, table_text, thousands,
    Action, DiagramReader, Options, Setting,
};
use gobot::coords::diagram;
use gobot::game::Game;
use gobot::web::Shown;

fn args(line: &str) -> Vec<String> {
    line.split_whitespace().map(str::to_string).collect()
}

fn wrong(line: &str) -> String {
    match parse_args(&args(line)).1 {
        Some(why) => why,
        None => panic!("`{line}` should be refused"),
    }
}

fn options(line: &str) -> Options {
    let (settings, why) = parse_args(&args(line));
    assert_eq!(why, None, "`{line}`");
    Options::gather(settings)
}

fn said(game: &mut Game<f32>, line: &str) -> String {
    match enter(game, line) {
        (Action::Say(text), _) => text,
        _ => panic!("`{line}` should say something"),
    }
}

#[test]
fn nothing_said_is_the_standard_game() {
    let o = options("");
    assert_eq!(o.size, 9);
    assert_eq!(o.mode, "play");
    assert_eq!(o.me, Color::Black);
    assert_eq!(o.komi, None);
    assert_eq!(o.time, Some("3".to_string()));
    assert_eq!(o.playouts, None);
    assert_eq!(o.threads, None);
    assert_eq!(o.port, 8080);
    assert_eq!(o.bind, "127.0.0.1");
    assert_eq!(o.games, 20);
    assert_eq!(o.handicap, 0);
    assert!(!o.verbose);
    assert_eq!(o.diagram, None);
    assert_eq!(o.against, None);
    assert_eq!(o.engine, None);
}

#[test]
fn every_option_is_understood() {
    let o = options(
        "match --size 13 --komi 0.5 --threads 2 --me white --diagram a.txt --against gnugo \
         --engine katago --port 99 --bind 0.0.0.0 --games 7 --verbose --handicap 3",
    );
    assert_eq!(o.mode, "match");
    assert_eq!(o.size, 13);
    assert_eq!(o.komi, Some("0.5".to_string()));
    assert_eq!(o.threads, Some(2));
    assert_eq!(o.me, Color::White);
    assert_eq!(o.diagram, Some("a.txt".to_string()));
    assert_eq!(o.against, Some("gnugo".to_string()));
    assert_eq!(o.engine, Some("katago".to_string()));
    assert_eq!(o.port, 99);
    assert_eq!(o.bind, "0.0.0.0");
    assert_eq!(o.games, 7);
    assert!(o.verbose);
    assert_eq!(o.handicap, 3);
    assert_eq!(options("-h").mode, "help");
    assert_eq!(options("serve --help").mode, "help");
}

#[test]
fn a_time_and_a_number_of_playouts_override_each_other() {
    let o = options("--playouts 500 --time 2");
    assert_eq!(o.playouts, None);
    assert_eq!(o.time, Some("2".to_string()));
    let o = options("--time 2 --playouts 500");
    assert_eq!(o.playouts, Some(500));
    assert_eq!(o.time, None);
}

#[test]
fn a_bad_argument_is_named() {
    assert_eq!(wrong("--size"), "--size needs a value");
    assert_eq!(wrong("--size nine"), "bad --size");
    assert_eq!(wrong("--port 70000"), "bad --port");
    assert_eq!(wrong("--me red"), "bad --me");
    assert_eq!(wrong("--speed 9"), "unknown option `--speed`");
    assert_eq!(wrong("play gtp"), "unexpected argument `gtp`");
    let (before, why) = parse_args(&args("--verbose --komi x --games many --size 5"));
    assert_eq!(why, Some("bad --games".to_string()));
    assert_eq!(before.len(), 2, "what came before the mistake stands");
    assert!(matches!(&before[1], Setting::Komi(w) if w == "x"));
    assert_eq!(size_error(9), None);
    assert_eq!(size_error(1), Some("--size must be 2..19".to_string()));
    assert_eq!(size_error(20), Some("--size must be 2..19".to_string()));
}

#[test]
fn a_word_names_a_colour() {
    for w in ["b", "Black", "X"] {
        assert_eq!(parse_colour(&w.chars().collect()), Some(Color::Black));
    }
    for w in ["w", "WHITE", "o"] {
        assert_eq!(parse_colour(&w.chars().collect()), Some(Color::White));
    }
    assert_eq!(parse_colour(&vec!['r']), None);
}

#[test]
fn a_line_may_be_a_command() {
    let mut g = Game::new(5, 7.5);
    assert!(matches!(enter(&mut g, "   "), (Action::Nothing, false)));
    assert!(matches!(enter(&mut g, "Quit"), (Action::Leave, false)));
    assert!(matches!(enter(&mut g, "q"), (Action::Leave, _)));
    assert!(matches!(enter(&mut g, "?"), (Action::Help, _)));
    assert!(matches!(enter(&mut g, "score"), (Action::Score, _)));
    assert!(matches!(enter(&mut g, "setup"), (Action::Setup, _)));
    assert!(matches!(enter(&mut g, "me white"), (Action::Me(Color::White), _)));
    assert!(matches!(enter(&mut g, "hint"), (Action::Hint(None), _)));
    match enter(&mut g, "hint 2.5 please").0 {
        Action::Hint(word) => assert_eq!(word, Some("2.5".to_string())),
        _ => panic!("a hint was asked for"),
    }
    match enter(&mut g, "komi x").0 {
        Action::Komi(word) => assert_eq!(word, Some("x".to_string())),
        _ => panic!("komi is komi"),
    }
    match enter(&mut g, "time").0 {
        Action::Time(word) => assert_eq!(word, None),
        _ => panic!("time is time"),
    }
    assert_eq!(said(&mut g, "show"), diagram(g.board(), &[]));
    assert_eq!(said(&mut g, "me"), "me black|white\n");
    assert_eq!(said(&mut g, "turn"), "turn black|white\n");
    assert_eq!(said(&mut g, "turn w"), "white to move\n");
    assert_eq!(g.to_move(), Color::White);
    assert_eq!(
        said(&mut g, "dance"),
        "not a command or a vertex: `dance` (try `help`)\n"
    );
}

#[test]
fn a_line_may_be_a_move() {
    let mut g = Game::new(5, 7.5);
    let (action, makes) = enter(&mut g, "c3");
    match action {
        Action::Say(text) => assert_eq!(text, diagram(g.board(), &[])),
        _ => panic!("the board is shown"),
    }
    assert!(!makes, "a bare vertex calls for no hint");
    assert_eq!(g.to_move(), Color::White);
    let (action, makes) = enter(&mut g, "b c4");
    assert!(matches!(action, Action::Say(_)));
    assert!(makes, "a move by colour does");
    assert_eq!(g.board().stone_count(), 2);
    assert_eq!(g.to_move(), Color::White);
    assert_eq!(
        said(&mut g, "c3"),
        "illegal: there is already a stone there\n"
    );
    assert_eq!(said(&mut g, "b z9"), "b <vertex>\n");
    assert!(matches!(enter(&mut g, "pass"), (Action::Say(_), true)));
    assert_eq!(g.board().passes(), 1);
    assert_eq!(said(&mut g, "u"), diagram(g.board(), &[]));
    assert_eq!(g.board().passes(), 0);
    said(&mut g, "undo");
    said(&mut g, "undo");
    assert_eq!(said(&mut g, "undo"), "nothing to undo\n");
    assert_eq!(g.board().stone_count(), 0);
}

#[test]
fn stones_may_be_added_and_taken_off() {
    let mut g = Game::new(5, 7.5);
    assert_eq!(said(&mut g, "add"), "add b|w <vertex> [<vertex> ...]\n");
    assert_eq!(
        said(&mut g, "add red c3"),
        "add b|w <vertex> [<vertex> ...]\n"
    );
    assert_eq!(said(&mut g, "add w zz"), "not a vertex: `zz`\n");
    let text = said(&mut g, "add w c3 zz d3");
    assert_eq!(
        text,
        format!("not a vertex: `zz`\n{}", diagram(g.board(), &[]))
    );
    assert_eq!(g.board().stone_count(), 2);
    assert_eq!(g.moves_played(), 0, "nobody has moved");
    assert_eq!(g.to_move(), Color::Black);
    assert_eq!(said(&mut g, "del"), "del <vertex>\n");
    said(&mut g, "del c3");
    assert_eq!(g.board().stone_count(), 1);
    assert_eq!(said(&mut g, "undo"), "nothing to undo\n");
}

#[test]
fn a_handicap_clears_the_board() {
    let mut g = Game::new(9, 7.5);
    said(&mut g, "e5");
    let text = said(&mut g, "handicap 2");
    assert!(text.ends_with("2 stones for black; white to move\n"));
    assert_eq!(g.board().stone_count(), 2);
    assert_eq!(g.to_move(), Color::White);
    assert_eq!(said(&mut g, "handicap"), "handicap <2..9>\n");
    assert!(said(&mut g, "handicap 1").starts_with("handicap: "));
    assert!(place_handicap(&mut g, 10).is_err());
    assert!(place_handicap(&mut g, 9).is_ok());
    assert_eq!(g.board().stone_count(), 9);
}

#[test]
fn a_position_is_read_row_by_row() {
    let mut reader = DiagramReader::new();
    reader.feed(3, "O X .");
    assert!(!reader.done);
    reader.feed(3, "X . .");
    reader.feed(3, ". . .");
    assert!(reader.done, "three rows are a board");
    let mut g = Game::new(3, 7.5);
    let text = set_up(&mut g, &reader.text, Color::White);
    assert!(text.starts_with("warning: A3 could not be on the board"));
    assert!(text.ends_with("white to move\n"));
    assert_eq!(g.board().stone_count(), 2);
    assert_eq!(g.to_move(), Color::White);

    let mut reader = DiagramReader::new();
    reader.feed(3, ". . .");
    reader.feed(3, "   ");
    assert!(reader.done, "a blank line ends it");
    assert_eq!(reader.text, ". . .\n");
    let text = set_up(&mut g, &reader.text, Color::Black);
    assert_eq!(
        text,
        "setup: the diagram has 1 rows, but the board is 3x3\n"
    );
    assert_eq!(g.board().stone_count(), 2, "a refusal leaves the game alone");
}

#[test]
fn words_for_reasons() {
    assert_eq!(reason_text(Illegal::Ko), "that is the ko point");
    assert_eq!(
        reason_text(Illegal::Suicide),
        "that stone would have no liberties"
    );
    assert_eq!(reason_text(Illegal::OffBoard), "that is off the board");
    assert_eq!(prompt_text(Color::Black, Color::Black), "black (you) > ");
    assert_eq!(prompt_text(Color::Black, Color::White), "black (them) > ");
    let b = Board::new(9);
    assert_eq!(report_dropped(&b, &vec![]), "");
    assert_eq!(
        report_dropped(&b, &vec![b.point(0, 0), b.point(8, 8)]),
        "warning: A1, J9 could not be on the board — a stone there would have no\n\
         liberties, so it was left off. Check those points against your screen.\n"
    );
}

#[test]
fn numbers_are_written_in_threes() {
    assert_eq!(thousands(0), "0");
    assert_eq!(thousands(999), "999");
    assert_eq!(thousands(1000), "1,000");
    assert_eq!(thousands(1234567), "1,234,567");
    assert_eq!(thousands(u64::MAX), "18,446,744,073,709,551,615");
}

fn sample(b: &Board) -> Vec<Shown> {
    vec![
        Shown {
            mv: Move::Play(b.point(4, 4)),
            winrate: " 51.3".to_string(),
            visits: 12345,
            pv: vec![Move::Play(b.point(4, 4)), Move::Pass],
        },
        Shown {
            mv: Move::Pass,
            winrate: "  0.0".to_string(),
            visits: 0,
            pv: vec![Move::Pass],
        },
    ]
}

#[test]
fn a_hint_is_a_board_and_a_table() {
    let b = Board::new(9);
    let all = sample(&b);
    assert_eq!(
        table_text(&b, &all, true),
        "  -> E5    51.3%     12,345 visits   E5 pass\n"
    );
    assert_eq!(
        table_text(&b, &all, false),
        "  -> E5    51.3%     12,345 visits   E5 pass\n     pass   0.0%          0 visits   pass\n"
    );
    assert_eq!(
        hint_text(&b, 12345, "3.0", 4, &all),
        format!(
            "{}black to play — 12,345 playouts in 3.0s on 4 thread(s)\n{}",
            diagram(&b, &[b.point(4, 4)]),
            table_text(&b, &all, true)
        )
    );
    assert_eq!(
        hint_text(&b, 0, "0.0", 1, &vec![]),
        "no legal move but to pass\n"
    );
}

#[test]
fn advice_without_analysis_is_a_move() {
    let b = Board::new(9);
    assert_eq!(
        advice_text(&b, "someone", Move::Pass, &vec![]),
        format!("{}black to play — someone says pass\n", show(&b))
    );
    assert_eq!(
        advice_text(&b, "someone", Move::Play(b.point(4, 4)), &sample(&b)),
        format!(
            "{}black to play — someone\n{}",
            diagram(&b, &[b.point(4, 4)]),
            table_text(&b, &sample(&b), false)
        )
    );
    assert_eq!(marks_for(Move::Resign), vec![]);
    assert_eq!(marks_for(Move::Play(b.point(0, 0))), vec![b.point(0, 0)]);
}

#[test]
fn superko_is_named_at_the_terminal() {
    let mut g = Game::new(9, 7.5);
    for line in ["add b e6 d5 e4", "add w f6 e5 g5 f4", "b f5"] {
        said(&mut g, line);
    }
    assert_eq!(said(&mut g, "e5"), "illegal: that is the ko point\n");
    assert_eq!(
        said(&mut g, "w e5"),
        "illegal: that repeats an earlier position (superko)\n",
        "naming the colour clears the ko and not the history"
    );
}
