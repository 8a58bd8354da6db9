//! Other engines: what they are sent, and what their answers mean.

use gobot::arena::{
    analysis_advice, choose_analysis, closed_text, colour_text, ended_text, game_text,
    genmove_advice, is_blank, is_info, move_or_pass, move_seed, next_turn, parse_analysis,
    place_reported, play_text, position_commands, read_answer, series_warning, side_in_game,
    Answer, Progress, Reply, Turn,
};
use gobot::board::{Board, Cell, Color, Move};
use gobot::coords::{format_move, parse_diagram, parse_move};
use gobot::game::Game;
use gobot::gtp;

/// A real `kata-analyze` line, captured from KataGo 1.18.2 on a 9x9 board
/// after `play b e5` and `play w d4`. Invented test data would have agreed
/// with whatever the parser happened to do.
const REAL: &str = "info move E4 visits 828 edgeVisits 828 utility -0.49671 winrate 0.26204 scoreMean -0.475789 scoreStdev 8.18152 scoreLead -0.475789 scoreSelfplay -0.898867 prior 0.598353 lcb 0.24497 utilityLcb -0.544504 weight 686.82 order 0 pv E4 D3 D5 F2 G3 F7 E8 G5 G4 E7 E3 E2 F8 G8 info move D5 visits 828 edgeVisits 828 utility -0.49671 winrate 0.26204 scoreMean -0.475789 scoreStdev 8.18152 scoreLead -0.475789 scoreSelfplay -0.898867 prior 0.598353 lcb 0.24497 utilityLcb -0.544504 weight 686.82 isSymmetryOf E4 order 1 pv D5 C4 E4 B6 C7 G6 H5 E7 D7 G5 C5 B5 H6 H7 info move F3 visits 1 edgeVisits 1 utility -0.837767 winrate 0.0959983 scoreMean -0.545739 scoreStdev 5.24073 scoreLead -0.545739 scoreSelfplay -1.71156 prior 0.00405239 lcb -1.154 utilityLcb -4.33777 weight 2.12616 order 2 pv F3 ";

#[test]
fn it_reads_katagos_analysis_line() {
    let board = Board::new(9);
    let got = parse_analysis(&board, REAL);
    assert_eq!(got.len(), 3, "one entry per `info` block");
    let first = &got[0];
    assert_eq!(format_move(&board, first.mv), "E4");
    assert_eq!(first.visits, 828, "`visits`, not `edgeVisits` or `order`");
    let winrate: f64 = match &first.winrate {
        Some(word) => word.parse().unwrap_or(0.0),
        None => 0.0,
    };
    assert!(
        (0.26..0.27).contains(&winrate),
        "winrate should be 0.262, got {}",
        winrate
    );
    assert!(
        first.pv.len() > 3,
        "the principal variation should come through"
    );
    assert_eq!(format_move(&board, first.pv[0]), "E4");
    // The third block is a move the search barely looked at.
    assert_eq!(got[2].visits, 1);
}

#[test]
fn an_analysis_is_sorted_by_visits_and_keeps_ties_in_order() {
    let board = Board::new(9);
    let got = parse_analysis(
        &board,
        "info move A1 visits 3 info move nowhere visits 9 info move B1 visits 7 info move C1 visits 3",
    );
    let names: Vec<String> = got.iter().map(|s| format_move(&board, s.mv)).collect();
    assert_eq!(names, vec!["B1", "A1", "C1"]);
    assert!(got[0].winrate.is_none());
    assert!(got[0].pv.is_empty());
}

#[test]
fn a_line_stops_where_the_rules_stop_it() {
    let board = Board::new(9);
    let got = parse_analysis(&board, "info move A1 visits 1 pv A1 A1 B1");
    assert_eq!(got[0].pv.len(), 1, "A1 cannot be played twice");
    let got = parse_analysis(&board, "info move A1 visits x pv A1 zz B1");
    assert_eq!(got[0].pv.len(), 1, "zz is no vertex");
    assert_eq!(got[0].visits, 0, "x is no number");
    assert!(parse_analysis(&board, "= nothing here").is_empty());
}

#[test]
fn advice_comes_from_the_last_line() {
    let board = Board::new(9);
    let advice = analysis_advice(&board, REAL, "KataGo");
    assert_eq!(format_move(&board, advice.best), "E4");
    assert_eq!(advice.source, "KataGo");
    assert_eq!(advice.candidates.len(), 3);
    let advice = analysis_advice(&board, "", "KataGo");
    assert_eq!(advice.best, Move::Pass, "nothing said is nothing offered");
    assert!(advice.candidates.is_empty());
    let advice = match genmove_advice(&board, "D4", "someone") {
        Ok(advice) => advice,
        Err(why) => panic!("{why}"),
    };
    assert_eq!(format_move(&board, advice.best), "D4");
    assert_eq!(advice.source, "someone (genmove only, no analysis)");
    assert!(advice.candidates.is_empty());
    match genmove_advice(&board, "Z99", "someone") {
        Ok(_) => panic!("there is no such point"),
        Err(why) => assert_eq!(why, "`someone` answered `Z99`"),
    }
}

#[test]
fn a_reply_is_read_up_to_a_blank_line() {
    let mut reply = Reply::new();
    assert!(matches!(reply.feed("name", "noise before\n"), Progress::More));
    assert!(matches!(reply.feed("name", "=12 GNU Go\n"), Progress::More));
    assert!(matches!(reply.feed("name", "second line \n"), Progress::More));
    match reply.feed("name", "\n") {
        Progress::Done(body) => assert_eq!(body, "GNU Go\nsecond line"),
        _ => panic!("the reply is complete"),
    }
    let mut reply = Reply::new();
    match reply.feed("play b z9", "? illegal move\n") {
        Progress::Refused(why) => assert_eq!(why, "`play b z9` refused: illegal move"),
        _ => panic!("the command was refused"),
    }
    assert_eq!(
        closed_text("GNU Go", "name"),
        "`GNU Go` closed while answering `name`"
    );
}

#[test]
fn a_position_is_sent_stone_by_stone() {
    let b = match parse_diagram(". . O\n. X .\nX . .\n", 3) {
        Ok(b) => b,
        Err(why) => panic!("{why}"),
    };
    assert_eq!(
        position_commands(&b, "6.5"),
        vec![
            "boardsize 3",
            "clear_board",
            "komi 6.5",
            "play b A1",
            "play b B2",
            "play w C3"
        ]
    );
    assert_eq!(play_text(&b, Color::White, Move::Pass), "play w pass");
    assert_eq!(colour_text(Color::Black), "b");
}

#[test]
fn the_lines_sent_rebuild_the_position_at_the_other_end() {
    let b = match parse_diagram(". X O .\nX O O .\n. X O .\n. . . .\n", 4) {
        Ok(b) => b,
        Err(why) => panic!("{why}"),
    };
    let mut other = Game::new(9, 7.5);
    for line in position_commands(&b, "0.5") {
        let command = match gtp::read_command(&line) {
            Some(command) => command,
            None => panic!("a blank line"),
        };
        match gtp::execute(&mut other, &command, "0") {
            gtp::Action::Answer(body) => assert_eq!(body, ""),
            gtp::Action::Komi(word) => assert_eq!(word, Some("0.5".to_string())),
            _ => panic!("`{line}` was not understood"),
        }
    }
    assert_eq!(other.board().size(), 4);
    assert_eq!(other.board().hash(), b.hash());
}

#[test]
fn the_better_analysis_is_asked_for() {
    assert_eq!(
        choose_analysis("play\nlz-analyze\n kata-analyze \n"),
        Some("kata-analyze")
    );
    assert_eq!(choose_analysis("lz-analyze"), Some("lz-analyze"));
    assert_eq!(choose_analysis("play\ngenmove"), None);
    assert_eq!(choose_analysis("my-kata-analyze"), None);
    assert!(is_info("info move A1"));
    assert!(!is_info("information"));
    assert!(is_blank("\n"));
    assert!(!is_blank("= \n"));
}

#[test]
fn colours_alternate_unless_stones_were_given() {
    assert_eq!(side_in_game(0, 0), Color::Black);
    assert_eq!(side_in_game(0, 1), Color::White);
    assert_eq!(side_in_game(4, 1), Color::Black);
    assert_eq!(move_seed(0x5EED, 0, 0), 0x5EED);
    assert_eq!(move_seed(0x5EED, 1, 2), 0x5EED ^ 0x9E37_79B9 ^ 2);
}

#[test]
fn a_reported_handicap_is_set_up() {
    let mut g = Game::new(9, 0.5);
    assert!(place_reported(&mut g, "C3 G7", 2).is_ok());
    assert_eq!(g.to_move(), Color::White);
    assert_eq!(g.board().stone_count(), 2);
    let mut ours = Game::new(9, 0.5);
    let command = match gtp::read_command("fixed_handicap 2") {
        Some(command) => command,
        None => panic!("a blank line"),
    };
    match gtp::execute(&mut ours, &command, "0") {
        gtp::Action::Answer(body) => assert_eq!(body, "C3 G7"),
        _ => panic!("a handicap is understood"),
    }
    assert_eq!(ours.board().hash(), g.board().hash());

    let mut g = Game::new(9, 0.5);
    match place_reported(&mut g, "C3 pass", 2) {
        Ok(()) => panic!("pass is no vertex"),
        Err(why) => assert_eq!(why, "handicap vertex `pass` makes no sense"),
    }
    match place_reported(&mut g, "C3", 2) {
        Ok(()) => panic!("one stone is not two"),
        Err(why) => assert_eq!(why, "asked for 2 handicap stones and got 1"),
    }
}

#[test]
fn a_game_of_a_series_takes_its_turns() {
    let mut g = Game::new(9, 7.5);
    assert_eq!(next_turn(&g, Color::Black, 0), Turn::Ours);
    assert_eq!(next_turn(&g, Color::White, 0), Turn::Theirs);
    assert_eq!(next_turn(&g, Color::White, 243), Turn::MoveLimit);
    assert!(move_or_pass(&mut g, Move::Pass));
    assert!(move_or_pass(&mut g, Move::Pass));
    assert_eq!(next_turn(&g, Color::Black, 2), Turn::BothPassed);
    assert_eq!(ended_text(Turn::BothPassed), "both passed");
    assert_eq!(ended_text(Turn::MoveLimit), "move limit");

    let mut g = Game::new(9, 7.5);
    let e5 = parse_move(g.board(), "e5").expect("vertex");
    assert!(move_or_pass(&mut g, e5));
    assert!(!move_or_pass(&mut g, e5), "the point is taken");
    assert_eq!(g.board().passes(), 1, "so it was a pass instead");
    assert_eq!(g.to_move(), Color::Black);
}

#[test]
fn an_opponents_answer_is_a_move_or_the_end() {
    let b = Board::new(9);
    assert!(matches!(read_answer(&b, "Resign", "it"), Answer::Resigned));
    match read_answer(&b, "e5", "it") {
        Answer::Played(mv) => assert_eq!(format_move(&b, mv), "E5"),
        _ => panic!("e5 is a vertex"),
    }
    match read_answer(&b, "i5", "it") {
        Answer::Nonsense(why) => assert_eq!(why, "`it` answered `i5`"),
        _ => panic!("there is no column i"),
    }
}

#[test]
fn the_outcome_of_a_game_is_printed_in_columns() {
    assert_eq!(
        game_text(0, Color::Black, true, "both passed", 61, 1),
        "  game   1: gobot black WIN   (both passed, 61 moves)  — running 1/1\n"
    );
    assert_eq!(
        game_text(1233, Color::White, false, "gobot resigned", 7, 9),
        "  game 1234: gobot white loss  (gobot resigned, 7 moves)  — running 9/1234\n"
    );
    assert_eq!(
        series_warning(20),
        Some("At 20 games that interval is too wide to rank anything. Run more.\n".to_string())
    );
    assert_eq!(series_warning(100), None);
}

#[test]
fn a_taken_stone_is_a_prisoner() {
    // The game that a series plays is the game of the rules.
    let mut g = Game::new(9, 7.5);
    for v in ["a1", "a2", "e5", "b1"] {
        let mv = parse_move(g.board(), v).expect("vertex");
        assert!(move_or_pass(&mut g, mv));
    }
    assert_eq!(g.board().prisoners(Color::White), 1);
    assert_eq!(g.board().cell(g.board().point(0, 0)), Cell::Empty);
}

#[test]
fn one_end_understands_the_other() {
    let list = "protocol_version\nname\nversion";
    for body in ["", "E5", "C3 G7", list] {
        for id in [None, Some(7)] {
            let text = gtp::response_text(id, true, body);
            let mut reply = Reply::new();
            let mut got = None;
            for line in text.lines() {
                if let Progress::Done(answer) = reply.feed("anything", line) {
                    got = Some(answer);
                }
            }
            assert_eq!(got, Some(body.to_string()));
        }
    }
    let text = gtp::response_text(None, false, "cannot undo");
    let mut reply = Reply::new();
    match reply.feed("undo", text.lines().next().expect("a line")) {
        Progress::Refused(why) => assert_eq!(why, "`undo` refused: cannot undo"),
        _ => panic!("it was a refusal"),
    }
}
