//! What holds of every position, tried on positions that random play reaches.

use std::time::Duration;

use gobot::board::{Board, Cell, Color, Illegal, Move, Point};
use gobot::coords::{
    can_name, collect_stones, column_letter, diagram, format_move, handicap_points,
    missing_stones, parse_diagram, parse_diagram_report, parse_move, place_stones, read_move,
};
use gobot::game::{Game, Rejected};
use gobot::mcts::{default_threads, playout, Params, Rng};
use gobot::search::{per_thread_playouts, should_stop, summarise, thread_seed};
use gobot::text;
use gobot::tree::{Line, Report, RootStat, Tree};

fn at(b: &Board, v: &str) -> Point {
    match parse_move(b, v).expect("vertex") {
        Move::Play(pt) => pt,
        _ => panic!("not a point"),
    }
}

/// The boards of a random game, one after each move.
fn random_boards(size: usize, seed: u64, moves: usize) -> Vec<Board> {
    let mut rng = Rng::new(seed);
    let mut board = Board::new(size);
    let mut out = vec![board];
    for _ in 0..moves {
        let mut all: Vec<Move> = Vec::new();
        board.candidate_moves(board.to_move(), &mut all);
        assert_eq!(all.last(), Some(&Move::Pass), "a pass is always offered");
        let mv = all[rng.below(all.len())];
        assert!(board.play(mv).is_ok(), "a candidate is legal");
        out.push(board);
    }
    out
}

fn everything_breathes(b: &Board) -> bool {
    b.points()
        .into_iter()
        .all(|pt| b.cell(pt) == Cell::Empty || b.chain_liberties(pt, 1) == 1)
}

fn stones(b: &Board) -> u32 {
    b.points()
        .into_iter()
        .filter(|&pt| b.cell(pt) != Cell::Empty)
        .count() as u32
}

#[test]
fn play_leaves_no_chain_without_a_liberty() {
    for seed in 0..6 {
        for b in random_boards(7, seed, 120) {
            assert!(everything_breathes(&b));
            for pt in b.points() {
                let mut less = b;
                less.remove_stone(pt);
                assert!(everything_breathes(&less), "nor does taking one off");
            }
        }
    }
}

#[test]
fn stones_are_on_the_board_or_in_a_bowl() {
    for seed in 0..6 {
        let mut played = 0;
        for b in random_boards(7, seed, 150).iter().skip(1) {
            if let Some(Move::Play(_)) = b.last_move() {
                played += 1;
            }
            assert_eq!(b.stone_count(), stones(b));
            assert_eq!(
                stones(b) + b.prisoners(Color::Black) + b.prisoners(Color::White),
                played
            );
        }
    }
}

#[test]
fn the_hash_is_that_of_the_stones() {
    let mut one = Board::new(9);
    let mut other = Board::new(9);
    for v in ["e5", "d4"] {
        one.setup_stone(at(&one, v), Color::Black);
    }
    for v in ["d4", "e5"] {
        other.setup_stone(at(&other, v), Color::Black);
    }
    other.set_to_move(Color::White);
    assert_eq!(one.hash(), other.hash(), "whoever is to move");
    other.remove_stone(at(&other, "e5"));
    assert_ne!(one.hash(), other.hash());
    other.remove_stone(at(&other, "d4"));
    assert_eq!(other.hash(), Board::new(9).hash());
    assert_eq!(other.hash(), 0);
}

#[test]
fn a_self_atari_is_what_the_play_leaves() {
    for seed in 0..4 {
        for b in random_boards(7, seed, 100) {
            let colour = b.to_move();
            for pt in b.points() {
                if b.cell(pt) != Cell::Empty || !b.is_legal(pt, colour) {
                    continue;
                }
                let mut next = b;
                assert!(next.play(Move::Play(pt)).is_ok());
                let took = next.prisoners(colour) != b.prisoners(colour);
                assert_eq!(
                    b.is_self_atari(pt, colour),
                    !took && next.chain_liberties(pt, 2) < 2
                );
            }
        }
    }
}

#[test]
fn a_legal_move_is_one_with_no_reason_against_it() {
    for b in random_boards(5, 9, 60) {
        for pt in 0..441 {
            if !b.is_on_board(pt) {
                assert_eq!(
                    b.illegal_reason(pt, Color::Black),
                    Some(Illegal::OffBoard)
                );
                continue;
            }
            let reason = b.illegal_reason(pt, b.to_move());
            assert_eq!(
                b.cell(pt) != Cell::Empty,
                reason == Some(Illegal::NotEmpty)
            );
            if b.cell(pt) == Cell::Empty {
                assert_eq!(
                    b.is_legal(pt, b.to_move()),
                    matches!(reason, None | Some(Illegal::Ko)) && b.ko_point() != Some(pt)
                );
            }
        }
    }
}

#[test]
fn points_and_coordinates_are_inverse() {
    for size in 2..=19 {
        let b = Board::new(size);
        let points = b.points();
        assert_eq!(points.len(), size * size);
        for (k, &pt) in points.iter().enumerate() {
            let (x, y) = b.coords(pt);
            assert_eq!(y * size + x, k, "row by row from the bottom");
            assert_eq!(b.point(x, y), pt);
            let mv = Move::Play(pt);
            assert!(can_name(mv));
            assert_eq!(parse_move(&b, &format_move(&b, mv)), Some(mv));
            let lower: Vec<char> = format_move(&b, mv).to_lowercase().chars().collect();
            assert_eq!(read_move(&b, &lower), Some(mv));
        }
        for mv in [Move::Pass, Move::Resign] {
            assert_eq!(parse_move(&b, &format_move(&b, mv)), Some(mv));
        }
    }
    assert!(!can_name(Move::Play(0)));
    assert_eq!(column_letter(7), 'H');
    assert_eq!(column_letter(8), 'J');
    assert_eq!(column_letter(18), 'T');
}

#[test]
fn handicap_stones_are_on_the_board_and_apart() {
    for size in 7..=19 {
        for n in 2..=9 {
            if let Ok(points) = handicap_points(size, n) {
                assert_eq!(points.len(), n);
                for (i, p) in points.iter().enumerate() {
                    assert!(p.0 < size && p.1 < size);
                    assert!(!points[..i].contains(p));
                }
            }
        }
    }
}

#[test]
fn every_board_of_a_game_survives_its_diagram() {
    for seed in 0..4 {
        for b in random_boards(9, seed, 120) {
            let marks = [b.point(4, 4)];
            let (read, dropped) =
                parse_diagram_report(&diagram(&b, &marks), 9).expect("it was just printed");
            assert_eq!(read.hash(), b.hash());
            assert!(dropped.is_empty());
        }
    }
}

#[test]
fn whatever_was_read_survives_its_diagram() {
    for text in [
        ". . .\nX X X\nO O O\n",
        "O X .\nX . .\n. . .\n",
        "X X\nX X\n",
        "X O\nO X\n",
        "O O X\nX X O\nO X O\n",
    ] {
        let size = text.lines().count();
        let (b, _) = parse_diagram_report(text, size).expect("diagram");
        assert!(everything_breathes(&b));
        let (again, dropped) =
            parse_diagram_report(&diagram(&b, &[]), size).expect("it was just printed");
        assert_eq!(b.hash(), again.hash());
        assert!(dropped.is_empty());
    }
}

#[test]
fn a_stone_without_liberties_is_left_off_and_named() {
    // White's corner stone comes last and takes nothing.
    let (b, dropped) = parse_diagram_report(". . .\n. . X\n. X O\n", 3).expect("diagram");
    assert_eq!(b.cell(b.point(2, 0)), Cell::Empty);
    assert_eq!(dropped, vec![b.point(2, 0)]);
    assert_eq!(b.cell(b.point(2, 1)), Cell::Black);
    assert_eq!(b.cell(b.point(1, 0)), Cell::Black);
    // A whole chain goes the same way.
    let (b, dropped) = parse_diagram_report(". . .\nX X X\nO O O\n", 3).expect("diagram");
    assert_eq!(stones(&b), 3);
    assert_eq!(dropped.len(), 3);
    // Read to be scored, it stays as it was drawn.
    let drawn = parse_diagram(". . .\nX X X\nO O O\n", 3).expect("diagram");
    assert_eq!(stones(&drawn), 6);
    let mut settled = drawn;
    settled.settle();
    assert_eq!(settled.hash(), b.hash());
}

#[test]
fn a_stone_is_drawn_with_its_own_letters() {
    let b = parse_diagram("X x #\nb B .\nO o w\n", 3).expect("diagram");
    assert_eq!(stones(&b), 8);
    for text in ["@ . .\n. . .\n. . .\n", "+ - *\n, . .\n. . .\n"] {
        let b = parse_diagram(text, 3).expect("diagram");
        assert_eq!(b.cell(b.point(0, 2)), Cell::Empty, "anything else is empty");
        assert_eq!(b.hash(), 0);
    }
}

#[test]
fn a_diagram_of_the_wrong_shape_says_what_is_wrong() {
    let why = |text: &str, size: usize| match parse_diagram(text, size) {
        Ok(_) => panic!("`{text}` should be refused"),
        Err(why) => why,
    };
    assert_eq!(why("", 3), "no stone rows found in the diagram");
    assert_eq!(why("", 0), "no stone rows found in the diagram");
    assert_eq!(
        why(". . .\n. . .\n", 3),
        "the diagram has 2 rows, but the board is 3x3"
    );
    assert_eq!(
        why(". . .\n. .\n. . .\n", 3),
        "row 2 of the diagram has 2 points, expected 3"
    );
}

#[test]
fn stones_are_collected_in_reading_order() {
    let b = Board::new(2);
    let rows = vec![
        vec![Cell::Empty, Cell::White],
        vec![Cell::Black, Cell::Empty],
    ];
    let all = collect_stones(&rows, 2);
    assert_eq!(
        all,
        vec![(b.point(1, 1), Color::White), (b.point(0, 0), Color::Black)]
    );
    let mut b = Board::new(2);
    place_stones(&mut b, &all);
    assert_eq!(stones(&b), 2);
    assert!(missing_stones(&b, &all).is_empty());
    b.remove_stone(b.point(0, 0));
    assert_eq!(missing_stones(&b, &all), vec![b.point(0, 0)]);
}

#[test]
fn undo_takes_back_a_move_and_a_setup() {
    let mut g = Game::new(9, 7.5);
    let mut hashes = Vec::new();
    let mut rng = Rng::new(3);
    for _ in 0..80 {
        hashes.push((g.board().hash(), g.to_move(), g.board().ko_point()));
        let mut all = Vec::new();
        g.board().candidate_moves(g.to_move(), &mut all);
        let mv = all[rng.below(all.len())];
        if g.play(mv).is_err() {
            assert!(g.play(Move::Pass).is_ok(), "passing is always allowed");
        }
    }
    assert_eq!(g.moves_played(), 80);
    g.setup_stone(g.board().point(0, 0), Color::White);
    assert_eq!(g.moves_played(), 80, "a set-up stone is no move");
    assert!(g.undo());
    assert_eq!(g.moves_played(), 80);
    for was in hashes.into_iter().rev() {
        assert!(g.undo());
        assert_eq!(
            (g.board().hash(), g.to_move(), g.board().ko_point()),
            was
        );
    }
    assert!(!g.undo(), "there is nothing before the start");
}

#[test]
fn no_play_repeats_a_position() {
    let mut g = Game::new(2, 0.5);
    let mut rng = Rng::new(11);
    let mut seen = vec![g.board().hash()];
    for _ in 0..200 {
        let pt = g.board().points()[rng.below(4)];
        match g.play(Move::Play(pt)) {
            Ok(()) => {
                assert!(!seen.contains(&g.board().hash()));
                seen.push(g.board().hash());
            }
            Err(Rejected::Superko) => {}
            Err(Rejected::Rules(_)) => {
                let _ = g.play(Move::Pass);
            }
        }
    }
    assert!(seen.len() > 3);
}

#[test]
fn setting_up_is_no_move_and_no_new_start() {
    let mut g = Game::new(9, 7.5);
    let centre = g.board().point(4, 4);
    g.setup_stone(centre, Color::Black);
    assert_eq!(g.board().cell(centre), Cell::Black);
    assert_eq!(g.to_move(), Color::Black);
    assert_eq!(g.board().last_move(), None);
    assert_eq!(g.moves_played(), 0);
    assert!(g.undo());
    assert_eq!(g.board().hash(), 0);

    // The record of positions outlives a stone that is set up, and one that is taken
    // back: white's retake would bring back where the game stood before black took.
    let mut g = Game::new(9, 7.5);
    for (v, c) in [
        ("e6", Color::Black),
        ("d5", Color::Black),
        ("e4", Color::Black),
        ("f6", Color::White),
        ("e5", Color::White),
        ("g5", Color::White),
        ("f4", Color::White),
    ] {
        g.setup_stone(at(g.board(), v), c);
    }
    let take = Move::Play(at(g.board(), "f5"));
    let retake = Move::Play(at(g.board(), "e5"));
    assert_eq!(g.play(take), Ok(()));
    g.setup_stone(at(g.board(), "a1"), Color::Black);
    assert!(g.undo());
    g.set_to_move(Color::White);
    assert_eq!(g.play(retake), Err(Rejected::Superko));
    assert_eq!(g.moves_played(), 1);
}

#[test]
fn a_resumed_game_knows_its_history() {
    let mut b = Board::new(3);
    b.setup_stone(b.point(1, 1), Color::Black);
    let ahead = b.hash();
    let mut g = Game::resumed(Board::new(3), 0.5, vec![ahead]);
    assert!(g.has_room());
    let centre = Move::Play(g.board().point(1, 1));
    assert_eq!(g.play(centre), Err(Rejected::Superko));
    let mut g = Game::resumed(Board::new(3), 0.5, vec![]);
    assert_eq!(g.play(centre), Ok(()));
    g.restart(Board::new(3));
    assert_eq!(g.moves_played(), 0);
    assert_eq!(g.score(), 0);
}

#[test]
fn a_finished_board_scores_the_same_both_ways() {
    let mut rng = Rng::new(0xF1);
    for komi in [0, 7, -90, 90] {
        let mut b = Board::new(9);
        let mut seq = Vec::new();
        let mut empties = Vec::new();
        let params = Params {
            komi,
            ..Params::standard(1)
        };
        let winner = playout(&mut b, &mut rng, &mut seq, &mut empties, &params);
        assert!(everything_breathes(&b), "a playout keeps to the rules");
        assert_eq!(b.score_area(), b.score_playout());
        assert_eq!(winner == Color::Black, b.score_playout() > komi);
        assert!(!seq.is_empty());
        for pt in empties {
            assert_eq!(b.cell(pt), Cell::Empty);
        }
    }
}

#[test]
fn area_is_stones_and_what_they_enclose() {
    let b = parse_diagram(". X .\nX X O\n. X .\n", 3).expect("diagram");
    // Four black stones and three enclosed corners and sides, a white stone, and
    // two points between the two.
    assert_eq!(b.score_area(), 4 + 2 - 1);
    assert_eq!(Board::new(9).score_area(), 0, "an empty board is nobody's");
}

#[test]
fn the_generator_is_the_one_it_says() {
    // The seed is mixed with the golden ratio, so that this is the generator at zero.
    let mut rng = Rng::new(0x9E37_79B9_7F4A_7C15);
    assert_eq!(rng.next_u64(), 0xE220_A839_7B1D_CDAF);
    assert_eq!(rng.next_u64(), 0x6E78_9E6A_A1B9_65F4);
    let mut rng = Rng::new(42);
    for n in [1, 2, 100, 441] {
        for _ in 0..100 {
            assert!(rng.below(n) < n);
        }
    }
}

#[test]
fn a_search_has_standard_settings() {
    let p = Params::standard(3);
    assert_eq!(p.komi, 7);
    assert_eq!(p.expand_threshold, 16);
    assert_eq!(p.max_nodes, 400_000);
    assert_eq!(p.threads, 3);
    assert_eq!(p.playouts, None);
    assert_eq!(p.atari_answer_percent, 80);
    assert_eq!(p.seed, 0x5EED);
    assert_eq!(default_threads(None), 4);
    assert_eq!(default_threads(Some(2)), 2);
    assert_eq!(default_threads(Some(64)), 8);
}

#[test]
fn playouts_are_shared_out_and_counted() {
    assert_eq!(per_thread_playouts(10, 4), 3);
    assert_eq!(per_thread_playouts(8, 4), 2);
    assert_eq!(per_thread_playouts(0, 4), 0);
    assert_eq!(thread_seed(7, 0), 7);
    assert_eq!(thread_seed(7, 2), 7 ^ 0x1_3C6E_F372);
    assert!(should_stop(5, Some(5), false, false));
    assert!(!should_stop(4, Some(5), true, false));
    assert!(should_stop(4, Some(5), true, true));
    assert!(should_stop(0, None, false, false), "nothing was asked for");
    assert!(!should_stop(0, None, true, false));
}

#[test]
fn a_tree_keeps_its_books() {
    let b = Board::new(5);
    let mut tree = Tree::new(&b, Params::standard(1), 1);
    assert_eq!(tree.node_count(), 1);
    for n in 0..60 {
        assert_eq!(tree.playouts(), n);
        assert!(tree.can_go_on());
        tree.begin();
        assert_eq!(tree.here(), 0);
        while tree.arrive() {
            let i = (n as usize) % tree.edge_count(tree.here());
            if !tree.follow(i) {
                break;
            }
        }
        tree.finish();
    }
    assert_eq!(tree.node_stats(0).0, 60);
    assert_eq!(tree.edge_count(0), 26, "every point and a pass");
    let report = tree.report();
    assert_eq!(report.playouts, 60);
    let total: u64 = report.stats.iter().map(|s| s.visits).sum();
    assert_eq!(total, 60, "every playout went through a move");
    for s in &report.stats {
        assert!(s.wins <= s.visits);
        if let Move::Play(pt) = s.mv {
            assert!(b.is_legal(pt, Color::Black));
        }
    }
    for line in &report.lines {
        assert_eq!(line.pv[0], line.mv);
        assert_eq!(tree.principal_variation(line.mv), line.pv);
    }
    let e = tree.edge(0, 0);
    assert!(e.rave_wins <= e.rave_visits);
    assert!(tree.node_count() <= 61);
}

#[test]
fn trees_are_merged_by_adding_up() {
    let b = Board::new(9);
    let (x, y) = (Move::Play(b.point(0, 0)), Move::Play(b.point(1, 0)));
    let stat = |mv: Move, visits: u64, wins: u64| RootStat { mv, visits, wins };
    let one = Report {
        stats: vec![stat(x, 3, 1), stat(y, 5, 5), stat(Move::Pass, 1, 0)],
        playouts: 9,
        lines: vec![Line {
            mv: x,
            pv: vec![x, y],
        }],
    };
    let other = Report {
        stats: vec![stat(x, 4, 2), stat(y, 2, 0)],
        playouts: 6,
        lines: vec![Line { mv: y, pv: vec![y, x] }],
    };
    let r = summarise(&vec![one, other], Duration::from_secs(2), 2);
    assert_eq!(r.playouts, 15);
    assert_eq!(r.threads, 2);
    assert_eq!(r.elapsed, Duration::from_secs(2));
    let got: Vec<(Move, u64, u64)> = r
        .candidates
        .iter()
        .map(|c| (c.mv, c.visits, c.wins))
        .collect();
    assert_eq!(
        got,
        vec![(x, 7, 3), (y, 7, 5), (Move::Pass, 1, 0)],
        "equals stay in the order in which they came"
    );
    assert_eq!(r.best, x);
    assert_eq!(r.candidates[0].pv, vec![x, y], "from the tree that went deepest");
    assert_eq!(r.candidates[1].pv, vec![y], "which had no line for this one");
    let nothing = summarise(&vec![], Duration::from_secs(0), 1);
    assert_eq!(nothing.best, Move::Pass);
    assert!(nothing.candidates.is_empty());
}

fn chars(s: &str) -> Vec<char> {
    s.chars().collect()
}

#[test]
fn numbers_survive_being_written() {
    for n in [0, 7, 10, 99, 100, 441, 12345, u64::MAX] {
        let s = text::number_text(n);
        assert_eq!(s, n.to_string());
        assert_eq!(text::parse_number(&chars(&s), u64::MAX), Some(n));
    }
    assert_eq!(text::parse_number(&chars("+12"), 100), Some(12));
    assert_eq!(text::parse_number(&chars("0012"), 100), Some(12));
    assert_eq!(text::parse_number(&chars("101"), 100), None);
    assert_eq!(text::parse_number(&chars(""), 100), None);
    assert_eq!(text::parse_number(&chars("+"), 100), None);
    assert_eq!(text::parse_number(&chars("-1"), 100), None);
    assert_eq!(text::parse_number(&chars("1 "), 100), None);
    assert_eq!(
        text::parse_number(&chars("18446744073709551616"), u64::MAX),
        None
    );
}

#[test]
fn text_comes_apart_as_it_was_put_together() {
    for s in ["", "a", "a\n", "a\nb", "a\r\nb\n\n", "\n", "x\ry\n"] {
        let mine: Vec<String> = text::lines_of(&chars(s)).iter().map(text::text_of).collect();
        let std: Vec<&str> = s.lines().collect();
        assert_eq!(mine, std, "{s:?}");
    }
    for s in ["", "  ", "a", " a  b\tc\n", "\u{2003}a\u{a0}b\u{85}"] {
        let mine: Vec<String> = text::words_of(&chars(s)).iter().map(text::text_of).collect();
        let std: Vec<&str> = s.split_whitespace().collect();
        assert_eq!(mine, std, "{s:?}");
        assert_eq!(text::text_of(&text::trimmed(&chars(s))), s.trim());
        assert_eq!(text::text_of(&text::trimmed_start(&chars(s))), s.trim_start());
        assert_eq!(text::text_of(&text::trimmed_end(&chars(s))), s.trim_end());
    }
    for s in ["", "/", "a/b", "/a//b/"] {
        let mine: Vec<String> = text::split_at(&chars(s), '/')
            .iter()
            .map(text::text_of)
            .collect();
        let std: Vec<&str> = s.split('/').collect();
        assert_eq!(mine, std, "{s:?}");
    }
    for s in ["", "info ", "info a info b", "xinfo yinfo"] {
        let mine: Vec<String> = text::split_text(&chars(s), "info ")
            .iter()
            .map(text::text_of)
            .collect();
        let std: Vec<&str> = s.split("info ").collect();
        assert_eq!(mine, std, "{s:?}");
    }
    assert_eq!(
        text::text_of(&text::to_lowered(&chars("AbÇ9"))),
        "AbÇ9".to_ascii_lowercase()
    );
    for c in ['\u{0}', ' ', '\t', '\u{b}', '\u{1c}', '\u{85}', '\u{1680}', '\u{180e}', '\u{200b}', '\u{2028}', '\u{3000}'] {
        assert_eq!(text::is_white_space(c), c.is_whitespace(), "{c:?}");
    }
    let words = vec!["a".to_string(), "b".to_string()];
    assert_eq!(text::joined(&words, ", "), "a, b");
    let mut out = String::from("x");
    text::push_number(&mut out, 12);
    text::push_left(&mut out, "ab", 4);
    text::push_right(&mut out, "c", 3);
    text::push_chars(&mut out, &chars("de"));
    assert_eq!(out, "x12ab    cde");
    assert_eq!(text::text_of(&text::slice(&chars("hello"), 1, 3)), "el");
    assert!(text::same(&chars("ab"), "ab"));
    assert!(text::equal(&chars("ab"), &chars("ab")));
    assert!(!text::equal(&chars("ab"), &chars("ac")));
    assert!(text::starts_with(&chars("abc"), "ab"));
    assert!(!text::starts_with(&chars("a"), "ab"));
    assert_eq!(text::to_lower('Z'), 'z');
}
