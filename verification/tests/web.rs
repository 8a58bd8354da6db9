//! The web board: what the page is answered.

use std::time::Duration;

use gobot::board::{Board, Color, Move};
use gobot::coords::parse_move;
use gobot::game::{Game, Rejected};
use gobot::mcts::{Candidate, Params, SearchResult};
use gobot::search::{per_thread_playouts, should_stop, summarise, thread_seed};
use gobot::tree::Tree;
use gobot::web::{
    addresses, advice_lines, board_line, board_rows, content_length, defaults_text,
    failed_turn, finish_turn, make_move, parse_request, refusal, response_head, route, rows_hash,
    search_lines, start_analysis, start_turn, Route, Shown,
};

/// The edge that the fewest playouts have gone through, won ones ahead of lost ones:
/// enough of a choice to look at every move.
fn select(tree: &Tree, node: usize) -> usize {
    let mut best = 0;
    let mut best_value = f32::NEG_INFINITY;
    for i in 0..tree.edge_count(node) {
        let (visits, wins) = match tree.edge(node, i).child {
            Some(child) => tree.node_stats(child as usize),
            None => (0, 0),
        };
        let value = (wins as f32 + 1.0) / (visits as f32 + 1.0);
        if value > best_value {
            best_value = value;
            best = i;
        }
    }
    best
}

fn search(board: &Board, playouts: u64) -> SearchResult {
    let params = Params {
        playouts: Some(playouts),
        komi: 6,
        ..Params::standard(2)
    };
    let quota = Some(per_thread_playouts(playouts, 2));
    let mut reports = Vec::new();
    for t in 0..2 {
        let mut tree = Tree::new(board, params, thread_seed(params.seed, t));
        while !should_stop(tree.playouts(), quota, false, false) && tree.can_go_on() {
            tree.begin();
            while tree.arrive() {
                let i = select(&tree, tree.here());
                if !tree.follow(i) {
                    break;
                }
            }
            tree.finish();
        }
        reports.push(tree.report());
    }
    summarise(&reports, Duration::from_millis(300), 2)
}

fn shown(c: &Candidate) -> Shown {
    let winrate = if c.visits == 0 {
        0.0
    } else {
        c.wins as f64 / c.visits as f64
    };
    Shown {
        mv: c.mv,
        winrate: format!("{winrate:.4}"),
        visits: c.visits,
        pv: c.pv.clone(),
    }
}

fn analyse(body: &str, playouts: u64) -> String {
    match start_analysis(body, 9) {
        Err(answer) => answer,
        Ok((request, mut out)) => {
            let board = *request.game.board();
            let result = search(&board, playouts);
            let all: Vec<Shown> = result.candidates.iter().map(shown).collect();
            let source = format!(
                "gobot, {} playouts in {:.1}s on {} threads",
                result.playouts,
                result.elapsed.as_secs_f64(),
                result.threads
            );
            out.push_str(&search_lines(&board, &source, &all));
            out
        }
    }
}

fn play(body: &str, playouts: u64) -> String {
    match start_turn(body, 9) {
        Err(answer) => answer,
        Ok(mut request) => {
            let result = search(request.game.board(), playouts);
            let source = format!("gobot, {} playouts", result.playouts);
            finish_turn(&mut request.game, result.best, &source)
        }
    }
}

fn line<'a>(text: &'a str, head: &str) -> Option<&'a str> {
    text.lines().find(|l| l.starts_with(head))
}

fn chars(s: &str) -> Vec<char> {
    s.chars().collect()
}

#[test]
fn the_board_it_sends_back_is_the_one_the_rules_allow() {
    // The page draws whatever comes back, so this is the contract that
    // keeps the two in step. A white stone surrounded on all four sides
    // cannot be there, and the answer has to say so rather than quietly
    // drawing a board nobody asked for.
    let body = "size 9\nkomi 6.5\ntime 0.3\ntomove b\n\
                w 4 4\nb 4 5\nb 4 3\nb 3 4\nb 5 4\n";
    let out = analyse(body, 200);
    let board = line(&out, "board ").expect("a board line");
    let rows: Vec<&str> = board
        .split_whitespace()
        .nth(2)
        .unwrap()
        .split('/')
        .collect();
    assert_eq!(rows.len(), 9);
    // Row 5 counted from the bottom is index 4 from the top.
    assert_eq!(
        rows[4].chars().nth(4),
        Some('.'),
        "the surrounded white stone should be gone: {board}"
    );
    assert_eq!(rows[3].chars().nth(4), Some('b'), "black e6 stays");
    assert!(
        line(&out, "dropped ").is_some_and(|l| l.contains("E5")),
        "and it should be named: {out}"
    );
}

#[test]
fn it_answers_a_plain_position_with_moves() {
    let out = analyse("size 9\ntime 0.3\ntomove b\nb 2 2\n", 2_000);
    assert!(line(&out, "source ").is_some(), "{out}");
    let moves: Vec<&str> = out.lines().filter(|l| l.starts_with("move ")).collect();
    assert!(!moves.is_empty(), "no suggestions came back: {out}");
    for m in &moves {
        let w: Vec<&str> = m.split_whitespace().collect();
        assert!(
            w.len() >= 4,
            "a move line is `move vertex winrate visits pv`: {m}"
        );
        let winrate: f64 = w[2].parse().expect("winrate is a number");
        assert!((0.0..=1.0).contains(&winrate), "{m}");
    }
}

#[test]
fn a_turn_plays_my_move_and_then_answers_it() {
    let out = play("size 9\ntime 0.3\ntomove b\nmove E5\n", 400);
    let board = line(&out, "board ").expect("a board");
    let rows: Vec<&str> = board
        .split_whitespace()
        .nth(2)
        .unwrap()
        .split('/')
        .collect();
    assert_eq!(
        rows[4].chars().nth(4),
        Some('b'),
        "my stone is on E5: {board}"
    );
    let played = line(&out, "played ").expect("the engine answered");
    let answer = played.split_whitespace().nth(1).unwrap();
    assert_ne!(answer, "E5", "it cannot answer on the point I just took");
    let stones: usize = rows
        .iter()
        .map(|r| r.chars().filter(|c| *c != '.').count())
        .sum();
    assert_eq!(stones, 2, "one move each: {board}");
    assert_eq!(
        line(&out, "tomove "),
        Some("tomove b"),
        "and it is my turn again"
    );
}

#[test]
fn a_move_lands_on_its_own_without_waiting_for_the_engine() {
    // The half of a turn that has to be instant: the rules apply it, the
    // capture is resolved, and no search runs.
    let body = "size 9\ntomove b\nw 4 4\nb 4 5\nb 4 3\nb 5 4\nmove D5\n";
    let out = make_move(body, 9);
    let board = line(&out, "board ").expect("a board");
    let rows: Vec<&str> = board
        .split_whitespace()
        .nth(2)
        .unwrap()
        .split('/')
        .collect();
    assert_eq!(
        rows[4].chars().nth(4),
        Some('.'),
        "black surrounded the white stone, so it should be gone: {board}"
    );
    assert_eq!(line(&out, "last "), Some("last D5"));
    assert_eq!(line(&out, "tomove "), Some("tomove w"));
    assert!(
        line(&out, "played ").is_none(),
        "the engine has not moved yet"
    );
}

#[test]
fn a_move_on_its_own_is_still_checked() {
    let out = make_move("size 9\ntomove w\nb 4 4\nmove E5\n", 9);
    assert!(line(&out, "error ").is_some(), "{out}");
    assert!(line(&out, "last ").is_none(), "{out}");
}

#[test]
fn a_turn_refuses_a_move_the_rules_refuse() {
    // E5 is taken, so playing it again is not a turn that can happen.
    let out = play("size 9\ntime 0.3\ntomove w\nb 4 4\nmove E5\n", 2_000);
    assert!(line(&out, "error ").is_some(), "{out}");
    assert!(
        line(&out, "played ").is_none(),
        "and the engine must not move on top of a refused turn: {out}"
    );
}

/// The ko shape, as the page would send it: black e6 d5 e4, white f6 e5
/// g5 f4, with black to play f5 and take the lone white stone.
const KO_STONES: &str = "b 4 5\nb 3 4\nb 4 3\nw 5 5\nw 4 4\nw 6 4\nw 5 3\n";
/// The same position after black has taken, which is what white would be
/// recreating.
const KO_AFTER_TAKE: &str = "b 4 5\nb 3 4\nb 4 3\nb 5 4\nw 5 5\nw 6 4\nw 5 3\n";
const KO_BEFORE: &str =
    "........./........./........./....bw.../...bw.w../....bw.../........./........./.........";

/// White answering the take at E5 — the retake — with whatever `extra`
/// lines the page would have carried about the game so far.
fn white_retakes(extra: &str) -> String {
    make_move(
        &format!("size 9\ntomove w\n{extra}{KO_AFTER_TAKE}move E5\n"),
        9,
    )
}

#[test]
fn a_ko_survives_a_request_that_rebuilds_the_board() {
    // Every request builds the board from stones alone, and a position has
    // no memory of the capture that made it. The ko point therefore has to
    // travel with the request; when it did not, the retake below was legal
    // and the engine would offer it.
    let out = make_move(
        &format!("size 9\ntomove b\n{KO_STONES}move F5\n"),
        9,
    );
    assert_eq!(
        line(&out, "ko "),
        Some("ko E5"),
        "the take leaves a ko: {out}"
    );

    let held = white_retakes("ko E5\n");
    assert_eq!(
        line(&held, "error "),
        Some("error that move is Ko"),
        "white must not take straight back: {held}"
    );

    // Without the ko point the same move is legal, which is what makes the
    // test above about the ko and not about the move.
    let free = white_retakes("");
    assert_eq!(line(&free, "last "), Some("last E5"), "{free}");
}

#[test]
fn the_engine_is_not_offered_the_ko_point_either() {
    let out = analyse(
        &format!("size 9\ntomove w\nko E5\n{KO_AFTER_TAKE}"),
        3_000,
    );
    assert_eq!(line(&out, "ko "), Some("ko E5"), "{out}");
    for l in out.lines().filter(|l| l.starts_with("move ")) {
        assert_ne!(
            l.split_whitespace().nth(1),
            Some("E5"),
            "the search was handed a board that let it suggest the ko point"
        );
    }
}

#[test]
fn superko_refuses_a_position_the_game_has_already_been_in() {
    // Simple ko only looks one move back. The history the request carries
    // is what catches a repeat that arrives by a longer road.
    let repeat = white_retakes(&format!("seen {KO_BEFORE}\n"));
    assert_eq!(
        line(&repeat, "error "),
        Some("error that repeats a position this game has already been in"),
        "{repeat}"
    );

    // A history that does not contain this position leaves the move alone.
    let elsewhere = white_retakes(
        "seen bbbbbbbbb/........./........./........./........./........./........./........./.........\n",
    );
    assert_eq!(line(&elsewhere, "last "), Some("last E5"), "{elsewhere}");
}

#[test]
fn the_engine_passes_rather_than_stall_when_its_move_would_repeat() {
    // The search works a bare board and does not know the history, so it
    // can offer a move superko refuses. Answering "illegal" left the turn
    // with the engine and the game with nowhere to go.
    // Black on every point but the right-hand two. Both plays white has
    // recreate a position the game has already stood in.
    let out = play(
        "size 3\ntomove w\nb 0 0\nb 1 0\nb 2 0\nb 0 1\nb 1 1\nb 0 2\nb 1 2\n\
         seen bbw/bb./bbb\nseen bb./bbw/bbb\n",
        2_000,
    );
    assert_eq!(line(&out, "played "), Some("played pass"), "{out}");
    assert_eq!(
        line(&out, "tomove "),
        Some("tomove b"),
        "the turn has to move on: {out}"
    );
}

#[test]
fn a_board_size_it_cannot_play_is_refused_rather_than_clamped() {
    let out = analyse("size 40\ntomove b\n", 2_000);
    assert!(line(&out, "error ").is_some(), "{out}");
    assert!(
        line(&out, "move ").is_none(),
        "and nothing is suggested: {out}"
    );
}

#[test]
fn a_request_line_names_what_is_wanted() {
    assert_eq!(route("GET / HTTP/1.1\r\n"), Route::Page);
    assert_eq!(route("GET"), Route::Page);
    assert_eq!(route("GET /defaults HTTP/1.1"), Route::Defaults);
    assert_eq!(route("POST /move HTTP/1.1"), Route::Move);
    assert_eq!(route("POST /play HTTP/1.1"), Route::Play);
    assert_eq!(route("POST /analyse HTTP/1.1"), Route::Analyse);
    assert_eq!(route("GET /move HTTP/1.1"), Route::Missing);
    assert_eq!(route("POST / HTTP/1.1"), Route::Missing);
    assert_eq!(route("get / HTTP/1.1"), Route::Missing);
    assert_eq!(route(""), Route::Missing);
}

#[test]
fn the_length_of_a_body_comes_from_its_header() {
    assert_eq!(content_length("Content-Length: 42\r\n"), Some(42));
    assert_eq!(content_length("content-length:7"), Some(7));
    assert_eq!(content_length("Content-Length: many"), Some(0));
    assert_eq!(content_length("CONTENT-LENGTH: 42"), None);
    assert_eq!(content_length("Host: here"), None);
}

#[test]
fn an_answer_has_a_head() {
    assert_eq!(
        response_head("200 OK", "text/plain", 12),
        "HTTP/1.1 200 OK\r\nContent-Type: text/plain\r\nContent-Length: 12\r\n\
         Connection: close\r\nCache-Control: no-store\r\n\r\n"
    );
    assert_eq!(
        defaults_text(9, "6.5", "3.0", false),
        "size 9\nkomi 6.5\ntime 3.0\nengine false\n"
    );
    assert_eq!(
        defaults_text(13, "0", "0.5", true),
        "size 13\nkomi 0\ntime 0.5\nengine true\n"
    );
}

#[test]
fn the_rows_of_a_board_have_its_hash() {
    let mut b = Board::new(3);
    b.setup_stone(b.point(0, 0), Color::Black);
    b.setup_stone(b.point(2, 1), Color::White);
    assert_eq!(board_rows(&b), ".../..w/b..");
    assert_eq!(rows_hash(3, &chars(".../..w/b..")), Some(b.hash()));
    assert_eq!(rows_hash(3, &chars(".../.../...")), Some(0));
    assert_eq!(rows_hash(3, &chars(".../...")), None, "two rows, not three");
    assert_eq!(rows_hash(3, &chars(".../..../...")), None, "a long row");
    assert_eq!(rows_hash(3, &chars(".../.x./...")), None, "no such stone");
}

#[test]
fn the_ko_point_travels_with_the_board() {
    let mut b = Board::new(3);
    assert_eq!(board_line(&b), "board 3 .../.../...\n");
    b.resume(Color::White, Some(b.point(1, 1)));
    assert_eq!(board_line(&b), "board 3 .../.../...\nko B2\n");
}

#[test]
fn a_request_says_what_it_says() {
    let r = parse_request(
        "size 5\nkomi 6.5\nkomi x\ntime 2\ntomove white\nb 1 1\nw 9 9\nb 2\nmove a1\nseen junk\n",
        9,
    );
    let r = match r {
        Ok(r) => r,
        Err(why) => panic!("{why}"),
    };
    assert_eq!(r.game.board().size(), 5);
    assert_eq!(r.game.to_move(), Color::White);
    assert_eq!(r.game.board().stone_count(), 1, "one stone is off the board");
    assert_eq!(r.komi, vec![chars("6.5"), chars("x")]);
    assert_eq!(r.time, vec![chars("2")]);
    assert_eq!(r.move_first, Some(chars("a1")));
    assert!(r.dropped.is_empty());
    let r = match parse_request("size many\ntomove b\n", 7) {
        Ok(r) => r,
        Err(why) => panic!("{why}"),
    };
    assert_eq!(r.game.board().size(), 7, "a size that is no number is not one");
}

#[test]
fn a_refused_request_says_why() {
    assert_eq!(
        make_move("size 40\n", 9),
        "error board size 40 is out of range\n"
    );
    assert_eq!(make_move("size 3\n", 9), "error no move given\n");
    assert_eq!(
        make_move("size 3\nmove z9\n", 9),
        "error `z9` is not a point on this board\n"
    );
    assert_eq!(
        make_move("size 3\nb 1 1\nmove b2\n", 9),
        "board 3 .../.b./...\nerror that move is NotEmpty\n"
    );
    assert_eq!(
        make_move("size 3\ntomove w\nb 1 0\nb 0 1\nmove a1\n", 9),
        "board 3 .../b../.b.\nerror that move is Suicide\n"
    );
    assert_eq!(
        refusal(Rejected::Superko),
        "that repeats a position this game has already been in"
    );
}

#[test]
fn a_move_that_is_made_is_answered_with_the_board() {
    assert_eq!(
        make_move("size 3\nmove b2\n", 9),
        "board 3 .../.b./...\nlast B2\ntomove w\n"
    );
    assert_eq!(
        make_move("size 3\ntomove w\nmove pass\n", 9),
        "board 3 .../.../...\nlast pass\ntomove b\n"
    );
}

#[test]
fn a_full_board_is_full() {
    let mut b = Board::new(2);
    assert!(!b.is_full());
    for pt in b.points() {
        assert!(!b.is_full());
        b.setup_stone(pt, Color::Black);
    }
    assert!(b.is_full());
}

#[test]
fn stones_without_liberties_are_left_off_and_named() {
    // A board full of one colour: no stone on it has a liberty.
    match start_analysis("size 2\nb 0 0\nb 1 0\nb 0 1\nb 1 1\n", 9) {
        Ok((request, out)) => {
            assert_eq!(out, "board 2 ../..\ndropped A1 B1 A2 B2\n");
            assert_eq!(request.game.board().hash(), 0);
            assert!(!request.game.board().is_full());
        }
        Err(answer) => panic!("{answer}"),
    }
    // The corner stone comes last, between two others that it does not take.
    match start_analysis("size 3\nb 2 1\nb 1 0\nw 2 0\n", 9) {
        Ok((_, out)) => assert_eq!(out, "board 3 .../..b/.b.\ndropped C1\n"),
        Err(answer) => panic!("{answer}"),
    }
    // White closes itself in, then Black does, and neither takes the other.
    match start_analysis("size 2\nb 0 1\nb 1 0\nw 0 0\nb 1 1\n", 9) {
        Ok((_, out)) => assert_eq!(out, "board 2 ../..\ndropped A2 B1 A1 B2\n"),
        Err(answer) => panic!("{answer}"),
    }
    // Here Black's last stone takes White's.
    match start_analysis("size 2\nw 0 0\nw 0 1\nb 1 1\nb 1 0\n", 9) {
        Ok((_, out)) => assert_eq!(out, "board 2 .b/.b\ndropped A1 A2\n"),
        Err(answer) => panic!("{answer}"),
    }
}

#[test]
fn the_move_that_comes_with_a_request_never_fills_the_board() {
    // The last point of the board is played on: the move takes what it fills up.
    match start_turn("size 2\nb 0 0\nb 0 1\nb 1 1\ntomove w\nmove b1\n", 9) {
        Ok(request) => {
            assert!(!request.game.board().is_full());
            assert_eq!(board_rows(request.game.board()), "../.w");
        }
        Err(answer) => panic!("{answer}"),
    }
}

#[test]
fn a_turn_ends_with_what_the_engine_did() {
    let mut game = Game::new(3, ());
    let b2 = parse_move(game.board(), "b2").expect("vertex");
    assert_eq!(
        finish_turn(&mut game, b2, "someone"),
        "board 3 .../.b./...\nplayed B2\nlast B2\nsource someone\ntomove w\n"
    );
    assert_eq!(
        finish_turn(&mut game, b2, "someone"),
        "board 3 .../.b./...\nerror the engine offered B2, which is illegal\ntomove w\n"
    );
    assert_eq!(
        failed_turn(&game, "it went away"),
        "board 3 .../.b./...\nerror it went away\ntomove w\n"
    );
}

#[test]
fn advice_is_shown_six_moves_at_most() {
    let b = Board::new(9);
    let all: Vec<Shown> = (0..8)
        .map(|x| Shown {
            mv: Move::Play(b.point(x, 0)),
            winrate: "0.5000".to_string(),
            visits: 7 - x as u64,
            pv: vec![Move::Play(b.point(x, 0)), Move::Pass],
        })
        .collect();
    let out = advice_lines(&b, "an engine", Move::Pass, &all);
    assert_eq!(out.lines().count(), 7);
    assert_eq!(line(&out, "source "), Some("source an engine"));
    assert_eq!(line(&out, "move "), Some("move A1 0.5000 7 A1 pass"));
    assert_eq!(line(&out, "best "), None);
    let out = advice_lines(&b, "an engine", Move::Pass, &vec![]);
    assert_eq!(out, "source an engine\nbest pass\n");
    let some: Vec<Shown> = vec![
        Shown {
            mv: Move::Pass,
            winrate: "0.2500".to_string(),
            visits: 4,
            pv: vec![Move::Pass],
        },
        Shown {
            mv: Move::Resign,
            winrate: "0.0000".to_string(),
            visits: 0,
            pv: vec![],
        },
    ];
    assert_eq!(
        search_lines(&b, "gobot", &some),
        "source gobot\nmove pass 0.2500 4 pass\n",
        "a move nobody looked at is not shown"
    );
}

#[test]
fn addresses_put_the_tailnet_first() {
    let listing = "lo0: flags=8049\n\tinet 127.0.0.1 netmask 0xff000000\n\
                   en0: flags=8863\n\tinet 192.168.1.20 netmask 0xffffff00\n\
                   \tinet6 fe80::1 prefixlen 64\n\
                   utun3:\n\tinet 100.101.7.9 --> 100.101.7.9\n\
                   en1:\n\tinet 100.128.0.1 netmask 0xff000000\n";
    assert_eq!(
        addresses(listing),
        vec!["100.101.7.9", "192.168.1.20", "100.128.0.1", "127.0.0.1"]
    );
    assert_eq!(addresses(""), vec!["127.0.0.1"]);
}
