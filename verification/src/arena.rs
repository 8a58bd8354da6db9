//! Talking to another GTP engine, and playing a series of games against it.
//!
//! The series exists because "is it stronger?" has no other honest answer. A hint
//! that looks sensible is not evidence; a win rate over a few hundred games
//! against a fixed opponent is.
//!
//! Scoring is this engine's own Tromp-Taylor area count, which is only right if
//! the game is played out until every dead stone has actually been captured.

use vstd::prelude::*;

use crate::board;
use crate::board::{Board, Cell, Color, Move, Point, Position};
use crate::coords;
use crate::game::{Game, GameState};
use crate::gtp;
use crate::laws;
use crate::mcts;
use crate::order;
use crate::rules;
use crate::text;

verus! {

/// How far the reading of a reply has come: whether its first line has been seen,
/// and its text so far.
pub struct ReplyState {
    pub started: bool,
    pub body: Seq<char>,
}

/// What a line of a reply leaves to be done.
pub enum Progress {
    /// Read on.
    More,
    /// The reply is complete.
    Done(String),
    /// The command was refused, for the reason given.
    Refused(String),
}

/// What a progress says.
pub enum ProgressState {
    More,
    Done(Seq<char>),
    Refused(Seq<char>),
}

impl View for Progress {
    type V = ProgressState;

    open spec fn view(&self) -> ProgressState {
        match *self {
            Progress::More => ProgressState::More,
            Progress::Done(s) => ProgressState::Done(s@),
            Progress::Refused(s) => ProgressState::Refused(s@),
        }
    }
}

/// The text without the digits it starts with.
pub open spec fn skip_digits(s: Seq<char>) -> Seq<char>
    decreases s.len(),
{
    if s.len() > 0 && text::is_digit(s[0]) {
        skip_digits(s.skip(1))
    } else {
        s
    }
}

impl ReplyState {
    /// Nothing has been read yet.
    pub open spec fn fresh() -> ReplyState {
        ReplyState { started: false, body: Seq::empty() }
    }

    /// Reading one more line of the reply to `command`. A reply starts with `=`,
    /// or `?` where the command is refused, and a number; it goes on until a blank
    /// line. What comes before it is passed over.
    pub open spec fn fed(self, command: Seq<char>, line: Seq<char>) -> (ReplyState, ProgressState) {
        let t = text::trim_end(line);
        if self.started {
            if t.len() == 0 {
                (self, ProgressState::Done(text::trim(self.body)))
            } else {
                (ReplyState { body: self.body.push('\n') + t, ..self }, ProgressState::More)
            }
        } else if t.len() > 0 && t[0] == '=' {
            (
                ReplyState {
                    started: true,
                    body: self.body + text::trim(skip_digits(t.skip(1))),
                },
                ProgressState::More,
            )
        } else if t.len() > 0 && t[0] == '?' {
            (
                self,
                ProgressState::Refused(
                    "`"@ + command + "` refused: "@ + text::trim(t.skip(1)),
                ),
            )
        } else {
            (self, ProgressState::More)
        }
    }
}

/// Reads the reply to a command, line by line.
pub struct Reply {
    started: bool,
    body: Vec<char>,
}

impl View for Reply {
    type V = ReplyState;

    closed spec fn view(&self) -> ReplyState {
        ReplyState { started: self.started, body: self.body@ }
    }
}

proof fn lemma_skip_digits(s: Seq<char>, i: int)
    requires
        0 <= i <= s.len(),
        forall|j: int| 0 <= j < i ==> text::is_digit(#[trigger] s[j]),
        i < s.len() ==> !text::is_digit(s[i]),
    ensures
        skip_digits(s) == s.skip(i),
    decreases i,
{
    if i == 0 {
        assert(s.skip(0) =~= s);
    } else {
        let rest = s.skip(1);
        assert forall|j: int| 0 <= j < i - 1 implies text::is_digit(#[trigger] rest[j]) by {
            assert(rest[j] == s[j + 1]);
        }
        lemma_skip_digits(rest, i - 1);
        assert(rest.skip(i - 1) =~= s.skip(i));
    }
}

fn without_digits(s: &Vec<char>) -> (r: Vec<char>)
    ensures
        r@ == skip_digits(s@),
{
    let mut i: usize = 0;
    while i < s.len() && '0' <= s[i] && s[i] <= '9'
        invariant
            i <= s.len(),
            forall|j: int| 0 <= j < i ==> text::is_digit(#[trigger] s@[j]),
        decreases s.len() - i,
    {
        i += 1;
    }
    proof {
        lemma_skip_digits(s@, i as int);
    }
    text::slice(s, i, s.len())
}

fn rest_of(s: &Vec<char>) -> (r: Vec<char>)
    requires
        s.len() > 0,
    ensures
        r@ == s@.skip(1),
{
    let r: Vec<char> = text::slice(s, 1, s.len());
    assert(r@ =~= s@.skip(1));
    r
}

impl Reply {
    pub fn new() -> (r: Reply)
        ensures
            r@ == ReplyState::fresh(),
    {
        let r = Reply { started: false, body: Vec::new() };
        assert(r@.body =~= Seq::<char>::empty());
        r
    }

    /// Takes one line of the reply to `command`.
    pub fn feed(&mut self, command: &str, line: &str) -> (r: Progress)
        ensures
            (final(self)@, r@) == old(self)@.fed(command@, line@),
    {
        let t: Vec<char> = text::trimmed_end(&text::chars_of(line));
        if self.started {
            if t.len() == 0 {
                return Progress::Done(text::text_of(&text::trimmed(&self.body)));
            }
            self.body.push('\n');
            let mut more: Vec<char> = t;
            self.body.append(&mut more);
            return Progress::More;
        }
        if t.len() > 0 && t[0] == '=' {
            self.started = true;
            let mut more: Vec<char> = text::trimmed(&without_digits(&rest_of(&t)));
            self.body.append(&mut more);
            return Progress::More;
        }
        if t.len() > 0 && t[0] == '?' {
            let mut out: String = "`".to_owned();
            out.append(command);
            out.append("` refused: ");
            text::push_chars(&mut out, &text::trimmed(&rest_of(&t)));
            return Progress::Refused(out);
        }
        Progress::More
    }
}

/// What is said when an engine is gone before it has answered.
pub fn closed_text(label: &str, command: &str) -> (r: String)
    ensures
        r@ == "`"@ + label@ + "` closed while answering `"@ + command@ + "`"@,
{
    let mut out: String = "`".to_owned();
    out.append(label);
    out.append("` closed while answering `");
    out.append(command);
    out.append("`");
    out
}

/// The letter that stands for a colour in a command.
pub open spec fn colour_letter(c: Color) -> Seq<char> {
    match c {
        Color::Black => "b"@,
        Color::White => "w"@,
    }
}

/// The command that plays `mv` for `c`.
pub open spec fn play_line(c: Color, mv: Move) -> Seq<char> {
    "play"@ + " "@ + colour_letter(c) + " "@ + coords::move_name(mv)
}

/// The commands that play the stones on the first `n` points.
pub open spec fn stone_lines(pos: Position, n: nat) -> Seq<Seq<char>>
    decreases n,
{
    if n == 0 {
        Seq::empty()
    } else {
        let before = stone_lines(pos, (n - 1) as nat);
        let pt = board::points_of(pos.size)[n - 1];
        match pos.cells[pt as int] {
            Cell::Black => before.push(play_line(Color::Black, Move::Play(pt))),
            Cell::White => before.push(play_line(Color::White, Move::Play(pt))),
            _ => before,
        }
    }
}

/// The commands that bring an engine up to a position from scratch.
pub open spec fn position_lines(pos: Position, komi: Seq<char>) -> Seq<Seq<char>> {
    seq!["boardsize "@ + text::decimal(pos.size as nat), "clear_board"@, "komi "@ + komi]
        + stone_lines(pos, (pos.size * pos.size) as nat)
}

pub fn colour_text(c: Color) -> (r: &'static str)
    ensures
        r@ == colour_letter(c),
{
    match c {
        Color::Black => "b",
        Color::White => "w",
    }
}

/// The command that plays `mv` for `colour`.
pub fn play_text(board: &Board, colour: Color, mv: Move) -> (r: String)
    requires
        coords::has_name(mv),
    ensures
        r@ == play_line(colour, mv),
{
    let mut out: String = "play".to_owned();
    out.append(" ");
    out.append(colour_text(colour));
    out.append(" ");
    out.append(coords::format_move(board, mv).as_str());
    out
}

/// The commands that bring an engine up to the board's position from scratch.
/// Replaying the moves is not enough, since a position typed in by hand has stones
/// but no history, so this plays what is on the board, stone by stone, with the
/// colour named. Every engine accepts that, and none of them mind the order.
pub fn position_commands(board: &Board, komi: &str) -> (r: Vec<String>)
    requires
        board@.wf(),
    ensures
        text::string_views(r@) == position_lines(board@, komi@),
{
    let mut out: Vec<String> = Vec::new();
    let mut first: String = "boardsize ".to_owned();
    text::push_number(&mut first, board.size() as u64);
    out.push(first);
    out.push("clear_board".to_owned());
    let mut third: String = "komi ".to_owned();
    third.append(komi);
    out.push(third);
    let ghost head = text::string_views(out@);
    let pts: Vec<Point> = board.points();
    let mut k: usize = 0;
    proof {
        assert(head =~= seq![
            "boardsize "@ + text::decimal(board@.size as nat),
            "clear_board"@,
            "komi "@ + komi@,
        ]);
        assert(head + stone_lines(board@, 0) =~= head);
    }
    while k < pts.len()
        invariant
            k <= pts.len(),
            board@.wf(),
            pts@ == board::points_of(board@.size),
            text::string_views(out@) == head + stone_lines(board@, k as nat),
        decreases pts.len() - k,
    {
        let pt: Point = pts[k];
        let ghost before = text::string_views(out@);
        proof {
            board::lemma_points_on_board(board@.size, k as int);
        }
        let colour: Option<Color> = match board.cell(pt) {
            Cell::Black => Some(Color::Black),
            Cell::White => Some(Color::White),
            _ => None,
        };
        if let Some(c) = colour {
            let line: String = play_text(board, c, Move::Play(pt));
            let ghost shown = line@;
            out.push(line);
            proof {
                assert(text::string_views(out@) =~= before.push(shown));
                assert(before.push(shown) =~= head + stone_lines(board@, (k + 1) as nat));
            }
        }
        k += 1;
    }
    out
}

proof fn lemma_split_none(s: Seq<char>, sep: char)
    requires
        forall|i: int| 0 <= i < s.len() ==> #[trigger] s[i] != sep,
    ensures
        text::split(s, sep) == seq![s],
    decreases s.len(),
{
    if s.len() > 0 {
        let less = s.drop_last();
        assert(s[s.len() - 1] != sep);
        assert forall|i: int| 0 <= i < less.len() implies #[trigger] less[i] != sep by {
            assert(less[i] == s[i]);
        }
        lemma_split_none(less, sep);
        assert(seq![less].drop_last() =~= Seq::<Seq<char>>::empty());
        assert(less.push(s.last()) =~= s);
        assert(Seq::<Seq<char>>::empty().push(s) =~= seq![s]);
    } else {
        assert(s =~= Seq::<char>::empty());
    }
}

proof fn lemma_name_is_word(size: int, pt: Point)
    requires
        2 <= size <= 19,
        rules::on_board(size, pt as int),
    ensures
        text::is_word(coords::move_name(Move::Play(pt))),
        forall|i: int|
            0 <= i < coords::move_name(Move::Play(pt)).len() ==> (
            #[trigger] coords::move_name(Move::Play(pt))[i]) != '#',
{
    let name = coords::move_name(Move::Play(pt));
    let digits = text::decimal((pt / 21) as nat);
    text::lemma_decimal((pt / 21) as nat);
    assert forall|i: int| 0 <= i < name.len() implies !text::is_white(#[trigger] name[i])
        && name[i] != '#' by {
        if i > 0 {
            assert(name[i] == digits[i - 1]);
            assert(text::is_digit(digits[i - 1]));
        }
    }
}

/// The commands that hand a position over say what they mean: each is understood
/// as a play of the stone's colour on the stone's point.
pub proof fn law_play_lines_are_understood(size: int, c: Color, pt: Point)
    requires
        2 <= size <= 19,
        rules::on_board(size, pt as int),
    ensures
        ({
            let line = play_line(c, Move::Play(pt));
            let args = gtp::line_args(line);
            &&& gtp::line_words(line).len() == 3
            &&& gtp::line_id(line) is None
            &&& gtp::line_name(line) == "play"@
            &&& args.len() == 2
            &&& gtp::colour_named(args[0]) == Some(c)
            &&& coords::named_move(size, args[1]) == Some(Move::Play(pt))
        }),
{
    reveal_strlit("play");
    reveal_strlit(" ");
    reveal_strlit("b");
    reveal_strlit("w");
    reveal_strlit("black");
    reveal_strlit("white");
    let name = coords::move_name(Move::Play(pt));
    let letter = colour_letter(c);
    let parts = seq!["play"@, letter, name];
    let line = play_line(c, Move::Play(pt));
    lemma_name_is_word(size, pt);
    coords::law_move_names_round_trip(size, Move::Play(pt));
    assert forall|i: int| 0 <= i < parts.len() implies text::is_word(#[trigger] parts[i]) by {}
    text::law_words_round_trip(parts);
    assert(text::join(parts, " "@) =~= line) by {
        let two = parts.drop_last();
        let one = two.drop_last();
        assert(one.len() == 1 && one[0] == "play"@);
        assert(text::join(one, " "@) == "play"@);
        assert(two.last() == letter);
        assert(text::join(two, " "@) == "play"@ + " "@ + letter);
        assert(parts.last() == name);
        assert(text::join(parts, " "@) == text::join(two, " "@) + " "@ + name);
    }
    assert forall|i: int| 0 <= i < line.len() implies #[trigger] line[i] != '#' by {
        let head = "play"@ + " "@ + letter + " "@;
        if i >= head.len() {
            assert(line[i] == name[i - head.len()]);
        }
    }
    lemma_split_none(line, '#');
    assert(!text::is_white(line[0]) && !text::is_white(line.last())) by {
        assert(line.last() == name[name.len() - 1]);
    }
    text::lemma_trim_inked(line);
    assert(gtp::line_words(line) == parts);
    assert(text::number("play"@) is None) by {
        assert(!text::is_digit("play"@[0]));
    }
    assert(gtp::line_args(line) =~= seq![letter, name]);
    assert(text::lowered(letter) =~= letter);
    assert("b"@[0] != "w"@[0]);
    assert("b"@.len() != "black"@.len());
    if c == Color::White {
        assert("w"@ != "b"@) by {
            assert("w"@[0] != "b"@[0]);
        }
        assert("w"@ != "black"@) by {
            assert("w"@.len() != "black"@.len());
        }
    }
}

/// The commands for a position hand over all of its stones and nothing else, in
/// the order in which replaying them is known to rebuild it.
pub proof fn law_position_lines_replay_the_stones(pos: Position, start: Position, n: nat)
    requires
        pos.wf(),
        start.wf(),
        start.size == pos.size,
        laws::stones(start.cells) == Set::<int>::empty(),
        rules::all_breathe(pos.cells),
        n < pos.size * pos.size,
    ensures
        ({
            let pt = board::points_of(pos.size)[n as int];
            let here = laws::replay(start, pos.cells, n);
            let next = laws::replay(start, pos.cells, n + 1);
            &&& here is Ok && next is Ok
            &&& if rules::is_stone(pos.cells[pt as int]) {
                let c = if pos.cells[pt as int] == Cell::Black {
                    Color::Black
                } else {
                    Color::White
                };
                &&& stone_lines(pos, n + 1) == stone_lines(pos, n).push(play_line(c, Move::Play(pt)))
                &&& (Position { to_move: c, ko: None, ..here->Ok_0 }).outcome(Move::Play(pt))
                    == next
            } else {
                stone_lines(pos, n + 1) == stone_lines(pos, n) && next == here
            }
        }),
{
    laws::lemma_replay(start, pos.cells, n);
    laws::lemma_replay(start, pos.cells, n + 1);
}

/// The command that asks for an analysis, if the engine knows one.
pub open spec fn analysis_verb(commands: Seq<char>) -> Option<Seq<char>> {
    let listed = text::lines(commands).map_values(|l: Seq<char>| text::trim(l));
    if listed.contains("kata-analyze"@) {
        Some("kata-analyze"@)
    } else if listed.contains("lz-analyze"@) {
        Some("lz-analyze"@)
    } else {
        None
    }
}

fn lists(all: &Vec<Vec<char>>, name: &str) -> (r: bool)
    ensures
        r == text::views(all@).map_values(|l: Seq<char>| text::trim(l)).contains(name@),
{
    let ghost listed = text::views(all@).map_values(|l: Seq<char>| text::trim(l));
    let mut i: usize = 0;
    while i < all.len()
        invariant
            i <= all.len(),
            listed == text::views(all@).map_values(|l: Seq<char>| text::trim(l)),
            forall|j: int| 0 <= j < i ==> #[trigger] listed[j] != name@,
        decreases all.len() - i,
    {
        assert(listed[i as int] == text::trim(all@[i as int]@));
        if text::same(&text::trimmed(&all[i]), name) {
            return true;
        }
        i += 1;
    }
    false
}

/// Which of the analysis commands is among those that an engine lists.
pub fn choose_analysis(commands: &str) -> (r: Option<&'static str>)
    ensures
        match r {
            Some(verb) => analysis_verb(commands@) == Some(verb@),
            None => analysis_verb(commands@) is None,
        },
{
    let all: Vec<Vec<char>> = text::lines_of(&text::chars_of(commands));
    if lists(&all, "kata-analyze") {
        Some("kata-analyze")
    } else if lists(&all, "lz-analyze") {
        Some("lz-analyze")
    } else {
        None
    }
}

/// One move an engine offered, and what it thought of it.
pub struct Suggestion {
    pub mv: Move,
    /// The win rate from the perspective of the side to play, as the engine wrote
    /// it.
    pub winrate: Option<String>,
    pub visits: u64,
    /// The line the engine expects, starting with `mv`.
    pub pv: Vec<Move>,
}

/// What a suggestion says.
pub struct SuggestionState {
    pub mv: Move,
    pub winrate: Option<Seq<char>>,
    pub visits: u64,
    pub pv: Seq<Move>,
}

pub open spec fn option_view(s: Option<String>) -> Option<Seq<char>> {
    match s {
        Some(s) => Some(s@),
        None => None,
    }
}

impl View for Suggestion {
    type V = SuggestionState;

    open spec fn view(&self) -> SuggestionState {
        SuggestionState {
            mv: self.mv,
            winrate: option_view(self.winrate),
            visits: self.visits,
            pv: self.pv@,
        }
    }
}

pub open spec fn suggestion_views(s: Seq<Suggestion>) -> Seq<SuggestionState> {
    Seq::new(s.len(), |i: int| s[i]@)
}

/// What has been read of a block so far.
pub struct Block {
    pub mv: Option<Move>,
    pub visits: u64,
    pub winrate: Option<Seq<char>>,
    pub pv: Seq<Move>,
}

/// The moves that the words name, as far as they name moves that the rules allow
/// one after the other.
pub open spec fn legal_line(size: int, pos: Position, words: Seq<Seq<char>>) -> Seq<Move>
    decreases words.len(),
{
    if words.len() == 0 {
        Seq::empty()
    } else {
        match coords::named_move(size, words[0]) {
            None => Seq::empty(),
            Some(mv) => match pos.outcome(mv) {
                Err(_) => Seq::empty(),
                Ok(next) => seq![mv] + legal_line(size, next, words.skip(1)),
            },
        }
    }
}

/// Reading on in a block from word number `i`.
pub open spec fn block_from(pos: Position, words: Seq<Seq<char>>, i: int, b: Block) -> Block
    decreases words.len() - i,
{
    if i < 0 || i >= words.len() {
        b
    } else if words[i] == "move"@ && i + 1 < words.len() {
        block_from(pos, words, i + 2, Block { mv: coords::named_move(pos.size, words[i + 1]), ..b })
    } else if words[i] == "visits"@ && i + 1 < words.len() {
        let visits = match text::number_upto(words[i + 1], u64::MAX as nat) {
            Some(n) => n as u64,
            None => 0,
        };
        block_from(pos, words, i + 2, Block { visits, ..b })
    } else if words[i] == "winrate"@ && i + 1 < words.len() {
        block_from(pos, words, i + 2, Block { winrate: Some(words[i + 1]), ..b })
    } else if words[i] == "pv"@ {
        Block { pv: legal_line(pos.size, pos, words.skip(i + 1)), ..b }
    } else {
        block_from(pos, words, i + 1, b)
    }
}

/// What a block of an analysis line says.
pub open spec fn block_of(pos: Position, s: Seq<char>) -> Block {
    block_from(
        pos,
        text::words(s),
        0,
        Block { mv: None, visits: 0, winrate: None, pv: Seq::empty() },
    )
}

/// The suggestions in the first `n` blocks: those that name a move.
pub open spec fn suggested(pos: Position, blocks: Seq<Seq<char>>, n: nat) -> Seq<SuggestionState>
    decreases n,
{
    if n == 0 {
        Seq::empty()
    } else {
        let before = suggested(pos, blocks, (n - 1) as nat);
        let b = block_of(pos, blocks[n - 1]);
        match b.mv {
            Some(mv) => before.push(
                SuggestionState { mv, winrate: b.winrate, visits: b.visits, pv: b.pv },
            ),
            None => before,
        }
    }
}

/// What suggestions are ranked by.
pub open spec fn by_visits() -> spec_fn(SuggestionState) -> int {
    |s: SuggestionState| s.visits as int
}

/// The blocks of an analysis line: what follows each `info `.
pub open spec fn blocks_of(line: Seq<char>) -> Seq<Seq<char>> {
    text::pieces(line, "info "@, 0).skip(1)
}

/// The suggestions on an analysis line, most visited first.
pub open spec fn analysis_of(pos: Position, line: Seq<char>) -> Seq<SuggestionState> {
    let blocks = blocks_of(line);
    order::ranked(suggested(pos, blocks, blocks.len()), by_visits())
}

/// The counters of a board have room for a line of `n` moves.
pub open spec fn room_for(pos: Position, n: nat) -> bool {
    &&& mcts::load(pos) + n < u32::MAX
    &&& pos.passes + n < u32::MAX
}

/// Reads the moves from word number `from` on, as far as they can be played.
fn read_line(board: &Board, words: &Vec<Vec<char>>, from: usize) -> (pv: Vec<Move>)
    requires
        board@.wf(),
        from <= words.len(),
        room_for(board@, words@.len()),
    ensures
        pv@ == legal_line(board@.size, board@, text::views(words@).skip(from as int)),
{
    let ghost all = text::views(words@);
    let ghost whole = legal_line(board@.size, board@, all.skip(from as int));
    let mut pv: Vec<Move> = Vec::new();
    let mut probe: Board = *board;
    let mut i: usize = from;
    assert(pv@ + whole =~= whole);
    while i < words.len()
        invariant
            from <= i <= words.len(),
            board@.wf(),
            probe@.wf(),
            probe@.size == board@.size,
            all == text::views(words@),
            mcts::load(probe@) <= mcts::load(board@) + (i - from),
            probe@.passes <= board@.passes + (i - from),
            room_for(board@, words@.len()),
            whole == pv@ + legal_line(board@.size, probe@, all.skip(i as int)),
        ensures
            pv@ == whole,
        decreases words.len() - i,
    {
        let ghost rest = all.skip(i as int);
        proof {
            assert(rest[0] == words@[i as int]@);
            assert(rest.skip(1) =~= all.skip(i + 1));
            coords::lemma_named_move(board@.size, rest[0]);
            board.lemma_ranges();
            probe.lemma_ranges();
        }
        let mv: Move = match coords::read_move(board, &words[i]) {
            None => {
                assert(pv@ + Seq::<Move>::empty() =~= pv@);
                break;
            },
            Some(mv) => mv,
        };
        proof {
            mcts::lemma_load(probe@, mv);
        }
        let ghost was = pv@;
        let ghost at = probe@;
        if probe.play(mv).is_err() {
            assert(pv@ + Seq::<Move>::empty() =~= pv@);
            break;
        }
        pv.push(mv);
        proof {
            let more = legal_line(board@.size, probe@, all.skip(i + 1));
            assert(was + (seq![mv] + more) =~= pv@ + more);
        }
        i += 1;
        assert(i == words.len() ==> pv@ + Seq::<Move>::empty() =~= pv@);
    }
    pv
}

/// Reads a block; `None` where it names no move.
fn read_block(board: &Board, s: &Vec<char>) -> (r: Option<Suggestion>)
    requires
        board@.wf(),
        room_for(board@, s@.len()),
    ensures
        ({
            let b = block_of(board@, s@);
            match r {
                Some(sg) => b.mv == Some(sg.mv) && sg@ == (SuggestionState {
                    mv: sg.mv,
                    winrate: b.winrate,
                    visits: b.visits,
                    pv: b.pv,
                }),
                None => b.mv is None,
            }
        }),
{
    let words: Vec<Vec<char>> = text::words_of(s);
    let ghost all = text::views(words@);
    let ghost whole = block_of(board@, s@);
    proof {
        text::lemma_words_few(s@);
    }
    let mut mv: Option<Move> = None;
    let mut visits: u64 = 0;
    let mut winrate: Option<String> = None;
    let mut pv: Vec<Move> = Vec::new();
    let mut i: usize = 0;
    assert(pv@ =~= Seq::<Move>::empty());
    while i < words.len()
        invariant
            i <= words.len(),
            board@.wf(),
            room_for(board@, words@.len()),
            all == text::views(words@),
            whole == block_from(
                board@,
                all,
                i as int,
                Block { mv, visits, winrate: option_view(winrate), pv: pv@ },
            ),
        ensures
            whole == (Block { mv, visits, winrate: option_view(winrate), pv: pv@ }),
        decreases words.len() - i,
    {
        assert(all[i as int] == words@[i as int]@);
        let more: bool = i + 1 < words.len();
        if more {
            assert(all[i + 1] == words@[i + 1]@);
        }
        if more && text::same(&words[i], "move") {
            mv = coords::read_move(board, &words[i + 1]);
            i += 2;
        } else if more && text::same(&words[i], "visits") {
            visits = match text::parse_number(&words[i + 1], u64::MAX) {
                Some(n) => n,
                None => 0,
            };
            i += 2;
        } else if more && text::same(&words[i], "winrate") {
            winrate = Some(text::text_of(&words[i + 1]));
            i += 2;
        } else if text::same(&words[i], "pv") {
            pv = read_line(board, &words, i + 1);
            break;
        } else {
            i += 1;
        }
    }
    match mv {
        Some(mv) => Some(Suggestion { mv, winrate, visits, pv }),
        None => None,
    }
}

proof fn lemma_pieces_short(s: Seq<char>, pat: Seq<char>, from: int)
    requires
        pat.len() > 0,
        0 <= from <= s.len(),
    ensures
        text::pieces(s, pat, from).len() > 0,
        forall|i: int|
            0 <= i < text::pieces(s, pat, from).len() ==> (
            #[trigger] text::pieces(s, pat, from)[i]).len() <= s.len(),
    decreases s.len() - from,
{
    text::lemma_place_of(s, pat, from);
    if let Some(i) = text::place_of(s, pat, from) {
        let next = (i + pat.len()) as int;
        lemma_pieces_short(s, pat, next);
        let all = text::pieces(s, pat, from);
        let rest = text::pieces(s, pat, next);
        assert forall|k: int| 0 <= k < all.len() implies (#[trigger] all[k]).len() <= s.len() by {
            if k > 0 {
                assert(all[k] == rest[k - 1]);
            }
        }
    }
}

/// Reads one `info ...` line of the Leela/KataGo analysis format: a run of
/// `move X visits N winrate F ... pv A B C` blocks, one per candidate.
pub fn parse_analysis(board: &Board, line: &str) -> (r: Vec<Suggestion>)
    requires
        board@.wf(),
        room_for(board@, line@.len()),
    ensures
        suggestion_views(r@) == analysis_of(board@, line@),
{
    proof {
        reveal_strlit("info ");
        lemma_pieces_short(line@, "info "@, 0);
    }
    let parts: Vec<Vec<char>> = text::split_text(&text::chars_of(line), "info ");
    let ghost pieces = text::views(parts@);
    let ghost blocks = blocks_of(line@);
    let mut out: Vec<Suggestion> = Vec::new();
    let mut i: usize = 1;
    assert(suggestion_views(out@) =~= order::ranked(suggested(board@, blocks, 0), by_visits()));
    while i < parts.len()
        invariant
            1 <= i <= parts.len(),
            board@.wf(),
            room_for(board@, line@.len()),
            pieces == text::views(parts@),
            blocks == pieces.skip(1),
            forall|k: int| 0 <= k < pieces.len() ==> (#[trigger] pieces[k]).len() <= line@.len(),
            suggestion_views(out@) == order::ranked(
                suggested(board@, blocks, (i - 1) as nat),
                by_visits(),
            ),
        decreases parts.len() - i,
    {
        proof {
            assert(pieces[i as int].len() <= line@.len());
            assert(pieces[i as int] == parts@[i as int]@);
            assert(blocks[i - 1] == pieces[i as int]);
        }
        if let Some(sg) = read_block(board, &parts[i]) {
            let ghost sorted = suggestion_views(out@);
            let ghost before = suggested(board@, blocks, (i - 1) as nat);
            let ghost now = suggested(board@, blocks, i as nat);
            let ghost shown = sg@;
            let mut k: usize = out.len();
            while k > 0 && out[k - 1].visits < sg.visits
                invariant
                    k <= out.len(),
                    sorted == suggestion_views(out@),
                    forall|j: int|
                        k <= j < sorted.len() ==> (#[trigger] sorted[j]).visits < sg.visits,
                decreases k,
            {
                assert(sorted[k - 1].visits == out@[k - 1].visits);
                k -= 1;
            }
            let ghost held = out@;
            proof {
                if k > 0 {
                    assert(sorted[k - 1].visits == out@[k - 1].visits);
                }
                order::lemma_placed_at(sorted, shown, by_visits(), k as int);
                assert(now == before.push(shown));
                assert(now.drop_last() =~= before);
            }
            out.insert(k, sg);
            assert(suggestion_views(out@) =~= sorted.insert(k as int, shown));
        }
        i += 1;
    }
    out
}

/// What an engine thinks of a position, however it was asked.
pub struct Advice {
    pub best: Move,
    /// Most-visited first. Empty if the engine would only answer with a move.
    pub candidates: Vec<Suggestion>,
    pub source: String,
}

/// Is this one of the lines that an analysis streams?
pub fn is_info(line: &str) -> (r: bool)
    ensures
        r == "info "@.is_prefix_of(line@),
{
    text::starts_with(&text::chars_of(line), "info ")
}

/// Does this line end a reply that is being drained?
pub fn is_blank(line: &str) -> (r: bool)
    ensures
        r == (text::trim_end(line@).len() == 0),
{
    text::trimmed_end(&text::chars_of(line)).len() == 0
}

/// The advice in the last line of an analysis: its most visited move, or a pass.
pub fn analysis_advice(board: &Board, last: &str, label: &str) -> (r: Advice)
    requires
        board@.wf(),
        room_for(board@, last@.len()),
    ensures
        suggestion_views(r.candidates@) == analysis_of(board@, last@),
        r.best == if r.candidates@.len() > 0 {
            r.candidates@[0].mv
        } else {
            Move::Pass
        },
        r.source@ == label@,
{
    let candidates: Vec<Suggestion> = parse_analysis(board, last);
    let best: Move = if candidates.len() > 0 {
        candidates[0].mv
    } else {
        Move::Pass
    };
    Advice { best, candidates, source: label.to_owned() }
}

/// What is said of an answer that names no move.
pub open spec fn nonsense(label: Seq<char>, answer: Seq<char>) -> Seq<char> {
    "`"@ + label + "` answered `"@ + answer + "`"@
}

fn nonsense_text(label: &str, answer: &str) -> (r: String)
    ensures
        r@ == nonsense(label@, answer@),
{
    let mut out: String = "`".to_owned();
    out.append(label);
    out.append("` answered `");
    out.append(answer);
    out.append("`");
    out
}

/// The advice in an answer to `genmove`: a move and nothing else.
pub fn genmove_advice(board: &Board, answer: &str, label: &str) -> (r: Result<Advice, String>)
    requires
        board@.wf(),
    ensures
        match coords::named_move(board@.size, answer@) {
            Some(mv) => r matches Ok(advice) && advice.best == mv && advice.candidates@.len() == 0
                && advice.source@ == label@ + " (genmove only, no analysis)"@,
            None => r matches Err(why) && why@ == nonsense(label@, answer@),
        },
{
    match coords::parse_move(board, answer) {
        None => Err(nonsense_text(label, answer)),
        Some(best) => {
            let mut source: String = label.to_owned();
            source.append(" (genmove only, no analysis)");
            Ok(Advice { best, candidates: Vec::new(), source })
        },
    }
}

/// Which side gobot takes in game number `g` of a series: Black and White by
/// turns, so that komi does not decide the result on its own, or Black throughout
/// where it is given handicap stones.
pub fn side_in_game(handicap: usize, g: usize) -> (c: Color)
    ensures
        c == if handicap > 0 || g % 2 == 0 {
            Color::Black
        } else {
            Color::White
        },
{
    if handicap > 0 || g % 2 == 0 {
        Color::Black
    } else {
        Color::White
    }
}

/// The seed for a move of a game: different for every game and every move.
pub fn move_seed(seed: u64, game: u64, moves: u64) -> (r: u64)
    ensures
        r == seed ^ (game.wrapping_mul(0x9E37_79B9) ^ moves),
{
    seed ^ (game.wrapping_mul(0x9E37_79B9) ^ moves)
}

/// The game with black stones set up on the vertices that the first `n` words name,
/// as far as they name points.
pub open spec fn with_reported(game: GameState, words: Seq<Seq<char>>, n: nat) -> GameState
    decreases n,
{
    if n == 0 {
        game
    } else {
        let before = with_reported(game, words, (n - 1) as nat);
        match coords::named_move(game.board.size, words[n - 1]) {
            Some(Move::Play(pt)) => before.after_setup(pt, Color::Black),
            _ => before,
        }
    }
}

/// Does the word name a point of the board?
pub open spec fn names_point(size: int, word: Seq<char>) -> bool {
    coords::named_move(size, word) matches Some(Move::Play(_))
}

/// Is `i` the first word that names no point?
pub open spec fn first_odd(size: int, words: Seq<Seq<char>>, i: int) -> bool {
    &&& 0 <= i < words.len()
    &&& !names_point(size, words[i])
    &&& forall|j: int| 0 <= j < i ==> names_point(size, #[trigger] words[j])
}

/// Sets up the handicap stones where the opponent says they went. The opponent
/// chooses the points and tells us, so that the two boards cannot drift apart over
/// a convention neither wrote down. White moves first afterwards.
pub fn place_reported<K>(game: &mut Game<K>, placed: &str, handicap: usize) -> (r: Result<
    (),
    String,
>)
    requires
        old(game)@.wf(),
    ensures
        final(game)@.wf(),
        final(game).agreed_komi() == old(game).agreed_komi(),
        ({
            let size = old(game)@.board.size;
            let words = text::words(placed@);
            let all = with_reported(old(game)@, words, words.len());
            match r {
                Ok(()) => {
                    &&& forall|i: int|
                        0 <= i < words.len() ==> names_point(size, #[trigger] words[i])
                    &&& words.len() == handicap
                    &&& final(game)@ == (GameState {
                        board: Position { to_move: Color::White, ko: None, ..all.board },
                        ..all
                    })
                },
                Err(why) => {
                    ||| exists|i: int| #[trigger]
                        first_odd(size, words, i) && why@ == "handicap vertex `"@ + words[i]
                            + "` makes no sense"@ && final(game)@ == with_reported(
                            old(game)@,
                            words,
                            i as nat,
                        )
                    ||| {
                        &&& forall|i: int|
                            0 <= i < words.len() ==> names_point(size, #[trigger] words[i])
                        &&& words.len() != handicap
                        &&& why@ == "asked for "@ + text::decimal(handicap as nat)
                            + " handicap stones and got "@ + text::decimal(words.len())
                        &&& final(game)@ == all
                    }
                },
            }
        }),
{
    let words: Vec<Vec<char>> = text::words_of(&text::chars_of(placed));
    let ghost all = text::views(words@);
    let ghost was = game@;
    let ghost size = was.board.size;
    let mut n: usize = 0;
    while n < words.len()
        invariant
            n <= words.len(),
            all == text::views(words@),
            all == text::words(placed@),
            size == was.board.size,
            was == old(game)@,
            game@ == with_reported(was, all, n as nat),
            game@.wf(),
            game@.board.size == size,
            game.agreed_komi() == old(game).agreed_komi(),
            forall|i: int| 0 <= i < n ==> names_point(size, #[trigger] all[i]),
        decreases words.len() - n,
    {
        assert(all[n as int] == words@[n as int]@);
        match coords::read_move(game.board(), &words[n]) {
            Some(Move::Play(pt)) => {
                proof {
                    coords::lemma_named_move(size, all[n as int]);
                }
                game.setup_stone(pt, Color::Black);
            },
            _ => {
                let mut out: String = "handicap vertex `".to_owned();
                text::push_chars(&mut out, &words[n]);
                out.append("` makes no sense");
                assert(first_odd(size, all, n as int));
                return Err(out);
            },
        }
        n += 1;
    }
    if n != handicap {
        let mut out: String = "asked for ".to_owned();
        text::push_number(&mut out, handicap as u64);
        out.append(" handicap stones and got ");
        text::push_number(&mut out, n as u64);
        return Err(out);
    }
    game.set_to_move(Color::White);
    Ok(())
}

proof fn lemma_reported(size: int, points: Seq<(usize, usize)>, n: nat)
    requires
        2 <= size <= 19,
        n <= points.len(),
        forall|i: int|
            0 <= i < points.len() ==> (#[trigger] points[i]).0 < size && points[i].1 < size,
    ensures
        with_reported(
            GameState::fresh(Position::empty(size)),
            gtp::handicap_names(points),
            n,
        ).board == coords::set_up(
            Position::empty(size),
            gtp::handicap_stones(points).take(n as int),
        ),
        forall|i: int|
            0 <= i < n ==> names_point(size, #[trigger] gtp::handicap_names(points)[i]),
    decreases n,
{
    let names = gtp::handicap_names(points);
    let stones = gtp::handicap_stones(points);
    if n == 0 {
        assert(stones.take(0) =~= Seq::<(Point, Color)>::empty());
    } else {
        lemma_reported(size, points, (n - 1) as nat);
        let i = n - 1;
        let pt = stones[i].0;
        assert(points[i].0 < size && points[i].1 < size);
        laws::law_points_and_coordinates_are_inverse(
            size,
            0,
            points[i].0 as int,
            points[i].1 as int,
        );
        coords::law_move_names_round_trip(size, Move::Play(pt));
        assert(names[i] == coords::move_name(Move::Play(pt)));
        assert(stones.take(n as int).drop_last() =~= stones.take(i));
    }
}

/// Two engines stay on the same board over a handicap: setting up what one says it
/// has placed gives the board that it has placed it on.
pub proof fn law_reported_handicap_is_the_same_board(size: usize, stones: usize)
    requires
        2 <= size <= 19,
        coords::handicap_error(size, stones) is None,
    ensures
        ({
            let points = coords::handicap_layout(size, stones);
            let answer = text::join(gtp::handicap_names(points), " "@);
            let words = text::words(answer);
            let all = with_reported(
                GameState::fresh(Position::empty(size as int)),
                words,
                words.len(),
            );
            &&& words.len() == stones
            &&& forall|i: int|
                0 <= i < words.len() ==> names_point(size as int, #[trigger] words[i])
            &&& (Position { to_move: Color::White, ko: None, ..all.board }) == gtp::handicap_board(
                size as int,
                points,
            )
        }),
{
    let points = coords::handicap_layout(size, stones);
    let names = gtp::handicap_names(points);
    coords::lemma_handicap_inside(size, stones);
    assert forall|i: int| 0 <= i < names.len() implies text::is_word(#[trigger] names[i]) by {
        assert(points[i].0 < size && points[i].1 < size);
        laws::law_points_and_coordinates_are_inverse(
            size as int,
            0,
            points[i].0 as int,
            points[i].1 as int,
        );
        lemma_name_is_word(size as int, gtp::handicap_stones(points)[i].0);
    }
    text::law_words_round_trip(names);
    lemma_reported(size as int, points, points.len());
    assert(gtp::handicap_stones(points).take(points.len() as int) =~= gtp::handicap_stones(points));
    coords::law_handicap_points_are_star_points(size, stones, 0, 1);
}

/// What comes next in a game of the series.
#[derive(Clone, Copy, PartialEq, Eq, Debug, Structural)]
pub enum Turn {
    MoveLimit,
    BothPassed,
    Ours,
    Theirs,
}

/// What comes next after `moves` moves: the end, or a move of one side or the
/// other.
pub fn next_turn<K>(game: &Game<K>, ours: Color, moves: usize) -> (r: Turn)
    requires
        game@.wf(),
    ensures
        r == if moves >= game@.board.size * game@.board.size * 3 {
            Turn::MoveLimit
        } else if game@.board.passes >= 2 {
            Turn::BothPassed
        } else if game@.board.to_move == ours {
            Turn::Ours
        } else {
            Turn::Theirs
        },
{
    let size: usize = game.board().size();
    assert(size * size <= 361) by (nonlinear_arith)
        requires
            size <= 19,
    ;
    if moves >= size * size * 3 {
        Turn::MoveLimit
    } else if game.board().passes() >= 2 {
        Turn::BothPassed
    } else if game.to_move() == ours {
        Turn::Ours
    } else {
        Turn::Theirs
    }
}

/// How a game of the series ended.
pub fn ended_text(turn: Turn) -> (r: &'static str)
    ensures
        r@ == match turn {
            Turn::MoveLimit => "move limit"@,
            _ => "both passed"@,
        },
{
    match turn {
        Turn::MoveLimit => "move limit",
        _ => "both passed",
    }
}

/// What an opponent's answer to `genmove` means.
pub enum Answer {
    Resigned,
    Played(Move),
    Nonsense(String),
}

/// Reads an opponent's answer to `genmove`.
pub fn read_answer(board: &Board, answer: &str, label: &str) -> (r: Answer)
    requires
        board@.wf(),
    ensures
        match r {
            Answer::Resigned => text::lowered(answer@) == "resign"@,
            Answer::Played(mv) => text::lowered(answer@) != "resign"@ && coords::named_move(
                board@.size,
                answer@,
            ) == Some(mv),
            Answer::Nonsense(why) => text::lowered(answer@) != "resign"@ && coords::named_move(
                board@.size,
                answer@,
            ) is None && why@ == nonsense(label@, answer@),
        },
{
    let low: Vec<char> = text::to_lowered(&text::chars_of(answer));
    if text::same(&low, "resign") {
        return Answer::Resigned;
    }
    match coords::parse_move(board, answer) {
        Some(mv) => Answer::Played(mv),
        None => Answer::Nonsense(nonsense_text(label, answer)),
    }
}

/// The game after a move, or after a pass where the game refuses the move.
pub open spec fn moved_or_passed(game: GameState, mv: Move) -> GameState {
    match game.outcome(mv) {
        Ok(next) => next,
        Err(_) => game.outcome(Move::Pass)->Ok_0,
    }
}

/// Makes a move, or a pass where the game refuses it, and says whether it did not.
/// Passing keeps the game going, but it means that the two sides are not playing
/// by the same rules and the result is not worth much.
pub fn move_or_pass<K>(game: &mut Game<K>, mv: Move) -> (accepted: bool)
    requires
        old(game)@.wf(),
        old(game)@.board.roomy(),
        mv matches Move::Play(pt) ==> old(game)@.board.on_board(pt as int),
    ensures
        final(game)@.wf(),
        final(game)@ == moved_or_passed(old(game)@, mv),
        accepted == (old(game)@.outcome(mv) is Ok),
        final(game).agreed_komi() == old(game).agreed_komi(),
{
    proof {
        game.lemma_counts();
        mcts::lemma_load(game@.board, mv);
        mcts::lemma_load(game@.board, Move::Pass);
    }
    match game.play(mv) {
        Ok(()) => true,
        Err(_) => {
            let _ = game.play(Move::Pass);
            false
        },
    }
}

/// What is printed of one game of a series, its number counted from zero.
pub open spec fn game_line(
    g: nat,
    side: Color,
    won: bool,
    ended: Seq<char>,
    moves: nat,
    wins: nat,
) -> Seq<char> {
    "  game "@ + text::flush_right(text::decimal(g + 1), 3) + ": gobot "@ + text::flush_left(
        (match side {
            Color::Black => "black"@,
            Color::White => "white"@,
        }),
        5,
    ) + " "@ + (if won {
        "WIN "@
    } else {
        "loss"@
    }) + "  ("@ + ended + ", "@ + text::decimal(moves) + " moves)  — running "@ + text::decimal(
        wins,
    ) + "/"@ + text::decimal(g + 1) + "\n"@
}

/// Says how one game of a series went.
pub fn game_text(
    g: usize,
    side: Color,
    won: bool,
    ended: &str,
    moves: usize,
    wins: usize,
) -> (r: String)
    requires
        g < usize::MAX,
    ensures
        r@ == game_line(g as nat, side, won, ended@, moves as nat, wins as nat),
{
    let number: String = text::number_text(g as u64 + 1);
    let mut out: String = "  game ".to_owned();
    text::push_right(&mut out, number.as_str(), 3);
    out.append(": gobot ");
    text::push_left(&mut out, side.name(), 5);
    out.append(" ");
    if won {
        out.append("WIN ");
    } else {
        out.append("loss");
    }
    out.append("  (");
    out.append(ended);
    out.append(", ");
    text::push_number(&mut out, moves as u64);
    out.append(" moves)  — running ");
    text::push_number(&mut out, wins as u64);
    out.append("/");
    out.append(number.as_str());
    out.append("\n");
    out
}

/// What is said of a series too short to mean anything.
pub fn series_warning(games: usize) -> (r: Option<String>)
    ensures
        match r {
            Some(s) => games < 100 && s@ == "At "@ + text::decimal(games as nat)
                + " games that interval is too wide to rank anything. Run more.\n"@,
            None => games >= 100,
        },
{
    if games >= 100 {
        return None;
    }
    let mut out: String = "At ".to_owned();
    text::push_number(&mut out, games as u64);
    out.append(" games that interval is too wide to rank anything. Run more.\n");
    Some(out)
}

/// The reply after reading the first `n` lines.
pub open spec fn reply_upto(command: Seq<char>, all: Seq<Seq<char>>, n: nat) -> (
    ReplyState,
    ProgressState,
)
    decreases n,
{
    if n == 0 {
        (ReplyState::fresh(), ProgressState::More)
    } else {
        (reply_upto(command, all, (n - 1) as nat)).0.fed(command, all[n - 1])
    }
}

/// A body that an answer can carry whole: lines without white space at their ends,
/// none of them blank but perhaps the first, which has none at its start either.
pub open spec fn is_body(body: Seq<Seq<char>>) -> bool {
    &&& body.len() > 0
    &&& body[0].len() > 0 ==> !text::is_white(body[0][0])
    &&& forall|i: int|
        0 <= i < body.len() ==> text::is_line(#[trigger] body[i]) && (i > 0 ==> body[i].len() > 0)
            && (body[i].len() > 0 ==> !text::is_white(body[i].last()))
}

/// The first line of an answer.
spec fn opening(id: Option<u32>, ok: bool, first: Seq<char>) -> Seq<char> {
    let sign = if ok {
        seq!['=']
    } else {
        seq!['?']
    };
    let number = match id {
        Some(n) => text::decimal(n as nat),
        None => Seq::empty(),
    };
    sign + number + " "@ + first
}

/// The lines of an answer.
spec fn answer_lines(id: Option<u32>, ok: bool, body: Seq<Seq<char>>) -> Seq<Seq<char>> {
    body.update(0, opening(id, ok, body[0])).push(Seq::empty())
}

proof fn lemma_answer_text(id: Option<u32>, ok: bool, body: Seq<Seq<char>>, n: nat)
    requires
        0 < n <= body.len(),
    ensures
        text::unlines(answer_lines(id, ok, body).take(n as int)) == opening(
            id,
            ok,
            text::join(body.take(n as int), "\n"@),
        ).push('\n'),
    decreases n,
{
    reveal_strlit("\n");
    let all = answer_lines(id, ok, body);
    let head = all.take(n as int);
    let some = body.take(n as int);
    assert(head.drop_last() =~= all.take(n - 1));
    if n == 1 {
        assert(all.take(0) =~= Seq::<Seq<char>>::empty());
        assert(text::unlines(all.take(0)) =~= Seq::<char>::empty());
        assert(text::unlines(head) =~= opening(id, ok, body[0]).push('\n'));
    } else {
        lemma_answer_text(id, ok, body, (n - 1) as nat);
        assert(some.drop_last() =~= body.take(n - 1));
        let before = text::join(body.take(n - 1), "\n"@);
        assert(text::unlines(head) =~= opening(id, ok, before + "\n"@ + body[n - 1]).push('\n'));
    }
}

proof fn lemma_answer_lines(id: Option<u32>, ok: bool, body: Seq<Seq<char>>)
    requires
        is_body(body),
    ensures
        text::lines(gtp::response(id, ok, text::join(body, "\n"@))) == answer_lines(id, ok, body),
{
    reveal_strlit("\n\n");
    reveal_strlit(" ");
    let all = answer_lines(id, ok, body);
    let k = body.len();
    let whole = text::join(body, "\n"@);
    assert(body.take(k as int) =~= body);
    lemma_answer_text(id, ok, body, k);
    assert(all.drop_last() =~= all.take(k as int));
    assert(text::unlines(all) =~= gtp::response(id, ok, whole));
    let number = match id {
        Some(n) => text::decimal(n as nat),
        None => Seq::empty(),
    };
    assert(text::all_digits(number)) by {
        if let Some(n) = id {
            text::lemma_decimal(n as nat);
        }
    }
    assert forall|i: int| 0 <= i < all.len() implies text::is_line(#[trigger] all[i]) by {
        if i == 0 {
            let first = opening(id, ok, body[0]);
            assert(text::is_line(body[0]));
            let m = number.len();
            assert forall|j: int| 0 <= j < first.len() implies #[trigger] first[j] != '\n' by {
                if 1 <= j <= m {
                    assert(first[j] == number[j - 1]);
                } else if j >= m + 2 {
                    assert(first[j] == body[0][j - m - 2]);
                }
            }
            if body[0].len() > 0 {
                assert(first.last() == body[0].last());
            } else {
                assert(first.last() == ' ');
            }
        } else if i < k {
            assert(text::is_line(body[i]));
        }
    }
    text::law_lines_round_trip(all);
}

proof fn lemma_number_skipped(digits: Seq<char>, rest: Seq<char>)
    requires
        text::all_digits(digits),
        rest.len() > 0 ==> !text::is_digit(rest[0]),
    ensures
        skip_digits(digits + rest) == rest,
{
    let s = digits + rest;
    assert forall|j: int| 0 <= j < digits.len() implies text::is_digit(#[trigger] s[j]) by {
        assert(s[j] == digits[j]);
    }
    lemma_skip_digits(s, digits.len() as int);
    assert(s.skip(digits.len() as int) =~= rest);
}

/// What trimming does to the first line of an answer.
proof fn lemma_opening(id: Option<u32>, ok: bool, first: Seq<char>)
    requires
        first.len() > 0 ==> !text::is_white(first[0]) && !text::is_white(first.last()),
    ensures
        ({
            let t = text::trim_end(opening(id, ok, first));
            &&& t.len() > 0
            &&& t[0] == if ok {
                '='
            } else {
                '?'
            }
            &&& text::trim(skip_digits(t.skip(1))) == first
            &&& id is None ==> text::trim(t.skip(1)) == first
        }),
{
    reveal_strlit(" ");
    let line = opening(id, ok, first);
    let number = match id {
        Some(n) => text::decimal(n as nat),
        None => Seq::empty(),
    };
    assert(text::all_digits(number)) by {
        if let Some(n) = id {
            text::lemma_decimal(n as nat);
        }
    }
    let t = text::trim_end(line);
    if first.len() > 0 {
        assert(line.last() == first.last());
        assert(t == line);
        let rest = " "@ + first;
        assert(t.skip(1) =~= number + rest);
        lemma_number_skipped(number, rest);
        assert(rest[0] == ' ');
        assert(rest.skip(1) =~= first);
        assert(text::trim_start(rest) == text::trim_start(first));
        text::lemma_trim_inked(first);
        if id is None {
            assert(number + rest =~= rest);
        }
    } else {
        let bare = line.drop_last();
        assert(line.last() == ' ');
        assert(bare.skip(1) =~= number);
        if number.len() > 0 {
            assert(bare.last() == number.last());
            assert(text::is_digit(number[number.len() - 1]));
        } else {
            assert(bare.len() == 1);
        }
        assert(!text::is_white(bare.last()));
        assert(text::trim_end(bare) == bare);
        assert(t == bare);
        lemma_number_skipped(number, Seq::empty());
        assert(number + Seq::<char>::empty() =~= number);
        assert(first =~= Seq::<char>::empty());
        text::lemma_trim_inked(first);
        if id is None {
            assert(number =~= first);
        }
    }
}

proof fn lemma_reply_upto(command: Seq<char>, id: Option<u32>, body: Seq<Seq<char>>, n: nat)
    requires
        is_body(body),
        0 < n <= body.len(),
    ensures
        ({
            let all = answer_lines(id, true, body);
            let (state, progress) = reply_upto(command, all, n);
            &&& progress is More
            &&& state.started
            &&& state.body == text::join(body.take(n as int), "\n"@)
        }),
    decreases n,
{
    reveal_strlit("\n");
    let all = answer_lines(id, true, body);
    let some = body.take(n as int);
    assert(text::is_line(body[n - 1]));
    if n == 1 {
        assert(reply_upto(command, all, 0) == (ReplyState::fresh(), ProgressState::More));
        lemma_opening(id, true, body[0]);
        assert(Seq::<char>::empty() + body[0] =~= body[0]);
        assert(some[0] == body[0]);
    } else {
        lemma_reply_upto(command, id, body, (n - 1) as nat);
        assert(some.drop_last() =~= body.take(n - 1));
        let before = text::join(body.take(n - 1), "\n"@);
        assert(all[n - 1] == body[n - 1]);
        assert(text::trim_end(body[n - 1]) == body[n - 1]);
        assert(before.push('\n') + body[n - 1] =~= before + "\n"@ + body[n - 1]);
    }
}

/// One end understands the other: reading an answer in the affirmative, line by
/// line, goes on to its blank line, and gives the body back.
pub proof fn law_answers_are_understood(
    command: Seq<char>,
    id: Option<u32>,
    body: Seq<Seq<char>>,
)
    requires
        is_body(body),
    ensures
        ({
            let whole = text::join(body, "\n"@);
            let all = text::lines(gtp::response(id, true, whole));
            &&& all.len() == body.len() + 1
            &&& forall|n: nat|
                n <= body.len() ==> (#[trigger] reply_upto(command, all, n)).1 is More
            &&& (reply_upto(command, all, all.len())).1 == ProgressState::Done(text::trim(whole))
        }),
{
    lemma_answer_lines(id, true, body);
    let all = answer_lines(id, true, body);
    assert forall|n: nat| n <= body.len() implies (#[trigger] reply_upto(command, all, n)).1 is More by {
        if n > 0 {
            lemma_reply_upto(command, id, body, n);
        }
    }
    lemma_reply_upto(command, id, body, body.len());
    assert(body.take(body.len() as int) =~= body);
}

/// And a refusal is understood as one, with its reason.
pub proof fn law_refusals_are_understood(command: Seq<char>, why: Seq<char>)
    requires
        is_body(seq![why]),
    ensures
        ({
            let all = text::lines(gtp::response(None, false, why));
            (reply_upto(command, all, 1)).1 == ProgressState::Refused(
                "`"@ + command + "` refused: "@ + why,
            )
        }),
{
    let body = seq![why];
    lemma_answer_lines(None, false, body);
    lemma_opening(None, false, why);
    assert(text::is_line(body[0]));
    let all = answer_lines(None, false, body);
    assert(reply_upto(command, all, 0) == (ReplyState::fresh(), ProgressState::More));
}

/// Is this one of the words that a block is read for?
pub open spec fn is_key(word: Seq<char>) -> bool {
    word == "move"@ || word == "visits"@ || word == "winrate"@ || word == "pv"@
}

/// The value that comes with the last `key` among the first `n` pairs of words.
pub open spec fn last_value(words: Seq<Seq<char>>, n: nat, key: Seq<char>) -> Option<Seq<char>>
    decreases n,
{
    if n == 0 {
        None
    } else if words[2 * (n - 1)] == key {
        Some(words[2 * (n - 1) + 1])
    } else {
        last_value(words, (n - 1) as nat, key)
    }
}

/// Are the words `n` pairs of a key and a value, of any keys and values whatever as
/// long as those of unknown keys are no known words, and then, perhaps, a line?
pub open spec fn in_pairs(words: Seq<Seq<char>>, n: nat) -> bool {
    &&& 2 * n <= words.len()
    &&& forall|i: int|
        0 <= i < n ==> {
            &&& #[trigger] words[2 * i] != "pv"@
            &&& !is_key(words[2 * i]) ==> !is_key(words[2 * i + 1])
        }
    &&& 2 * n < words.len() ==> words[2 * n as int] == "pv"@
}

/// A block says what its own keys say and nothing else: the move after `move`, the
/// visits after `visits`, the win rate after `winrate`, each the last one given, and
/// after `pv` the line, as far as it can be played. Whatever other keys there are, and
/// whatever their values, change nothing. Visits that are no number count as none.
#[verifier::rlimit(40)]
pub proof fn law_a_block_says_what_its_keys_say(pos: Position, s: Seq<char>, n: nat)
    requires
        in_pairs(text::words(s), n),
    ensures
        ({
            let words = text::words(s);
            let b = block_of(pos, s);
            &&& b.mv == match last_value(words, n, "move"@) {
                Some(v) => coords::named_move(pos.size, v),
                None => None,
            }
            &&& b.visits == match last_value(words, n, "visits"@) {
                Some(v) => match text::number_upto(v, u64::MAX as nat) {
                    Some(k) => k as int,
                    None => 0,
                },
                None => 0,
            }
            &&& b.winrate == last_value(words, n, "winrate"@)
            &&& 2 * n < words.len() ==> b.pv == legal_line(
                pos.size,
                pos,
                words.skip(2 * n as int + 1),
            )
            &&& 2 * n == words.len() ==> b.pv.len() == 0
        }),
{
    let words = text::words(s);
    let empty = Block { mv: None, visits: 0, winrate: None, pv: Seq::empty() };
    reveal_strlit("move");
    reveal_strlit("visits");
    reveal_strlit("winrate");
    reveal_strlit("pv");
    lemma_pairs_read(pos, words, n, n, empty);
    let said = Block {
        mv: match last_value(words, n, "move"@) {
            Some(v) => coords::named_move(pos.size, v),
            None => None,
        },
        visits: match last_value(words, n, "visits"@) {
            Some(v) => match text::number_upto(v, u64::MAX as nat) {
                Some(k) => k as u64,
                None => 0,
            },
            None => 0,
        },
        winrate: last_value(words, n, "winrate"@),
        pv: Seq::empty(),
    };
    assert(block_of(pos, s) == block_from(pos, words, 2 * n as int, said));
    if 2 * n < words.len() {
        let word = words[2 * n as int];
        assert(word == "pv"@ && word.len() == 2);
        assert(word != "move"@ && word != "visits"@ && word != "winrate"@) by {
            assert("move"@.len() == 4 && "visits"@.len() == 6 && "winrate"@.len() == 7);
        }
        let at = 2 * n as int;
        assert(block_from(pos, words, at, said) == (Block {
            pv: legal_line(pos.size, pos, words.skip(at + 1)),
            ..said
        }));
        assert(block_of(pos, s).pv == legal_line(pos.size, pos, words.skip(2 * n as int + 1)));
        assert(block_of(pos, s).visits == said.visits);
    } else {
        assert(block_of(pos, s) == said);
    }
}

proof fn lemma_pairs_read(pos: Position, words: Seq<Seq<char>>, n: nat, i: nat, empty: Block)
    requires
        in_pairs(words, n),
        i <= n,
        empty == (Block { mv: None, visits: 0, winrate: None, pv: Seq::empty() }),
    ensures
        block_from(pos, words, 0, empty) == block_from(
            pos,
            words,
            2 * i as int,
            Block {
                mv: match last_value(words, i, "move"@) {
                    Some(v) => coords::named_move(pos.size, v),
                    None => None,
                },
                visits: match last_value(words, i, "visits"@) {
                    Some(v) => match text::number_upto(v, u64::MAX as nat) {
                        Some(k) => k as u64,
                        None => 0,
                    },
                    None => 0,
                },
                winrate: last_value(words, i, "winrate"@),
                pv: Seq::empty(),
            },
        ),
    decreases i,
{
    reveal_strlit("move");
    reveal_strlit("visits");
    reveal_strlit("winrate");
    reveal_strlit("pv");
    if i > 0 {
        let h = (i - 1) as nat;
        lemma_pairs_read(pos, words, n, h, empty);
        let key = words[2 * h as int];
        let value = words[2 * h as int + 1];
        assert(words[2 * (i - 1)] == key);
        if !is_key(key) {
            assert(!is_key(value));
            reveal_with_fuel(block_from, 3);
        } else {
            reveal_with_fuel(block_from, 2);
        }
    }
}

/// Is this the suggestion that the block `k` of an analysis makes?
pub open spec fn makes(pos: Position, blocks: Seq<Seq<char>>, k: int, s: SuggestionState) -> bool {
    let b = block_of(pos, blocks[k]);
    &&& 0 <= k < blocks.len()
    &&& b.mv == Some(s.mv)
    &&& b.visits == s.visits
    &&& b.winrate == s.winrate
    &&& b.pv == s.pv
}

proof fn lemma_suggested(pos: Position, blocks: Seq<Seq<char>>, n: nat)
    requires
        n <= blocks.len(),
    ensures
        forall|s: SuggestionState| #[trigger]
            suggested(pos, blocks, n).contains(s) <==> exists|k: int|
                k < n && #[trigger] makes(pos, blocks, k, s),
    decreases n,
{
    let all = suggested(pos, blocks, n);
    if n == 0 {
        assert(all.len() == 0);
    } else {
        let before = suggested(pos, blocks, (n - 1) as nat);
        let b = block_of(pos, blocks[n - 1]);
        lemma_suggested(pos, blocks, (n - 1) as nat);
        assert forall|s: SuggestionState| #[trigger] all.contains(s) <==> exists|k: int|
            k < n && #[trigger] makes(pos, blocks, k, s) by {
            if all.contains(s) {
                let i = choose|i: int| 0 <= i < all.len() && all[i] == s;
                if i < before.len() {
                    assert(before[i] == s);
                    assert(before.contains(s));
                    let k = choose|k: int| k < n - 1 && #[trigger] makes(pos, blocks, k, s);
                    assert(k < n && makes(pos, blocks, k, s));
                } else {
                    assert(makes(pos, blocks, n - 1, s));
                }
            }
            if exists|k: int| k < n && #[trigger] makes(pos, blocks, k, s) {
                let k = choose|k: int| k < n && #[trigger] makes(pos, blocks, k, s);
                if k < n - 1 {
                    assert(before.contains(s));
                    let i = choose|i: int| 0 <= i < before.len() && before[i] == s;
                    assert(all[i] == s);
                } else {
                    assert(all[before.len() as int] == s);
                }
            }
        }
    }
}

/// What an analysis line suggests is what its blocks say: every block that names a move
/// makes a suggestion, there are no others, and they come with the most visited first.
pub proof fn law_suggestions_are_ranked_by_visits(pos: Position, line: Seq<char>)
    ensures
        forall|i: int, j: int|
            0 <= i < j < analysis_of(pos, line).len() ==> (
            #[trigger] analysis_of(pos, line)[i]).visits >= (
            #[trigger] analysis_of(pos, line)[j]).visits,
        forall|s: SuggestionState| #[trigger]
            analysis_of(pos, line).contains(s) <==> exists|k: int| #[trigger]
                makes(pos, blocks_of(line), k, s),
{
    broadcast use vstd::seq_lib::group_to_multiset_ensures;

    let blocks = blocks_of(line);
    let all = suggested(pos, blocks, blocks.len());
    let top = analysis_of(pos, line);
    order::law_ranking(all, by_visits());
    lemma_suggested(pos, blocks, blocks.len());
    assert forall|i: int, j: int| 0 <= i < j < top.len() implies (#[trigger] top[i]).visits >= (
    #[trigger] top[j]).visits by {
        assert(by_visits()(top[i]) >= by_visits()(top[j]));
    }
    assert forall|s: SuggestionState| #[trigger] top.contains(s) <==> exists|k: int| #[trigger]
        makes(pos, blocks, k, s) by {
        assert(top.to_multiset().count(s) == all.to_multiset().count(s));
        assert(all.contains(s) <==> exists|k: int|
            k < blocks.len() && #[trigger] makes(pos, blocks, k, s));
    }
}

/// May the moves be made one after the other from the position?
pub open spec fn can_be_made(pos: Position, moves: Seq<Move>) -> bool
    decreases moves.len(),
{
    moves.len() > 0 ==> pos.outcome(moves[0]) is Ok && can_be_made(
        pos.outcome(moves[0])->Ok_0,
        moves.skip(1),
    )
}

/// A line that is read names its moves in order and can be played; it stops at the
/// first word that names no move or a move that may not be made there.
pub proof fn law_lines_can_be_played(pos: Position, words: Seq<Seq<char>>)
    ensures
        ({
            let pv = legal_line(pos.size, pos, words);
            &&& pv.len() <= words.len()
            &&& can_be_made(pos, pv)
            &&& forall|i: int|
                0 <= i < pv.len() ==> coords::named_move(pos.size, words[i]) == Some(
                    #[trigger] pv[i],
                )
            &&& pv.len() < words.len() ==> (coords::named_move(
                pos.size,
                words[pv.len() as int],
            ) matches Some(mv) ==> !can_be_made(pos, pv.push(mv)))
        }),
{
    lemma_line_played(pos.size, pos, words);
}

proof fn lemma_line_played(size: int, pos: Position, words: Seq<Seq<char>>)
    ensures
        ({
            let pv = legal_line(size, pos, words);
            &&& pv.len() <= words.len()
            &&& can_be_made(pos, pv)
            &&& forall|i: int|
                0 <= i < pv.len() ==> coords::named_move(size, words[i]) == Some(#[trigger] pv[i])
            &&& pv.len() < words.len() ==> (coords::named_move(
                size,
                words[pv.len() as int],
            ) matches Some(mv) ==> !can_be_made(pos, pv.push(mv)))
        }),
    decreases words.len(),
{
    let pv = legal_line(size, pos, words);
    if words.len() > 0 {
        if let Some(mv) = coords::named_move(size, words[0]) {
            if let Ok(next) = pos.outcome(mv) {
                let rest = words.skip(1);
                let more = legal_line(size, next, rest);
                lemma_line_played(size, next, rest);
                assert(pv == seq![mv] + more);
                assert(pv.skip(1) =~= more);
                assert forall|i: int| 0 <= i < pv.len() implies coords::named_move(size, words[i])
                    == Some(#[trigger] pv[i]) by {
                    if i > 0 {
                        assert(rest[i - 1] == words[i]);
                        assert(pv[i] == more[i - 1]);
                    }
                }
                if pv.len() < words.len() {
                    assert(rest[more.len() as int] == words[pv.len() as int]);
                    if let Some(last) = coords::named_move(size, words[pv.len() as int]) {
                        assert(pv.push(last).skip(1) =~= more.push(last));
                        assert(pv.push(last)[0] == mv);
                    }
                }
            } else {
                assert(pv.push(mv)[0] == mv);
            }
        }
    }
}

/// A move of the series that the game accepts is made; where it is refused, the side to
/// move has passed instead: no stone has moved and it is the other side's turn.
pub proof fn law_refused_moves_become_passes(game: GameState, mv: Move)
    requires
        game.board.wf(),
        mv matches Move::Play(pt) ==> game.board.on_board(pt as int),
    ensures
        ({
            let after = moved_or_passed(game, mv);
            &&& after.board.to_move == game.board.to_move.spec_other()
            &&& after.moves == game.moves + 1
            &&& game.outcome(mv) is Err ==> after.board.cells == game.board.cells
                && after.board.passes == game.board.passes + 1
            &&& game.outcome(mv) is Ok && mv is Play ==> after.board.cells[mv->Play_0 as int]
                == game.board.to_move.spec_cell() && after.board.passes == 0
        }),
{
    if let Move::Play(pt) = mv {
        rules::lemma_after_own(
            game.board.size,
            game.board.cells,
            pt as int,
            game.board.to_move,
        );
    }
}

/// The command that asks for an analysis is one that the engine lists, KataGo's own
/// where it lists both; there is none only where it lists neither.
pub proof fn law_analysis_command_is_listed(commands: Seq<char>)
    ensures
        ({
            let listed = |name: Seq<char>|
                exists|i: int|
                    0 <= i < text::lines(commands).len() && text::trim(
                        #[trigger] text::lines(commands)[i],
                    ) == name;
            &&& analysis_verb(commands) == Some("kata-analyze"@) <==> listed("kata-analyze"@)
            &&& analysis_verb(commands) == Some("lz-analyze"@) <==> listed("lz-analyze"@)
                && !listed("kata-analyze"@)
            &&& analysis_verb(commands) is None <==> !listed("lz-analyze"@) && !listed(
                "kata-analyze"@,
            )
        }),
{
    reveal_strlit("kata-analyze");
    reveal_strlit("lz-analyze");
    let all = text::lines(commands);
    let trimmed = all.map_values(|l: Seq<char>| text::trim(l));
    assert("kata-analyze"@.len() != "lz-analyze"@.len());
    assert forall|name: Seq<char>| #[trigger] trimmed.contains(name) <==> exists|i: int|
        0 <= i < all.len() && text::trim(#[trigger] all[i]) == name by {
        if trimmed.contains(name) {
            let i = choose|i: int| 0 <= i < trimmed.len() && trimmed[i] == name;
            assert(text::trim(all[i]) == name);
        }
        if exists|i: int| 0 <= i < all.len() && text::trim(#[trigger] all[i]) == name {
            let i = choose|i: int| 0 <= i < all.len() && text::trim(#[trigger] all[i]) == name;
            assert(trimmed[i] == name);
        }
    }
}

} // verus!
