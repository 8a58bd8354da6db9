//! A local web board.
//!
//! Typing a position in as a diagram is where the mistakes come from, so this
//! answers one page that you click stones onto. A request is a few lines of
//! `key value`, and so is an answer.
//!
//! Nothing is kept between requests: every one rebuilds the board from the stones
//! that the page sends, and the ko point and the positions the game has already
//! stood in ride along with it.

use vstd::prelude::*;

use crate::board::{Board, Cell, Color, Illegal, Move, Point, Position};
use crate::coords;
use crate::game::{Game, GameState, Rejected};
use crate::gtp;
use crate::laws;
use crate::mcts;
use crate::rebuild;
use crate::rules;
use crate::text;

verus! {

/// Where a request goes.
#[derive(Clone, Copy, PartialEq, Eq, Debug, Structural)]
pub enum Route {
    Page,
    Defaults,
    Move,
    Play,
    Analyse,
    Missing,
}

/// Where the request with this first line goes.
pub open spec fn route_of(line: Seq<char>) -> Route {
    let w = text::words(line);
    let method = if w.len() > 0 {
        w[0]
    } else {
        Seq::empty()
    };
    let path = if w.len() > 1 {
        w[1]
    } else {
        "/"@
    };
    if method == "GET"@ && path == "/"@ {
        Route::Page
    } else if method == "GET"@ && path == "/defaults"@ {
        Route::Defaults
    } else if method == "POST"@ && path == "/move"@ {
        Route::Move
    } else if method == "POST"@ && path == "/play"@ {
        Route::Play
    } else if method == "POST"@ && path == "/analyse"@ {
        Route::Analyse
    } else {
        Route::Missing
    }
}

pub fn route(line: &str) -> (r: Route)
    ensures
        r == route_of(line@),
{
    let words: Vec<Vec<char>> = text::words_of(&text::chars_of(line));
    let ghost all = text::views(words@);
    if words.len() == 0 {
        proof {
            reveal_strlit("GET");
            reveal_strlit("POST");
            assert(Seq::<char>::empty().len() != "GET"@.len());
            assert(Seq::<char>::empty().len() != "POST"@.len());
        }
        return Route::Missing;
    }
    assert(all[0] == words@[0]@);
    let get: bool = text::same(&words[0], "GET");
    let post: bool = text::same(&words[0], "POST");
    proof {
        reveal_strlit("GET");
        reveal_strlit("POST");
        assert("GET"@.len() != "POST"@.len());
        reveal_strlit("/");
        reveal_strlit("/defaults");
        reveal_strlit("/move");
        reveal_strlit("/play");
        reveal_strlit("/analyse");
        assert("/"@.len() != "/defaults"@.len());
        assert("/"@.len() != "/move"@.len());
        assert("/"@.len() != "/play"@.len());
        assert("/"@.len() != "/analyse"@.len());
    }
    if words.len() == 1 {
        return if get {
            Route::Page
        } else {
            Route::Missing
        };
    }
    assert(all[1] == words@[1]@);
    if get && text::same(&words[1], "/") {
        Route::Page
    } else if get && text::same(&words[1], "/defaults") {
        Route::Defaults
    } else if post && text::same(&words[1], "/move") {
        Route::Move
    } else if post && text::same(&words[1], "/play") {
        Route::Play
    } else if post && text::same(&words[1], "/analyse") {
        Route::Analyse
    } else {
        Route::Missing
    }
}

/// The length that a header line gives, if it gives one; a length that cannot be
/// read counts as none at all.
pub open spec fn length_in(line: Seq<char>) -> Option<nat> {
    let t = text::trim_end(line);
    if "Content-Length:"@.is_prefix_of(t) || "content-length:"@.is_prefix_of(t) {
        match text::number_upto(text::trim(t.skip(15)), usize::MAX as nat) {
            Some(n) => Some(n),
            None => Some(0),
        }
    } else {
        None
    }
}

pub fn content_length(line: &str) -> (r: Option<usize>)
    ensures
        match r {
            Some(n) => length_in(line@) == Some(n as nat),
            None => length_in(line@) is None,
        },
{
    let t: Vec<char> = text::trimmed_end(&text::chars_of(line));
    if text::starts_with(&t, "Content-Length:") || text::starts_with(&t, "content-length:") {
        proof {
            reveal_strlit("Content-Length:");
            reveal_strlit("content-length:");
        }
        let rest: Vec<char> = text::slice(&t, 15, t.len());
        assert(rest@ =~= t@.skip(15));
        match text::parse_number(&text::trimmed(&rest), usize::MAX as u64) {
            Some(n) => Some(n as usize),
            None => Some(0),
        }
    } else {
        None
    }
}

/// The head of an answer whose body has so many bytes.
pub fn response_head(status: &str, kind: &str, length: usize) -> (r: String)
    ensures
        r@ == "HTTP/1.1 "@ + status@ + "\r\nContent-Type: "@ + kind@ + "\r\nContent-Length: "@
            + text::decimal(length as nat)
            + "\r\nConnection: close\r\nCache-Control: no-store\r\n\r\n"@,
{
    let mut out: String = "HTTP/1.1 ".to_owned();
    out.append(status);
    out.append("\r\nContent-Type: ");
    out.append(kind);
    out.append("\r\nContent-Length: ");
    text::push_number(&mut out, length as u64);
    out.append("\r\nConnection: close\r\nCache-Control: no-store\r\n\r\n");
    out
}

/// What the page starts from.
pub fn defaults_text(size: usize, komi: &str, time: &str, engine: bool) -> (r: String)
    ensures
        r@ == "size "@ + text::decimal(size as nat) + "\nkomi "@ + komi@ + "\ntime "@ + time@
            + "\nengine "@ + (if engine {
            "true"@
        } else {
            "false"@
        }) + "\n"@,
{
    let mut out: String = "size ".to_owned();
    text::push_number(&mut out, size as u64);
    out.append("\nkomi ");
    out.append(komi);
    out.append("\ntime ");
    out.append(time);
    out.append("\nengine ");
    if engine {
        out.append("true");
    } else {
        out.append("false");
    }
    out.append("\n");
    out
}

/// The contents that a letter of a row stands for.
pub open spec fn letter_cell(c: char) -> Option<Cell> {
    if c == 'b' {
        Some(Cell::Black)
    } else if c == 'w' {
        Some(Cell::White)
    } else if c == '.' {
        Some(Cell::Empty)
    } else {
        None
    }
}

/// The letter that stands for the contents of a point.
pub open spec fn cell_letter(c: Cell) -> char {
    match c {
        Cell::Black => 'b',
        Cell::White => 'w',
        _ => '.',
    }
}

/// Are these the rows of a board of this size: as many as it has, each as long, and
/// of nothing but the letters?
pub open spec fn are_rows(size: int, rows: Seq<Seq<char>>) -> bool {
    &&& rows.len() == size
    &&& forall|i: int| 0 <= i < rows.len() ==> (#[trigger] rows[i]).len() == size
    &&& forall|i: int, x: int|
        0 <= i < rows.len() && 0 <= x < size ==> letter_cell(#[trigger] rows[i][x]) is Some
}

/// The contents that the letters of some rows stand for.
pub open spec fn row_contents(rows: Seq<Seq<char>>) -> Seq<Seq<Cell>> {
    Seq::new(
        rows.len(),
        |i: int| Seq::new(rows[i].len(), |x: int| letter_cell(rows[i][x])->0),
    )
}

/// The hash of the position that a text of rows shows, top row first; none for
/// anything that is not a position.
pub open spec fn shown_hash(size: int, s: Seq<char>) -> Option<u64> {
    let rows = text::split(s, '/');
    if are_rows(size, rows) {
        let stones = coords::stones_in(row_contents(rows), size);
        Some(coords::set_up(Position::empty(size), stones).hash)
    } else {
        None
    }
}

/// The letters of the row `y`.
pub open spec fn row_letters(pos: Position, y: int) -> Seq<char> {
    Seq::new(pos.size as nat, |x: int| cell_letter(pos.cells[rules::point_at(x, y)]))
}

/// The letters of all rows, top row first.
pub open spec fn all_letters(pos: Position) -> Seq<Seq<char>> {
    Seq::new(pos.size as nat, |i: int| row_letters(pos, pos.size - 1 - i))
}

/// The stones as a text of rows.
pub open spec fn board_text(pos: Position) -> Seq<char> {
    text::join(all_letters(pos), "/"@)
}

fn read_row(row: &Vec<char>) -> (r: Option<Vec<Cell>>)
    ensures
        r is Some <==> forall|x: int|
            0 <= x < row@.len() ==> letter_cell(#[trigger] row@[x]) is Some,
        r matches Some(cells) ==> cells@ == Seq::new(
            row@.len(),
            |x: int| letter_cell(row@[x])->0,
        ),
{
    let mut out: Vec<Cell> = Vec::new();
    let mut x: usize = 0;
    while x < row.len()
        invariant
            x <= row.len(),
            forall|j: int| 0 <= j < x ==> letter_cell(#[trigger] row@[j]) is Some,
            out@ =~= Seq::new(x as nat, |x: int| letter_cell(row@[x])->0),
        decreases row.len() - x,
    {
        let cell: Cell = match row[x] {
            'b' => Cell::Black,
            'w' => Cell::White,
            '.' => Cell::Empty,
            _ => {
                assert(letter_cell(row@[x as int]) is None);
                return None;
            },
        };
        out.push(cell);
        x += 1;
    }
    Some(out)
}

/// The positional hash of a board written as rows, top-first, the form the page
/// keeps its history in. `None` for anything that is not a position.
pub fn rows_hash(size: usize, s: &Vec<char>) -> (r: Option<u64>)
    requires
        2 <= size <= 19,
    ensures
        r == shown_hash(size as int, s@),
{
    let parts: Vec<Vec<char>> = text::split_at(s, '/');
    let ghost all = text::views(parts@);
    if parts.len() != size {
        return None;
    }
    let mut rows: Vec<Vec<Cell>> = Vec::new();
    let mut i: usize = 0;
    while i < parts.len()
        invariant
            i <= parts.len(),
            parts.len() == size,
            all == text::views(parts@),
            all == text::split(s@, '/'),
            2 <= size <= 19,
            rows@.len() == i,
            forall|j: int| 0 <= j < i ==> (#[trigger] all[j]).len() == size,
            forall|j: int, x: int|
                0 <= j < i && 0 <= x < size ==> letter_cell(#[trigger] all[j][x]) is Some,
            forall|j: int|
                0 <= j < i ==> (#[trigger] rows@[j])@ == Seq::new(
                    all[j].len(),
                    |x: int| letter_cell(all[j][x])->0,
                ),
        decreases parts.len() - i,
    {
        assert(all[i as int] == parts@[i as int]@);
        if parts[i].len() != size {
            return None;
        }
        match read_row(&parts[i]) {
            None => {
                proof {
                    let x = choose|x: int|
                        0 <= x < parts@[i as int]@.len() && letter_cell(
                            #[trigger] parts@[i as int]@[x],
                        ) is None;
                    assert(letter_cell(all[i as int][x]) is None);
                }
                return None;
            },
            Some(row) => {
                rows.push(row);
            },
        }
        i += 1;
    }
    proof {
        assert(coords::cell_rows(rows@) =~= row_contents(all)) by {
            assert forall|j: int| 0 <= j < rows@.len() implies coords::cell_rows(rows@)[j]
                == #[trigger] row_contents(all)[j] by {
                assert(rows@[j]@ == coords::cell_rows(rows@)[j]);
            }
        }
        assert forall|j: int| 0 <= j < size implies (
        #[trigger] coords::cell_rows(rows@)[j]).len() == size by {
            assert(row_contents(all)[j].len() == all[j].len());
        }
    }
    let stones: Vec<(Point, Color)> = coords::collect_stones(&rows, size);
    let mut board: Board = Board::new(size);
    coords::place_stones(&mut board, &stones);
    Some(board.hash())
}

/// The stones, rows top-first: the form the page draws from and sends back.
pub fn board_rows(board: &Board) -> (r: String)
    requires
        board@.wf(),
    ensures
        r@ == board_text(board@),
{
    let size: usize = board.size();
    let ghost pos = board@;
    let ghost all = all_letters(pos);
    let mut out: String = String::new();
    let mut i: usize = 0;
    proof {
        reveal_strlit("/");
        assert(all.take(0) =~= Seq::<Seq<char>>::empty());
        assert(out@ =~= text::join(all.take(0), "/"@));
    }
    while i < size
        invariant
            i <= size,
            size == pos.size,
            pos == board@,
            pos.wf(),
            all == all_letters(pos),
            "/"@ == seq!['/'],
            out@ == text::join(all.take(i as int), "/"@),
        decreases size - i,
    {
        let y: usize = size - 1 - i;
        let ghost before = out@;
        if i > 0 {
            out.push('/');
        }
        let ghost start = out@;
        let mut x: usize = 0;
        while x < size
            invariant
                x <= size,
                y < size,
                size == pos.size,
                pos == board@,
                pos.wf(),
                out@ == start + row_letters(pos, y as int).take(x as int),
            decreases size - x,
        {
            let pt: Point = board.point(x, y);
            let c: char = match board.cell(pt) {
                Cell::Black => 'b',
                Cell::White => 'w',
                _ => '.',
            };
            out.push(c);
            proof {
                let row = row_letters(pos, y as int);
                assert(row.take(x + 1) =~= row.take(x as int).push(c));
                assert(out@ =~= start + row.take(x + 1));
            }
            x += 1;
        }
        proof {
            let row = row_letters(pos, y as int);
            assert(row.take(x as int) =~= row);
            assert(all.take(i + 1).drop_last() =~= all.take(i as int));
            assert(all.take(i + 1).last() == row);
            assert(out@ =~= text::join(all.take(i + 1), "/"@));
        }
        i += 1;
    }
    assert(all.take(i as int) =~= all);
    out
}

proof fn lemma_split_join(rows: Seq<Seq<char>>)
    requires
        rows.len() > 0,
        forall|i: int, j: int|
            0 <= i < rows.len() && 0 <= j < rows[i].len() ==> (#[trigger] rows[i][j]) != '/',
    ensures
        text::split(text::join(rows, "/"@), '/') == rows,
    decreases rows.len(),
{
    reveal_strlit("/");
    let row = rows.last();
    if rows.len() == 1 {
        lemma_split_on(Seq::empty(), row);
        assert(Seq::<char>::empty() + row =~= row);
        assert(text::split(Seq::<char>::empty(), '/') =~= seq![Seq::<char>::empty()]);
        assert(seq![Seq::<char>::empty()].drop_last().push(Seq::<char>::empty() + row) =~= rows);
    } else {
        let less = rows.drop_last();
        assert forall|i: int, j: int| 0 <= i < less.len() && 0 <= j < less[i].len() implies (
        #[trigger] less[i][j]) != '/' by {
            assert(less[i] == rows[i]);
        }
        lemma_split_join(less);
        let head = text::join(less, "/"@) + "/"@;
        assert(head.drop_last() =~= text::join(less, "/"@));
        assert(head.last() == '/');
        assert(text::split(head, '/') == less.push(Seq::empty()));
        lemma_split_on(head, row);
        assert(less.push(Seq::<char>::empty()).drop_last() =~= less);
        assert(Seq::<char>::empty() + row =~= row);
        assert(less.push(row) =~= rows);
    }
}

/// Reading on without a separator only lengthens the last part.
proof fn lemma_split_on(s: Seq<char>, more: Seq<char>)
    requires
        forall|j: int| 0 <= j < more.len() ==> (#[trigger] more[j]) != '/',
    ensures
        text::split(s + more, '/') == text::split(s, '/').drop_last().push(
            text::split(s, '/').last() + more,
        ),
    decreases more.len(),
{
    text::lemma_split_nonempty(s, '/');
    let parts = text::split(s, '/');
    if more.len() == 0 {
        assert(s + more =~= s);
        assert(parts.last() + more =~= parts.last());
        assert(parts.drop_last().push(parts.last()) =~= parts);
    } else {
        let less = more.drop_last();
        let c = more[more.len() - 1];
        assert((s + more).drop_last() =~= s + less);
        assert((s + more).last() == c);
        assert forall|j: int| 0 <= j < less.len() implies (#[trigger] less[j]) != '/' by {
            assert(less[j] == more[j]);
        }
        lemma_split_on(s, less);
        let mid = parts.drop_last().push(parts.last() + less);
        assert(mid.drop_last() =~= parts.drop_last());
        assert((parts.last() + less).push(c) =~= parts.last() + more);
    }
}

/// The page's record of a position is the position: the rows that are sent for a
/// board on which every chain has a liberty have the board's hash.
pub proof fn law_rows_round_trip(pos: Position)
    requires
        pos.wf(),
        rules::all_breathe(pos.cells),
    ensures
        shown_hash(pos.size, board_text(pos)) == Some(pos.hash),
{
    let size = pos.size;
    let rows = all_letters(pos);
    assert forall|i: int, j: int| 0 <= i < rows.len() && 0 <= j < rows[i].len() implies (
    #[trigger] rows[i][j]) != '/' && letter_cell(rows[i][j]) is Some by {
        assert(rows[i] == row_letters(pos, size - 1 - i));
    }
    lemma_split_join(rows);
    assert forall|i: int| 0 <= i < rows.len() implies (#[trigger] rows[i]).len() == size by {
        assert(rows[i] == row_letters(pos, size - 1 - i));
    }
    assert(row_contents(rows) =~= rebuild::rows_of(pos)) by {
        assert forall|i: int| 0 <= i < size implies row_contents(rows)[i]
            == #[trigger] rebuild::rows_of(pos)[i] by {
            let y = size - 1 - i;
            assert(rows[i] == row_letters(pos, y));
            assert forall|x: int| 0 <= x < size implies row_contents(rows)[i][x]
                == #[trigger] rebuild::row_of(pos, y)[x] by {
                let p = rules::point_at(x, y);
                laws::law_points_and_coordinates_are_inverse(size, 0, x, y);
                assert((pos.cells[p] != Cell::Border) <==> rules::on_board(size, p));
                assert(rows[i][x] == cell_letter(pos.cells[p]));
            }
            assert(row_contents(rows)[i] =~= rebuild::row_of(pos, y));
        }
    }
    rebuild::law_setting_up_rebuilds_position(pos);
}

/// What the lines of a request say.
pub struct FieldsState {
    pub size: nat,
    /// The words given for komi, in order.
    pub komi: Seq<Seq<char>>,
    /// The words given for the thinking time, in order.
    pub time: Seq<Seq<char>>,
    pub move_first: Option<Seq<char>>,
    pub ko: Option<Seq<char>>,
    pub seen: Seq<Seq<char>>,
    pub to_move: Color,
    pub stones: Seq<(usize, usize, Color)>,
}

impl FieldsState {
    /// What holds where a request says nothing.
    pub open spec fn fresh(size: nat) -> FieldsState {
        FieldsState {
            size,
            komi: Seq::empty(),
            time: Seq::empty(),
            move_first: None,
            ko: None,
            seen: Seq::empty(),
            to_move: Color::Black,
            stones: Seq::empty(),
        }
    }

    /// What holds after one more line, of these words. A line that means nothing is
    /// passed over.
    pub open spec fn with_line(self, w: Seq<Seq<char>>) -> FieldsState {
        if w.len() < 2 {
            self
        } else if w[0] == "size"@ {
            match text::number_upto(w[1], usize::MAX as nat) {
                Some(n) => FieldsState { size: n, ..self },
                None => self,
            }
        } else if w[0] == "komi"@ {
            FieldsState { komi: self.komi.push(w[1]), ..self }
        } else if w[0] == "time"@ {
            FieldsState { time: self.time.push(w[1]), ..self }
        } else if w[0] == "move"@ {
            FieldsState { move_first: Some(w[1]), ..self }
        } else if w[0] == "ko"@ {
            FieldsState { ko: Some(w[1]), ..self }
        } else if w[0] == "seen"@ {
            FieldsState { seen: self.seen.push(w[1]), ..self }
        } else if w[0] == "tomove"@ {
            FieldsState {
                to_move: if w[1].len() > 0 && w[1][0] == 'w' {
                    Color::White
                } else {
                    Color::Black
                },
                ..self
            }
        } else if w[0] == "b"@ || w[0] == "w"@ {
            let c = if w[0] == "b"@ {
                Color::Black
            } else {
                Color::White
            };
            let most = usize::MAX as nat;
            if w.len() < 3 {
                self
            } else {
                match (text::number_upto(w[1], most), text::number_upto(w[2], most)) {
                    (Some(x), Some(y)) => FieldsState {
                        stones: self.stones.push((x as usize, y as usize, c)),
                        ..self
                    },
                    _ => self,
                }
            }
        } else {
            self
        }
    }
}

/// What the first `n` lines of a request say.
pub open spec fn fields_upto(size: nat, lines: Seq<Seq<char>>, n: nat) -> FieldsState
    decreases n,
{
    if n == 0 {
        FieldsState::fresh(size)
    } else {
        fields_upto(size, lines, (n - 1) as nat).with_line(text::words(lines[n - 1]))
    }
}

/// What a request says, for a board of this size where it does not say.
pub open spec fn fields_of(size: nat, body: Seq<char>) -> FieldsState {
    let lines = text::lines(body);
    fields_upto(size, lines, lines.len())
}

/// The stones that are on a board of this size.
pub open spec fn inside(stones: Seq<(usize, usize, Color)>, size: int) -> Seq<(Point, Color)>
    decreases stones.len(),
{
    if stones.len() == 0 {
        Seq::empty()
    } else {
        let before = inside(stones.drop_last(), size);
        let (x, y, c) = stones.last();
        if x < size && y < size {
            before.push((rules::point_at(x as int, y as int) as Point, c))
        } else {
            before
        }
    }
}

/// The hashes of those texts that show positions.
pub open spec fn seen_hashes(size: int, seen: Seq<Seq<char>>) -> Seq<u64>
    decreases seen.len(),
{
    if seen.len() == 0 {
        Seq::empty()
    } else {
        let before = seen_hashes(size, seen.drop_last());
        match shown_hash(size, seen.last()) {
            Some(hash) => before.push(hash),
            None => before,
        }
    }
}

impl FieldsState {
    /// The size can be played on.
    pub open spec fn playable(self) -> bool {
        2 <= self.size <= 19
    }

    /// The stones that were sent and are on the board.
    pub open spec fn wanted(self) -> Seq<(Point, Color)> {
        inside(self.stones, self.size as int)
    }

    /// The ko point that was sent, if it is a point.
    pub open spec fn ko_point(self) -> Option<Point> {
        match self.ko {
            Some(word) => match coords::named_move(self.size as int, word) {
                Some(Move::Play(pt)) => Some(pt),
                _ => None,
            },
            None => None,
        }
    }

    /// The position that the request describes: its stones set up one after the
    /// other, without those that are left with no liberties.
    pub open spec fn position(self) -> Position {
        let built = coords::set_up(Position::empty(self.size as int), self.wanted()).settled();
        Position { to_move: self.to_move, ko: self.ko_point(), ..built }
    }

    /// The game that the request describes: the position, and the history that came
    /// with it.
    pub open spec fn game(self) -> GameState {
        let board = self.position();
        GameState {
            seen: seq![board.hash] + seen_hashes(self.size as int, self.seen),
            ..GameState::fresh(board)
        }
    }

    /// The points that were sent but that the rules would not leave on the board.
    pub open spec fn dropped(self) -> Seq<Point> {
        coords::missing(self.position().cells, self.wanted())
    }
}

/// What is said of a board size that cannot be played on.
pub open spec fn bad_size(size: nat) -> Seq<char> {
    "board size "@ + text::decimal(size) + " is out of range"@
}

/// A request that has been read.
pub struct Request {
    /// The position, and the history the page carried with it. Superko here is
    /// only as good as that history: nothing is kept between requests, so the rule
    /// is enforced for an honest page rather than against a liar.
    pub game: Game<()>,
    /// The words given for komi, in order: the last that is a number counts.
    pub komi: Vec<Vec<char>>,
    /// The words given for the thinking time, in order.
    pub time: Vec<Vec<char>>,
    /// A move the side to move wants to make before anything else happens.
    pub move_first: Option<Vec<char>>,
    /// Points that were sent but that the rules would not leave on the board.
    pub dropped: Vec<Point>,
}

pub open spec fn word_view(w: Option<Vec<char>>) -> Option<Seq<char>> {
    match w {
        Some(w) => Some(w@),
        None => None,
    }
}

impl Request {
    /// Is this what has been read of a request that says so much?
    pub open spec fn reads(self, f: FieldsState) -> bool {
        &&& self.game@ == f.game()
        &&& text::views(self.komi@) == f.komi
        &&& text::views(self.time@) == f.time
        &&& word_view(self.move_first) == f.move_first
        &&& self.dropped@ == f.dropped()
    }

    /// The game is sound, its points are on its board, and its counters have room.
    pub open spec fn sound(self) -> bool {
        &&& self.game@.wf()
        &&& mcts::load(self.game@.board) <= 441
        &&& self.game@.board.passes == 0
        &&& ko_on_board(self.game@.board)
        &&& forall|i: int|
            0 <= i < self.dropped@.len() ==> self.game@.board.on_board(
                #[trigger] self.dropped@[i] as int,
            )
    }
}

/// The ko point, if there is one, is on the board.
pub open spec fn ko_on_board(pos: Position) -> bool {
    pos.ko matches Some(pt) ==> pos.on_board(pt as int)
}

/// The fields of a request as they are being read.
struct Fields {
    size: usize,
    komi: Vec<Vec<char>>,
    time: Vec<Vec<char>>,
    move_first: Option<Vec<char>>,
    ko: Option<Vec<char>>,
    seen: Vec<Vec<char>>,
    to_move: Color,
    stones: Vec<(usize, usize, Color)>,
}

impl View for Fields {
    type V = FieldsState;

    closed spec fn view(&self) -> FieldsState {
        FieldsState {
            size: self.size as nat,
            komi: text::views(self.komi@),
            time: text::views(self.time@),
            move_first: word_view(self.move_first),
            ko: word_view(self.ko),
            seen: text::views(self.seen@),
            to_move: self.to_move,
            stones: self.stones@,
        }
    }
}

fn push_word(words: &mut Vec<Vec<char>>, w: &Vec<char>)
    ensures
        text::views(final(words)@) == text::views(old(words)@).push(w@),
{
    let copy: Vec<char> = text::slice(w, 0, w.len());
    assert(copy@ =~= w@);
    words.push(copy);
    assert(text::views(words@) =~= text::views(old(words)@).push(w@));
}

fn copy_word(w: &Vec<char>) -> (r: Vec<char>)
    ensures
        r@ == w@,
{
    let r: Vec<char> = text::slice(w, 0, w.len());
    assert(r@ =~= w@);
    r
}

impl Fields {
    /// Takes one more line, of these words.
    fn take_line(&mut self, w: &Vec<Vec<char>>)
        ensures
            final(self)@ == old(self)@.with_line(text::views(w@)),
    {
        let ghost all = text::views(w@);
        if w.len() < 2 {
            return;
        }
        assert(all[0] == w@[0]@ && all[1] == w@[1]@);
        if text::same(&w[0], "size") {
            if let Some(n) = text::parse_number(&w[1], usize::MAX as u64) {
                self.size = n as usize;
            }
            return;
        }
        if text::same(&w[0], "komi") {
            push_word(&mut self.komi, &w[1]);
            return;
        }
        if text::same(&w[0], "time") {
            push_word(&mut self.time, &w[1]);
            return;
        }
        if text::same(&w[0], "move") {
            self.move_first = Some(copy_word(&w[1]));
            return;
        }
        if text::same(&w[0], "ko") {
            self.ko = Some(copy_word(&w[1]));
            return;
        }
        if text::same(&w[0], "seen") {
            push_word(&mut self.seen, &w[1]);
            return;
        }
        if text::same(&w[0], "tomove") {
            self.to_move = if w[1].len() > 0 && w[1][0] == 'w' {
                Color::White
            } else {
                Color::Black
            };
            return;
        }
        let black: bool = text::same(&w[0], "b");
        if black || text::same(&w[0], "w") {
            if w.len() < 3 {
                return;
            }
            assert(all[2] == w@[2]@);
            if let Some(x) = text::parse_number(&w[1], usize::MAX as u64) {
                if let Some(y) = text::parse_number(&w[2], usize::MAX as u64) {
                    let c: Color = if black {
                        Color::Black
                    } else {
                        Color::White
                    };
                    self.stones.push((x as usize, y as usize, c));
                }
            }
        }
    }
}

fn read_fields(body: &str, size: usize) -> (f: Fields)
    ensures
        f@ == fields_of(size as nat, body@),
{
    let lines: Vec<Vec<char>> = text::lines_of(&text::chars_of(body));
    let ghost all = text::views(lines@);
    let mut f = Fields {
        size,
        komi: Vec::new(),
        time: Vec::new(),
        move_first: None,
        ko: None,
        seen: Vec::new(),
        to_move: Color::Black,
        stones: Vec::new(),
    };
    proof {
        assert(f@.komi =~= Seq::<Seq<char>>::empty());
        assert(f@.time =~= Seq::<Seq<char>>::empty());
        assert(f@.seen =~= Seq::<Seq<char>>::empty());
        assert(f@.stones =~= Seq::<(usize, usize, Color)>::empty());
    }
    let mut i: usize = 0;
    while i < lines.len()
        invariant
            i <= lines.len(),
            all == text::views(lines@),
            f@ == fields_upto(size as nat, all, i as nat),
        decreases lines.len() - i,
    {
        assert(all[i as int] == lines@[i as int]@);
        let words: Vec<Vec<char>> = text::words_of(&lines[i]);
        f.take_line(&words);
        i += 1;
    }
    f
}

fn stones_inside(stones: &Vec<(usize, usize, Color)>, size: usize) -> (r: Vec<(Point, Color)>)
    requires
        2 <= size <= 19,
    ensures
        r@ == inside(stones@, size as int),
        forall|j: int|
            0 <= j < r@.len() ==> rules::on_board(size as int, (#[trigger] r@[j]).0 as int),
{
    let mut out: Vec<(Point, Color)> = Vec::new();
    let mut i: usize = 0;
    assert(stones@.take(0) =~= Seq::<(usize, usize, Color)>::empty());
    while i < stones.len()
        invariant
            i <= stones.len(),
            2 <= size <= 19,
            out@ == inside(stones@.take(i as int), size as int),
            forall|j: int|
                0 <= j < out@.len() ==> rules::on_board(
                    size as int,
                    (#[trigger] out@[j]).0 as int,
                ),
        decreases stones.len() - i,
    {
        let (x, y, c) = stones[i];
        assert(stones@.take(i + 1).drop_last() =~= stones@.take(i as int));
        if x < size && y < size {
            proof {
                laws::law_points_and_coordinates_are_inverse(
                    size as int,
                    0,
                    x as int,
                    y as int,
                );
            }
            out.push((((y + 1) * 21 + (x + 1)) as Point, c));
        }
        i += 1;
    }
    assert(stones@.take(i as int) =~= stones@);
    out
}

fn hashes_seen(size: usize, seen: &Vec<Vec<char>>) -> (r: Vec<u64>)
    requires
        2 <= size <= 19,
    ensures
        r@ == seen_hashes(size as int, text::views(seen@)),
{
    let ghost all = text::views(seen@);
    let mut out: Vec<u64> = Vec::new();
    let mut i: usize = 0;
    assert(all.take(0) =~= Seq::<Seq<char>>::empty());
    while i < seen.len()
        invariant
            i <= seen.len(),
            2 <= size <= 19,
            all == text::views(seen@),
            out@ == seen_hashes(size as int, all.take(i as int)),
        decreases seen.len() - i,
    {
        proof {
            assert(all.take(i + 1).drop_last() =~= all.take(i as int));
            assert(all.take(i + 1).last() == seen@[i as int]@);
        }
        if let Some(hash) = rows_hash(size, &seen[i]) {
            out.push(hash);
        }
        i += 1;
    }
    assert(all.take(i as int) =~= all);
    out
}

/// Reads a request, for a board of this size where it does not say. The game that
/// comes out has no history but the one that was sent.
pub fn parse_request(body: &str, size: usize) -> (r: Result<Request, String>)
    ensures
        ({
            let f = fields_of(size as nat, body@);
            if f.playable() {
                r matches Ok(request) && {
                    &&& request.reads(f)
                    &&& request.sound()
                    &&& request.game@.board.size == f.size
                    &&& rules::all_breathe(request.game@.board.cells)
                    &&& coords::only_these(request.game@.board.cells, f.wanted())
                }
            } else {
                r matches Err(why) && why@ == bad_size(f.size)
            }
        }),
{
    let f: Fields = read_fields(body, size);
    let ghost said = f@;
    if !(2 <= f.size && f.size <= 19) {
        let mut out: String = "board size ".to_owned();
        text::push_number(&mut out, f.size as u64);
        out.append(" is out of range");
        return Err(out);
    }
    let wanted: Vec<(Point, Color)> = stones_inside(&f.stones, f.size);
    let mut board: Board = Board::new(f.size);
    coords::place_stones(&mut board, &wanted);
    board.settle();
    let ko: Option<Point> = match &f.ko {
        Some(word) => match coords::read_move(&board, word) {
            Some(Move::Play(pt)) => {
                proof {
                    coords::lemma_named_move(board@.size, word@);
                }
                Some(pt)
            },
            _ => None,
        },
        None => None,
    };
    board.resume(f.to_move, ko);
    let dropped: Vec<Point> = coords::missing_stones(&board, &wanted);
    let seen: Vec<u64> = hashes_seen(f.size, &f.seen);
    proof {
        lemma_quiet(said);
        coords::lemma_only_these(f.size as int, wanted@);
        laws::lemma_stones_finite(board@.cells);
    }
    let game: Game<()> = Game::resumed(board, (), seen);
    Ok(Request { game, komi: f.komi, time: f.time, move_first: f.move_first, dropped })
}

/// Setting up stones takes no prisoners, passes no turn and keeps the size.
proof fn lemma_quiet(f: FieldsState)
    ensures
        f.position().black_prisoners == 0,
        f.position().white_prisoners == 0,
        f.position().passes == 0,
        f.position().size == f.size,
{
    lemma_set_up_quiet(Position::empty(f.size as int), f.wanted());
}

proof fn lemma_set_up_quiet(pos: Position, stones: Seq<(Point, Color)>)
    ensures
        coords::set_up(pos, stones).black_prisoners == pos.black_prisoners,
        coords::set_up(pos, stones).white_prisoners == pos.white_prisoners,
        coords::set_up(pos, stones).passes == pos.passes,
        coords::set_up(pos, stones).size == pos.size,
    decreases stones.len(),
{
    if stones.len() > 0 {
        lemma_set_up_quiet(pos, stones.drop_last());
    }
}

/// The board as the rules leave it, for the page to draw, and with it the ko point
/// if the last capture left one. The two travel together so that no answer can
/// carry the position without it.
pub open spec fn board_lines(pos: Position) -> Seq<char> {
    "board "@ + text::decimal(pos.size as nat) + " "@ + board_text(pos) + "\n"@ + match pos.ko {
        Some(pt) => "ko "@ + coords::move_name(Move::Play(pt)) + "\n"@,
        None => Seq::empty(),
    }
}

pub fn board_line(board: &Board) -> (r: String)
    requires
        board@.wf(),
        ko_on_board(board@),
    ensures
        r@ == board_lines(board@),
{
    let mut out: String = "board ".to_owned();
    text::push_number(&mut out, board.size() as u64);
    out.append(" ");
    out.append(board_rows(board).as_str());
    out.append("\n");
    if let Some(pt) = board.ko_point() {
        let name: String = coords::format_move(board, Move::Play(pt));
        let ghost before = out@;
        out.append("ko ");
        out.append(name.as_str());
        out.append("\n");
        assert(out@ =~= before + ("ko "@ + name@ + "\n"@));
    } else {
        assert(out@ + Seq::<char>::empty() =~= out@);
    }
    out
}

/// Why a move was refused, in the page's voice.
pub open spec fn refusal_of(why: Rejected) -> Seq<char> {
    match why {
        Rejected::Rules(why) => "that move is "@ + gtp::illegal_name(why),
        Rejected::Superko => "that repeats a position this game has already been in"@,
    }
}

pub fn refusal(why: Rejected) -> (r: String)
    ensures
        r@ == refusal_of(why),
{
    match why {
        Rejected::Rules(why) => {
            let mut out: String = "that move is ".to_owned();
            out.append(gtp::illegal_text(why));
            out
        },
        Rejected::Superko => "that repeats a position this game has already been in".to_owned(),
    }
}

/// The line that says whose turn it is.
pub open spec fn turn_line(c: Color) -> Seq<char> {
    match c {
        Color::Black => "tomove b\n"@,
        Color::White => "tomove w\n"@,
    }
}

fn turn_text(c: Color) -> (r: &'static str)
    ensures
        r@ == turn_line(c),
{
    match c {
        Color::Black => "tomove b\n",
        Color::White => "tomove w\n",
    }
}

/// An answer that is an error.
pub open spec fn error_line(why: Seq<char>) -> Seq<char> {
    "error "@ + why + "\n"@
}

fn error_text(why: &str) -> (r: String)
    ensures
        r@ == error_line(why@),
{
    let mut out: String = "error ".to_owned();
    out.append(why);
    out.append("\n");
    out
}

/// What is said of a vertex that is none.
pub open spec fn not_a_point(vertex: Seq<char>) -> Seq<char> {
    "error `"@ + vertex + "` is not a point on this board\n"@
}

/// The outcome of making the move that a vertex names: the game after it, or the
/// answer that refuses it.
pub open spec fn first_move(game: GameState, vertex: Seq<char>) -> Result<GameState, Seq<char>> {
    match coords::named_move(game.board.size, vertex) {
        None => Err(not_a_point(vertex)),
        Some(mv) => match game.outcome(mv) {
            Ok(next) => Ok(next),
            Err(why) => Err(board_lines(game.board) + error_line(refusal_of(why))),
        },
    }
}

proof fn lemma_moved(game: GameState, mv: Move)
    requires
        game.wf(),
        ko_on_board(game.board),
        game.outcome(mv) is Ok,
    ensures
        ko_on_board(game.outcome(mv)->Ok_0.board),
        game.outcome(mv)->Ok_0.board.size == game.board.size,
{
    if let Move::Play(pt) = mv {
        if game.board.after_stone(pt).ko is Some {
            laws::law_ko_forbids_the_retake(game.board, pt, game.board.to_move);
            let next = game.board.after_stone(pt);
            let ko = next.ko->0;
            assert(next.illegal(ko, game.board.to_move) == Some(Illegal::Ko));
            assert(next.on_board(ko as int));
        }
    }
}

/// Makes the move that a vertex names, or says in an answer why not.
fn make_first(game: &mut Game<()>, vertex: &Vec<char>) -> (r: Result<Move, String>)
    requires
        old(game)@.wf(),
        old(game)@.board.roomy(),
        ko_on_board(old(game)@.board),
    ensures
        final(game)@.wf(),
        final(game)@.board.size == old(game)@.board.size,
        ko_on_board(final(game)@.board),
        mcts::load(final(game)@.board) <= mcts::load(old(game)@.board) + 1,
        final(game)@.board.passes <= old(game)@.board.passes + 1,
        match first_move(old(game)@, vertex@) {
            Ok(next) => r matches Ok(mv) && final(game)@ == next && coords::named_move(
                old(game)@.board.size,
                vertex@,
            ) == Some(mv),
            Err(why) => r matches Err(e) && e@ == why && final(game)@ == old(game)@,
        },
{
    let mv: Move = match coords::read_move(game.board(), vertex) {
        None => {
            let mut out: String = "error `".to_owned();
            text::push_chars(&mut out, vertex);
            out.append("` is not a point on this board\n");
            return Err(out);
        },
        Some(mv) => mv,
    };
    proof {
        coords::lemma_named_move(game@.board.size, vertex@);
        game.lemma_counts();
        mcts::lemma_load(game@.board, mv);
        if game@.outcome(mv) is Ok {
            lemma_moved(game@, mv);
        }
    }
    match game.play(mv) {
        Ok(()) => Ok(mv),
        Err(why) => {
            let mut out: String = board_line(game.board());
            out.append(error_text(refusal(why).as_str()).as_str());
            Err(out)
        },
    }
}

/// What the move in a request is answered.
pub open spec fn move_answer(f: FieldsState) -> Seq<char> {
    if !f.playable() {
        error_line(bad_size(f.size))
    } else {
        match f.move_first {
            None => "error no move given\n"@,
            Some(vertex) => match first_move(f.game(), vertex) {
                Err(answer) => answer,
                Ok(next) => {
                    let mv = coords::named_move(f.size as int, vertex)->0;
                    board_lines(next.board) + ("last "@ + coords::move_name(mv) + "\n"@)
                        + turn_line(next.board.to_move)
                },
            },
        }
    }
}

/// Plays the person's move and nothing else.
///
/// This is separate from a whole turn so that a stone appears the moment it is
/// tapped. Doing both halves of a turn in one request meant the board sat
/// unchanged for however long the engine thought, which reads as a dropped tap.
/// Splitting it also keeps the rules in charge of the instant half: a capture
/// shows straight away and correctly, which drawing it optimistically in the
/// page could not manage without knowing the rules there.
pub fn make_move(body: &str, size: usize) -> (r: String)
    ensures
        r@ == move_answer(fields_of(size as nat, body@)),
{
    let mut request: Request = match parse_request(body, size) {
        Ok(r) => r,
        Err(why) => {
            return error_text(why.as_str());
        },
    };
    let vertex: Vec<char> = match &request.move_first {
        None => {
            return "error no move given\n".to_owned();
        },
        Some(v) => copy_word(v),
    };
    let mv: Move = match make_first(&mut request.game, &vertex) {
        Err(answer) => {
            return answer;
        },
        Ok(mv) => mv,
    };
    proof {
        coords::lemma_named_move(request.game@.board.size, vertex@);
    }
    let mut out: String = board_line(request.game.board());
    let name: String = coords::format_move(request.game.board(), mv);
    let mut last: String = "last ".to_owned();
    last.append(name.as_str());
    last.append("\n");
    out.append(last.as_str());
    out.append(turn_text(request.game.to_move()));
    out
}

/// The game that the engine is to answer in a turn, or the answer where it does not
/// come to that.
pub open spec fn turn_start(f: FieldsState) -> Result<GameState, Seq<char>> {
    if !f.playable() {
        Err(error_line(bad_size(f.size)))
    } else {
        match f.move_first {
            None => Ok(f.game()),
            Some(vertex) => first_move(f.game(), vertex),
        }
    }
}

/// Starts a turn: plays the move the person made, if there is one. What comes back
/// is the request with the game that the engine is to answer, or the answer where
/// it does not come to that.
pub fn start_turn(body: &str, size: usize) -> (r: Result<Request, String>)
    ensures
        ({
            let f = fields_of(size as nat, body@);
            match turn_start(f) {
                Err(answer) => r matches Err(e) && e@ == answer,
                Ok(game) => r matches Ok(request) && {
                    &&& request.game@ == game
                    &&& game.wf()
                    &&& game.board.roomy()
                    &&& ko_on_board(game.board)
                    &&& text::views(request.komi@) == f.komi
                    &&& text::views(request.time@) == f.time
                },
            }
        }),
{
    let mut request: Request = match parse_request(body, size) {
        Ok(r) => r,
        Err(why) => {
            return Err(error_text(why.as_str()));
        },
    };
    let vertex: Option<Vec<char>> = match &request.move_first {
        None => None,
        Some(v) => Some(copy_word(v)),
    };
    if let Some(v) = vertex {
        match make_first(&mut request.game, &v) {
            Err(answer) => {
                return Err(answer);
            },
            Ok(_) => {},
        }
    }
    Ok(request)
}

/// What the game comes to when the engine offers `mv`, and the move that counts as
/// played. The search works a bare board and knows nothing of the history, so its
/// move can still repeat a position. Passing is the honest answer there, since a
/// pass can never repeat one, where calling it illegal would leave the turn with
/// the engine and the game stuck.
pub open spec fn engine_move(game: GameState, mv: Move) -> (GameState, Option<Move>) {
    match game.outcome(mv) {
        Ok(next) => (next, Some(mv)),
        Err(Rejected::Superko) => (game.outcome(Move::Pass)->Ok_0, Some(Move::Pass)),
        Err(Rejected::Rules(_)) => (game, None),
    }
}

/// What a turn is answered when the engine offers `mv`.
pub open spec fn turn_answer(game: GameState, mv: Move, source: Seq<char>) -> Seq<char> {
    let (next, played) = engine_move(game, mv);
    board_lines(next.board) + match played {
        Some(mv) => "played "@ + coords::move_name(mv) + "\nlast "@ + coords::move_name(mv)
            + "\nsource "@ + source + "\n"@,
        None => "error the engine offered "@ + coords::move_name(mv) + ", which is illegal\n"@,
    } + turn_line(next.board.to_move)
}

/// Ends a turn with the move that the engine offers.
pub fn finish_turn(game: &mut Game<()>, mv: Move, source: &str) -> (r: String)
    requires
        old(game)@.wf(),
        old(game)@.board.roomy(),
        ko_on_board(old(game)@.board),
        mv matches Move::Play(pt) ==> old(game)@.board.on_board(pt as int),
    ensures
        r@ == turn_answer(old(game)@, mv, source@),
        final(game)@ == (engine_move(old(game)@, mv)).0,
        final(game)@.wf(),
{
    let ghost was = game@;
    proof {
        game.lemma_counts();
        mcts::lemma_load(game@.board, mv);
        mcts::lemma_load(game@.board, Move::Pass);
        lemma_moved(was, Move::Pass);
        if was.outcome(mv) is Ok {
            lemma_moved(was, mv);
        }
    }
    let played: Option<Move> = match game.play(mv) {
        Ok(()) => Some(mv),
        Err(Rejected::Superko) => {
            let _ = game.play(Move::Pass);
            Some(Move::Pass)
        },
        Err(Rejected::Rules(_)) => None,
    };
    let mut out: String = board_line(game.board());
    let mut said: String = String::new();
    match played {
        Some(mv) => {
            let name: String = coords::format_move(game.board(), mv);
            said.append("played ");
            said.append(name.as_str());
            said.append("\nlast ");
            said.append(name.as_str());
            said.append("\nsource ");
            said.append(source);
            said.append("\n");
            assert(said@ =~= "played "@ + name@ + "\nlast "@ + name@ + "\nsource "@ + source@
                + "\n"@);
        },
        None => {
            let name: String = coords::format_move(game.board(), mv);
            said.append("error the engine offered ");
            said.append(name.as_str());
            said.append(", which is illegal\n");
            assert(said@ =~= "error the engine offered "@ + name@ + ", which is illegal\n"@);
        },
    }
    out.append(said.as_str());
    out.append(turn_text(game.to_move()));
    out
}

/// What a turn is answered when the engine fails.
pub fn failed_turn(game: &Game<()>, why: &str) -> (r: String)
    requires
        game@.wf(),
        ko_on_board(game@.board),
    ensures
        r@ == board_lines(game@.board) + error_line(why@) + turn_line(game@.board.to_move),
{
    let mut out: String = board_line(game.board());
    out.append(error_text(why).as_str());
    out.append(turn_text(game.to_move()));
    out
}

/// A ko survives a request that rebuilds the board: where the ko point came along,
/// a move there is refused for it.
pub proof fn law_ko_travels_with_the_request(f: FieldsState, pt: Point, vertex: Seq<char>)
    requires
        f.playable(),
        f.ko_point() == Some(pt),
        f.position().cells[pt as int] == Cell::Empty,
        coords::named_move(f.size as int, vertex) == Some(Move::Play(pt)),
    ensures
        first_move(f.game(), vertex) == Err::<GameState, Seq<char>>(
            board_lines(f.position()) + error_line("that move is "@ + "Ko"@),
        ),
{
    lemma_quiet(f);
    coords::lemma_named_move(f.size as int, vertex);
}

proof fn lemma_seen(size: int, seen: Seq<Seq<char>>, i: int)
    requires
        0 <= i < seen.len(),
        shown_hash(size, seen[i]) is Some,
    ensures
        seen_hashes(size, seen).contains(shown_hash(size, seen[i])->0),
    decreases seen.len(),
{
    let less = seen.drop_last();
    let all = seen_hashes(size, seen);
    let before = seen_hashes(size, less);
    let hash = shown_hash(size, seen[i])->0;
    if i < less.len() {
        lemma_seen(size, less, i);
        let k = choose|k: int| 0 <= k < before.len() && before[k] == shown_hash(size, less[i])->0;
        assert(all[k] == hash);
    } else {
        assert(all[before.len() as int] == hash);
    }
}

/// The history that comes along is held to: a play that the rules allow but that
/// brings back a position of it is refused.
pub proof fn law_seen_positions_are_refused(
    f: FieldsState,
    vertex: Seq<char>,
    pt: Point,
    i: int,
)
    requires
        f.playable(),
        coords::named_move(f.size as int, vertex) == Some(Move::Play(pt)),
        f.position().outcome(Move::Play(pt)) is Ok,
        0 <= i < f.seen.len(),
        shown_hash(f.size as int, f.seen[i]) == Some(
            f.position().outcome(Move::Play(pt))->Ok_0.hash,
        ),
    ensures
        first_move(f.game(), vertex) == Err::<GameState, Seq<char>>(
            board_lines(f.position()) + error_line(
                "that repeats a position this game has already been in"@,
            ),
        ),
{
    lemma_quiet(f);
    lemma_seen(f.size as int, f.seen, i);
    let hashes = seen_hashes(f.size as int, f.seen);
    let hash = f.position().outcome(Move::Play(pt))->Ok_0.hash;
    let k = choose|k: int| 0 <= k < hashes.len() && hashes[k] == hash;
    assert(f.game().seen[k + 1] == hash);
}

/// The engine never stalls a game: whatever it offers that the rules allow, the
/// turn moves on, and where its move would have repeated a position the stones stay
/// as they were.
pub proof fn law_engine_turn_moves_on(game: GameState, mv: Move)
    requires
        game.board.outcome(mv) is Ok,
    ensures
        ({
            let (next, played) = engine_move(game, mv);
            &&& played is Some
            &&& next.board.to_move == game.board.to_move.spec_other()
            &&& game.outcome(mv) is Err ==> played == Some(Move::Pass) && next.board.cells
                == game.board.cells
        }),
{
}

/// There is always a point left to think about: no request that can be played on
/// describes a full board, nor does the move that comes with it fill one.
pub proof fn law_requests_leave_room(f: FieldsState)
    requires
        f.playable(),
    ensures
        !f.position().is_full(),
        turn_start(f) matches Ok(game) ==> !game.board.is_full(),
{
    let built = coords::set_up(Position::empty(f.size as int), f.wanted());
    let pos = f.position();
    coords::lemma_only_these(f.size as int, f.wanted());
    laws::law_settled_boards_breathe(built);
    lemma_quiet(f);
    laws::law_breathing_boards_have_room(pos);
    if let Some(vertex) = f.move_first {
        if let Some(mv) = coords::named_move(pos.size, vertex) {
            if pos.outcome(mv) is Ok {
                laws::law_moves_keep_the_board_sound(pos, mv);
                if let Move::Play(pt) = mv {
                    laws::law_legal_play_keeps_breath(pos.size, pos.cells, pt as int, pos.to_move);
                }
                laws::law_breathing_boards_have_room(pos.outcome(mv)->Ok_0);
            }
        }
    }
}

/// The names of some points.
pub open spec fn point_names(points: Seq<Point>) -> Seq<Seq<char>> {
    points.map_values(|pt: Point| coords::move_name(Move::Play(pt)))
}

/// What an analysis starts with: the board, and the stones that were dropped.
pub open spec fn analysis_head(f: FieldsState) -> Seq<char> {
    board_lines(f.position()) + if f.dropped().len() > 0 {
        "dropped "@ + text::join(point_names(f.dropped()), " "@) + "\n"@
    } else {
        Seq::empty()
    }
}

/// What comes of a request for analysis before the engine is asked: the start of
/// the answer, or the whole of it.
pub open spec fn analysis_start(f: FieldsState) -> Result<Seq<char>, Seq<char>> {
    if !f.playable() {
        Err(error_line(bad_size(f.size)))
    } else {
        Ok(analysis_head(f))
    }
}

/// The names of some points of a board.
pub fn name_points(board: &Board, points: &Vec<Point>) -> (r: Vec<String>)
    requires
        board@.wf(),
        forall|i: int|
            0 <= i < points@.len() ==> board@.on_board(#[trigger] points@[i] as int),
    ensures
        text::string_views(r@) == point_names(points@),
{
    let mut out: Vec<String> = Vec::new();
    let ghost all = point_names(points@);
    let mut i: usize = 0;
    assert(text::string_views(out@) =~= all.take(0));
    while i < points.len()
        invariant
            i <= points.len(),
            board@.wf(),
            all == point_names(points@),
            forall|i: int|
                0 <= i < points@.len() ==> board@.on_board(#[trigger] points@[i] as int),
            text::string_views(out@) == all.take(i as int),
        decreases points.len() - i,
    {
        let ghost before = text::string_views(out@);
        assert(board@.on_board(points@[i as int] as int));
        let name: String = coords::format_move(board, Move::Play(points[i]));
        let ghost shown = name@;
        out.push(name);
        proof {
            assert(text::string_views(out@) =~= before.push(shown));
            assert(all.take(i + 1) =~= before.push(shown));
        }
        i += 1;
    }
    assert(all.take(i as int) =~= all);
    out
}

/// Starts an analysis: the request and the start of its answer, or the whole answer
/// where the engine is not to be asked.
pub fn start_analysis(body: &str, size: usize) -> (r: Result<(Request, String), String>)
    ensures
        ({
            let f = fields_of(size as nat, body@);
            match analysis_start(f) {
                Err(answer) => r matches Err(e) && e@ == answer,
                Ok(head) => r matches Ok((request, out)) && out@ == head && request.reads(f)
                    && request.sound(),
            }
        }),
{
    let request: Request = match parse_request(body, size) {
        Ok(r) => r,
        Err(why) => {
            return Err(error_text(why.as_str()));
        },
    };
    let ghost f = fields_of(size as nat, body@);
    let mut out: String = board_line(request.game.board());
    if request.dropped.len() > 0 {
        let names: Vec<String> = name_points(request.game.board(), &request.dropped);
        let mut line: String = "dropped ".to_owned();
        line.append(text::joined(&names, " ").as_str());
        line.append("\n");
        out.append(line.as_str());
    } else {
        assert(out@ + Seq::<char>::empty() =~= out@);
    }
    assert(out@ == analysis_head(f));
    Ok((request, out))
}

/// A move as an answer shows it.
pub struct Shown {
    pub mv: Move,
    /// The win rate, as it is to be written.
    pub winrate: String,
    pub visits: u64,
    pub pv: Vec<Move>,
}

/// What a move shown says.
pub struct ShownState {
    pub mv: Move,
    pub winrate: Seq<char>,
    pub visits: u64,
    pub pv: Seq<Move>,
}

impl View for Shown {
    type V = ShownState;

    open spec fn view(&self) -> ShownState {
        ShownState { mv: self.mv, winrate: self.winrate@, visits: self.visits, pv: self.pv@ }
    }
}

pub open spec fn shown_views(s: Seq<Shown>) -> Seq<ShownState> {
    Seq::new(s.len(), |i: int| s[i]@)
}

/// Every move that would be written has a name.
pub open spec fn has_names(s: ShownState) -> bool {
    &&& coords::has_name(s.mv)
    &&& forall|i: int| 0 <= i < s.pv.len() ==> coords::has_name(#[trigger] s.pv[i])
}

pub open spec fn line_names(pv: Seq<Move>) -> Seq<Seq<char>> {
    pv.map_values(|mv: Move| coords::move_name(mv))
}

/// The line of an answer that shows a move.
pub open spec fn shown_line(s: ShownState) -> Seq<char> {
    "move "@ + coords::move_name(s.mv) + " "@ + s.winrate + " "@ + text::decimal(s.visits as nat)
        + " "@ + text::join(line_names(s.pv), " "@) + "\n"@
}

/// The lines that show the first `n` moves; those that were never visited are left
/// out, where `visited` says so.
pub open spec fn shown_lines(all: Seq<ShownState>, n: nat, visited: bool) -> Seq<char>
    decreases n,
{
    if n == 0 {
        Seq::empty()
    } else {
        let before = shown_lines(all, (n - 1) as nat, visited);
        if visited && all[n - 1].visits == 0 {
            before
        } else {
            before + shown_line(all[n - 1])
        }
    }
}

/// How many moves an answer shows at most.
pub open spec fn at_most_six(n: nat) -> nat {
    if n < 6 {
        n
    } else {
        6
    }
}

pub fn name_line(board: &Board, pv: &Vec<Move>) -> (r: String)
    requires
        forall|i: int| 0 <= i < pv@.len() ==> coords::has_name(#[trigger] pv@[i]),
    ensures
        r@ == text::join(line_names(pv@), " "@),
{
    let mut names: Vec<String> = Vec::new();
    let ghost all = line_names(pv@);
    let mut i: usize = 0;
    assert(text::string_views(names@) =~= all.take(0));
    while i < pv.len()
        invariant
            i <= pv.len(),
            all == line_names(pv@),
            forall|i: int| 0 <= i < pv@.len() ==> coords::has_name(#[trigger] pv@[i]),
            text::string_views(names@) == all.take(i as int),
        decreases pv.len() - i,
    {
        let ghost before = text::string_views(names@);
        let name: String = coords::format_move(board, pv[i]);
        let ghost shown = name@;
        names.push(name);
        proof {
            assert(text::string_views(names@) =~= before.push(shown));
            assert(all.take(i + 1) =~= before.push(shown));
        }
        i += 1;
    }
    assert(all.take(i as int) =~= all);
    text::joined(&names, " ")
}

fn push_shown(out: &mut String, board: &Board, all: &Vec<Shown>, visited: bool)
    requires
        forall|i: int| 0 <= i < all@.len() ==> has_names(#[trigger] shown_views(all@)[i]),
    ensures
        final(out)@ == old(out)@ + shown_lines(
            shown_views(all@),
            at_most_six(all@.len()),
            visited,
        ),
{
    let ghost views = shown_views(all@);
    let mut i: usize = 0;
    assert(out@ + shown_lines(views, 0, visited) =~= out@);
    while i < all.len() && i < 6
        invariant
            i <= all.len(),
            i <= 6,
            views == shown_views(all@),
            forall|i: int| 0 <= i < all@.len() ==> has_names(#[trigger] views[i]),
            out@ == old(out)@ + shown_lines(views, i as nat, visited),
        decreases all.len() - i,
    {
        let ghost before = out@;
        let s: &Shown = &all[i];
        proof {
            assert(has_names(views[i as int]));
            assert(views[i as int] == s@);
            assert forall|k: int| 0 <= k < s.pv@.len() implies coords::has_name(
                #[trigger] s.pv@[k],
            ) by {
                assert(coords::has_name(views[i as int].pv[k]));
            }
        }
        if !(visited && s.visits == 0) {
            let mut line: String = "move ".to_owned();
            line.append(coords::format_move(board, s.mv).as_str());
            line.append(" ");
            line.append(s.winrate.as_str());
            line.append(" ");
            text::push_number(&mut line, s.visits);
            line.append(" ");
            line.append(name_line(board, &s.pv).as_str());
            line.append("\n");
            assert(line@ == shown_line(s@));
            out.append(line.as_str());
            assert(out@ =~= old(out)@ + (shown_lines(views, i as nat, visited) + shown_line(s@)));
        }
        i += 1;
    }
}

/// What another engine has to say: where it comes from, its moves, or its best move
/// alone where it has no analysis. Sending that as a move with a win rate of zero
/// would read as "losing", which is not what an absent number means.
pub fn advice_lines(board: &Board, source: &str, best: Move, all: &Vec<Shown>) -> (r: String)
    requires
        coords::has_name(best),
        forall|i: int| 0 <= i < all@.len() ==> has_names(#[trigger] shown_views(all@)[i]),
    ensures
        r@ == "source "@ + source@ + "\n"@ + (if all@.len() == 0 {
            "best "@ + coords::move_name(best) + "\n"@
        } else {
            Seq::empty()
        }) + shown_lines(shown_views(all@), at_most_six(all@.len()), false),
{
    let mut out: String = "source ".to_owned();
    out.append(source);
    out.append("\n");
    if all.len() == 0 {
        let mut line: String = "best ".to_owned();
        line.append(coords::format_move(board, best).as_str());
        line.append("\n");
        out.append(line.as_str());
    } else {
        assert(out@ + Seq::<char>::empty() =~= out@);
    }
    push_shown(&mut out, board, all, false);
    out
}

/// What the built-in search has to say: where it comes from, and those of its first
/// moves that it has visited.
pub fn search_lines(board: &Board, source: &str, all: &Vec<Shown>) -> (r: String)
    requires
        forall|i: int| 0 <= i < all@.len() ==> has_names(#[trigger] shown_views(all@)[i]),
    ensures
        r@ == "source "@ + source@ + "\n"@ + shown_lines(
            shown_views(all@),
            at_most_six(all@.len()),
            true,
        ),
{
    let mut out: String = "source ".to_owned();
    out.append(source);
    out.append("\n");
    push_shown(&mut out, board, all, true);
    out
}

/// Is this an address of the range 100.64.0.0/10, which is what a tailnet hands
/// out?
pub open spec fn is_tailnet(ip: Seq<char>) -> bool {
    let parts = text::split(ip, '.');
    &&& parts.len() >= 2
    &&& text::number_upto(parts[0], 255) == Some(100nat)
    &&& text::number_upto(parts[1], 255) matches Some(b) && 64 <= b < 128
}

/// The address on a line of a network listing, if it is one to show.
pub open spec fn address_in(line: Seq<char>) -> Option<Seq<char>> {
    let t = text::trim(line);
    if "inet "@.is_prefix_of(t) {
        let w = text::words(t.skip(5));
        if w.len() == 0 || w[0] == "127.0.0.1"@ || w[0].contains(':') {
            None
        } else {
            Some(w[0])
        }
    } else {
        None
    }
}

/// The addresses on the first `n` lines that are, or are not, of a tailnet.
pub open spec fn addresses_upto(lines: Seq<Seq<char>>, n: nat, tailnet: bool) -> Seq<Seq<char>>
    decreases n,
{
    if n == 0 {
        Seq::empty()
    } else {
        let before = addresses_upto(lines, (n - 1) as nat, tailnet);
        match address_in(lines[n - 1]) {
            Some(ip) if is_tailnet(ip) == tailnet => before.push(ip),
            _ => before,
        }
    }
}

/// The addresses in a network listing: those of a tailnet first, because reaching
/// the board over a tailnet is both easier and narrower than opening it to a whole
/// network, and the machine itself last.
pub open spec fn addresses_of(listing: Seq<char>) -> Seq<Seq<char>> {
    let lines = text::lines(listing);
    (addresses_upto(lines, lines.len(), true) + addresses_upto(lines, lines.len(), false)).push(
        "127.0.0.1"@,
    )
}

fn in_tailnet(ip: &Vec<char>) -> (r: bool)
    ensures
        r == is_tailnet(ip@),
{
    let parts: Vec<Vec<char>> = text::split_at(ip, '.');
    let ghost all = text::views(parts@);
    if parts.len() < 2 {
        return false;
    }
    assert(all[0] == parts@[0]@ && all[1] == parts@[1]@);
    match (text::parse_number(&parts[0], 255), text::parse_number(&parts[1], 255)) {
        (Some(a), Some(b)) => a == 100 && 64 <= b && b < 128,
        _ => false,
    }
}

fn has_colon(s: &Vec<char>) -> (r: bool)
    ensures
        r == s@.contains(':'),
{
    let mut i: usize = 0;
    while i < s.len()
        invariant
            i <= s.len(),
            forall|j: int| 0 <= j < i ==> #[trigger] s@[j] != ':',
        decreases s.len() - i,
    {
        if s[i] == ':' {
            return true;
        }
        i += 1;
    }
    false
}

fn read_address(line: &Vec<char>) -> (r: Option<Vec<char>>)
    ensures
        word_view(r) == address_in(line@),
{
    let t: Vec<char> = text::trimmed(line);
    if !text::starts_with(&t, "inet ") {
        return None;
    }
    proof {
        reveal_strlit("inet ");
    }
    let rest: Vec<char> = text::slice(&t, 5, t.len());
    assert(rest@ =~= t@.skip(5));
    let words: Vec<Vec<char>> = text::words_of(&rest);
    let ghost all = text::views(words@);
    if words.len() == 0 {
        return None;
    }
    assert(all[0] == words@[0]@);
    if text::same(&words[0], "127.0.0.1") || has_colon(&words[0]) {
        return None;
    }
    Some(copy_word(&words[0]))
}

/// The addresses in a network listing, so the page can be opened from a phone
/// without anyone having to go and look them up.
pub fn addresses(listing: &str) -> (r: Vec<String>)
    ensures
        text::string_views(r@) == addresses_of(listing@),
{
    let lines: Vec<Vec<char>> = text::lines_of(&text::chars_of(listing));
    let ghost all = text::views(lines@);
    let mut tailnet: Vec<String> = Vec::new();
    let mut lan: Vec<String> = Vec::new();
    let mut i: usize = 0;
    proof {
        assert(text::string_views(tailnet@) =~= addresses_upto(all, 0, true));
        assert(text::string_views(lan@) =~= addresses_upto(all, 0, false));
    }
    while i < lines.len()
        invariant
            i <= lines.len(),
            all == text::views(lines@),
            text::string_views(tailnet@) == addresses_upto(all, i as nat, true),
            text::string_views(lan@) == addresses_upto(all, i as nat, false),
        decreases lines.len() - i,
    {
        assert(all[i as int] == lines@[i as int]@);
        if let Some(ip) = read_address(&lines[i]) {
            let ghost first = text::string_views(tailnet@);
            let ghost second = text::string_views(lan@);
            let shown: String = text::text_of(&ip);
            if in_tailnet(&ip) {
                tailnet.push(shown);
                assert(text::string_views(tailnet@) =~= first.push(ip@));
            } else {
                lan.push(shown);
                assert(text::string_views(lan@) =~= second.push(ip@));
            }
        }
        i += 1;
    }
    let ghost first = text::string_views(tailnet@);
    let ghost second = text::string_views(lan@);
    tailnet.append(&mut lan);
    tailnet.push("127.0.0.1".to_owned());
    assert(text::string_views(tailnet@) =~= (first + second).push("127.0.0.1"@));
    tailnet
}

} // verus!
