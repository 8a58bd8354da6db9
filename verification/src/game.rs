//! A game: the board, plus the history that positional superko and `undo` need.
//!
//! The search works on a bare `Board` with the simple ko rule, because carrying
//! a hash history through a million playouts costs more than it buys. Superko is
//! enforced here, where the moves are real.

use vstd::prelude::*;

use crate::area;
use crate::board::{Board, Color, Illegal, Move, Point, Position, MAX_SIZE};

verus! {

/// Why a game refuses a move.
#[derive(Clone, Copy, PartialEq, Eq, Debug, Structural)]
pub enum Rejected {
    Rules(Illegal),
    Superko,
}

/// What a game was before a step: the position, and how many moves had been made.
pub struct PastState {
    pub board: Position,
    pub moves: nat,
}

/// What a game says: the position, how many moves were made to reach it, what it was
/// before each step, and the positional hashes that it has stood in.
pub struct GameState {
    pub board: Position,
    pub moves: nat,
    pub history: Seq<PastState>,
    pub seen: Seq<u64>,
}

impl GameState {
    pub open spec fn wf(self) -> bool {
        &&& self.board.wf()
        &&& self.moves <= self.history.len() < self.seen.len()
        &&& forall|i: int|
            0 <= i < self.history.len() ==> (#[trigger] self.history[i]).board.wf()
                && self.history[i].moves <= i
    }

    /// What the game is, as a step leaves it behind.
    pub open spec fn past(self) -> PastState {
        PastState { board: self.board, moves: self.moves }
    }

    /// A game that starts from a position.
    pub open spec fn fresh(board: Position) -> GameState {
        GameState { board, moves: 0, history: Seq::empty(), seen: seq![board.hash] }
    }

    /// The outcome of the side to move making the move `mv`: what the board's
    /// rules say, but for a play that would bring back a position which the game
    /// has already stood in.
    pub open spec fn outcome(self, mv: Move) -> Result<GameState, Rejected> {
        match self.board.outcome(mv) {
            Err(why) => Err(Rejected::Rules(why)),
            Ok(next) => if mv is Play && self.seen.contains(next.hash) {
                Err(Rejected::Superko)
            } else {
                Ok(
                    GameState {
                        board: next,
                        moves: self.moves + 1,
                        history: self.history.push(self.past()),
                        seen: self.seen.push(next.hash),
                    },
                )
            },
        }
    }

    /// The game with a stone set up: a step that can be undone, but no move. The
    /// position that it gives is one more that the game has stood in.
    pub open spec fn after_setup(self, pt: Point, c: Color) -> GameState {
        let board = self.board.after_setup(pt as int, c);
        GameState {
            board,
            moves: self.moves,
            history: self.history.push(self.past()),
            seen: self.seen.push(board.hash),
        }
    }

    /// The game one step back, where there is a step to take back.
    pub open spec fn undone(self) -> GameState {
        if self.history.len() == 0 {
            self
        } else {
            let past = self.history.last();
            GameState {
                board: past.board,
                moves: past.moves,
                history: self.history.drop_last(),
                seen: self.seen.drop_last(),
            }
        }
    }

    /// The outcome of making the moves one after the other.
    pub open spec fn played(self, moves: Seq<Move>) -> Result<GameState, Rejected>
        decreases moves.len(),
    {
        if moves.len() == 0 {
            Ok(self)
        } else {
            match self.played(moves.drop_last()) {
                Ok(game) => game.outcome(moves.last()),
                Err(why) => Err(why),
            }
        }
    }
}

/// What a game was before a step.
struct Past {
    board: Board,
    moves: usize,
}

impl View for Past {
    type V = PastState;

    closed spec fn view(&self) -> PastState {
        PastState { board: self.board@, moves: self.moves as nat }
    }
}

/// A game with a komi. The komi is carried along: no rule looks at it.
pub struct Game<K> {
    board: Board,
    moves: usize,
    /// What the game was before each step, for `undo`.
    history: Vec<Past>,
    /// Positional hashes of every position the game has stood in.
    seen: Vec<u64>,
    pub komi: K,
}

impl<K> View for Game<K> {
    type V = GameState;

    closed spec fn view(&self) -> GameState {
        GameState {
            board: self.board@,
            moves: self.moves as nat,
            history: Seq::new(self.history@.len(), |i: int| self.history@[i]@),
            seen: self.seen@,
        }
    }
}

impl<K> Game<K> {
    /// The komi that the game carries.
    pub closed spec fn agreed_komi(&self) -> K {
        self.komi
    }

    /// A game on an empty board, Black to move.
    pub fn new(size: usize, komi: K) -> (g: Game<K>)
        requires
            2 <= size <= MAX_SIZE,
        ensures
            g@.wf(),
            g@ == GameState::fresh(Position::empty(size as int)),
            g.agreed_komi() == komi,
    {
        Game::from_board(Board::new(size), komi)
    }

    pub fn from_board(board: Board, komi: K) -> (g: Game<K>)
        requires
            board@.wf(),
        ensures
            g@.wf(),
            g@ == GameState::fresh(board@),
            g.agreed_komi() == komi,
    {
        let mut seen: Vec<u64> = Vec::new();
        seen.push(board.hash());
        let g = Game { board, moves: 0, history: Vec::new(), seen, komi };
        assert(g@.history =~= Seq::<PastState>::empty());
        assert(g@.seen =~= seq![board@.hash]);
        g
    }

    /// A game resumed from a position and the positions it has already stood
    /// in, for a caller that keeps the history itself rather than the `Game`: a
    /// stateless request, a saved game. The position given counts as seen.
    pub fn resumed(board: Board, komi: K, seen: Vec<u64>) -> (g: Game<K>)
        requires
            board@.wf(),
        ensures
            g@.wf(),
            g@ == (GameState { seen: seq![board@.hash] + seen@, ..GameState::fresh(board@) }),
            g.agreed_komi() == komi,
    {
        let mut game = Game::from_board(board, komi);
        let mut more: Vec<u64> = seen;
        game.seen.append(&mut more);
        assert(game@.history =~= Seq::<PastState>::empty());
        assert(game@.seen =~= seq![board@.hash] + seen@);
        game
    }

    pub fn board(&self) -> (r: &Board)
        ensures
            r@ == self@.board,
    {
        &self.board
    }

    pub fn to_move(&self) -> (r: Color)
        ensures
            r == self@.board.to_move,
    {
        self.board.to_move()
    }

    pub fn set_to_move(&mut self, c: Color)
        ensures
            final(self)@ == (GameState {
                board: Position { to_move: c, ko: None, ..old(self)@.board },
                ..old(self)@
            }),
            final(self).agreed_komi() == old(self).agreed_komi(),
    {
        self.board.set_to_move(c);
        assert(self@.history =~= old(self)@.history);
    }

    /// The counts of the board are no less than zero.
    pub proof fn lemma_counts(&self)
        ensures
            0 <= self@.board.black_prisoners,
            0 <= self@.board.white_prisoners,
            0 <= self@.board.passes,
    {
        self.board.lemma_ranges();
    }

    /// Starts over from a board, with the same komi.
    pub fn restart(&mut self, board: Board)
        requires
            board@.wf(),
        ensures
            final(self)@.wf(),
            final(self)@ == GameState::fresh(board@),
            final(self).agreed_komi() == old(self).agreed_komi(),
    {
        self.board = board;
        self.moves = 0;
        self.history.clear();
        self.seen.clear();
        self.seen.push(board.hash());
        assert(self@.history =~= Seq::<PastState>::empty());
        assert(self@.seen =~= seq![board@.hash]);
    }

    /// Have the counters of the board room for whatever move comes next?
    pub fn has_room(&self) -> (r: bool)
        requires
            self@.wf(),
        ensures
            r == self@.board.roomy(),
    {
        let taken: u64 = self.board.prisoners(Color::Black) as u64 + self.board.prisoners(
            Color::White,
        ) as u64;
        self.board.stone_count() as u64 + taken < u32::MAX as u64 && self.board.passes()
            < u32::MAX
    }

    /// Makes a move, or says why the game refuses it and stays as it is.
    pub fn play(&mut self, mv: Move) -> (r: Result<(), Rejected>)
        requires
            old(self)@.wf(),
            old(self)@.board.has_room(mv),
        ensures
            final(self)@.wf(),
            final(self).agreed_komi() == old(self).agreed_komi(),
            match old(self)@.outcome(mv) {
                Ok(next) => r is Ok && final(self)@ == next,
                Err(why) => r == Err::<(), Rejected>(why) && final(self)@ == old(self)@,
            },
    {
        let mut next: Board = self.board;
        match next.play(mv) {
            Err(why) => {
                return Err(Rejected::Rules(why));
            },
            Ok(()) => {},
        }
        let is_play: bool = match mv {
            Move::Play(_) => true,
            _ => false,
        };
        if is_play && self.has_seen(next.hash()) {
            return Err(Rejected::Superko);
        }
        let ghost was = self@;
        self.history.push(Past { board: self.board, moves: self.moves });
        let steps: usize = self.history.len();
        assert(self.moves < steps);
        self.seen.push(next.hash());
        self.board = next;
        self.moves += 1;
        assert(self@.history =~= was.history.push(was.past()));
        Ok(())
    }

    /// Has the game stood in a position of this hash?
    fn has_seen(&self, hash: u64) -> (r: bool)
        ensures
            r == self@.seen.contains(hash),
    {
        let mut i: usize = 0;
        while i < self.seen.len()
            invariant
                i <= self.seen.len(),
                forall|j: int| 0 <= j < i ==> #[trigger] self.seen@[j] != hash,
            decreases self.seen.len() - i,
        {
            if self.seen[i] == hash {
                return true;
            }
            i += 1;
        }
        false
    }

    /// Adds a stone to the position without it counting as a move, for entering
    /// a game that is already under way.
    pub fn setup_stone(&mut self, pt: Point, colour: Color)
        requires
            old(self)@.wf(),
            pt < crate::board::NUM_CELLS,
        ensures
            final(self)@.wf(),
            final(self)@ == old(self)@.after_setup(pt, colour),
            final(self).agreed_komi() == old(self).agreed_komi(),
    {
        let ghost was = self@;
        self.history.push(Past { board: self.board, moves: self.moves });
        self.board.setup_stone(pt, colour);
        self.seen.push(self.board.hash());
        assert(self@.history =~= was.history.push(was.past()));
    }

    /// Takes the last step back, and says whether there was one.
    pub fn undo(&mut self) -> (r: bool)
        requires
            old(self)@.wf(),
        ensures
            final(self)@.wf(),
            r == (old(self)@.history.len() > 0),
            final(self)@ == old(self)@.undone(),
            final(self).agreed_komi() == old(self).agreed_komi(),
    {
        let ghost was = self@;
        match self.history.pop() {
            Some(prev) => {
                assert(prev@ == was.history.last());
                self.board = prev.board;
                self.moves = prev.moves;
                self.seen.pop();
                assert(self@.history =~= was.history.drop_last());
                assert(self@.seen =~= was.seen.drop_last());
                true
            },
            None => false,
        }
    }

    /// How many moves have been made, those aside that were taken back.
    pub fn moves_played(&self) -> (r: usize)
        ensures
            r == self@.moves,
    {
        self.moves
    }

    /// The area score on the board, before komi: positive means Black is ahead.
    pub fn score(&self) -> (r: i32)
        requires
            self@.wf(),
        ensures
            r == area::area_margin(self@.board.cells),
    {
        self.board.score_area()
    }
}

/// Undoing a move brings back the game as it was before the move: board, record
/// of positions and all.
pub proof fn law_undo_takes_a_move_back(game: GameState, mv: Move)
    requires
        game.wf(),
        game.outcome(mv) is Ok,
    ensures
        game.outcome(mv)->Ok_0.undone() == game,
{
    let next = game.outcome(mv)->Ok_0;
    assert(next.history.drop_last() =~= game.history);
    assert(next.seen.drop_last() =~= game.seen);
}

/// Undoing a stone that was set up brings back the game as it was before it, record
/// of positions and all.
pub proof fn law_undo_takes_a_setup_back(game: GameState, pt: Point, c: Color)
    ensures
        game.after_setup(pt, c).undone() == game,
{
    let next = game.after_setup(pt, c);
    assert(next.history.drop_last() =~= game.history);
    assert(next.seen.drop_last() =~= game.seen);
}

/// A stone that is set up counts as no move: nobody has moved, passed or come to the
/// turn by it. A move that is made counts as one.
pub proof fn law_only_moves_count(game: GameState, pt: Point, c: Color, mv: Move)
    ensures
        game.after_setup(pt, c).moves == game.moves,
        game.after_setup(pt, c).board.to_move == game.board.to_move,
        game.after_setup(pt, c).board.last_move == game.board.last_move,
        game.after_setup(pt, c).board.passes == game.board.passes,
        game.outcome(mv) matches Ok(next) ==> next.moves == game.moves + 1,
{
}

/// The record holds every position that the game stands in or has stood in: what it
/// was before each step, among what had been recorded by then.
pub open spec fn keeps_record(game: GameState) -> bool {
    &&& game.history.len() < game.seen.len()
    &&& game.seen.contains(game.board.hash)
    &&& forall|i: int|
        0 <= i < game.history.len() ==> game.seen.take(
            game.seen.len() - game.history.len() + i,
        ).contains((#[trigger] game.history[i]).board.hash)
}

/// A game starts with such a record, whatever positions came along with it, and no
/// move, no stone set up, no change of turn and no undo spoils it.
pub proof fn law_record_is_kept(game: GameState, came: Seq<u64>, mv: Move, pt: Point, c: Color)
    requires
        keeps_record(game),
    ensures
        keeps_record(GameState::fresh(game.board)),
        keeps_record(
            (GameState { seen: seq![game.board.hash] + came, ..GameState::fresh(game.board) }),
        ),
        game.outcome(mv) matches Ok(next) ==> keeps_record(next),
        keeps_record(game.after_setup(pt, c)),
        keeps_record(
            (GameState { board: Position { to_move: c, ko: None, ..game.board }, ..game }),
        ),
        keeps_record(game.undone()),
{
    assert(GameState::fresh(game.board).seen[0] == game.board.hash);
    assert((seq![game.board.hash] + came)[0] == game.board.hash);
    lemma_record_grows(game, game.after_setup(pt, c));
    if game.outcome(mv) is Ok {
        lemma_record_grows(game, game.outcome(mv)->Ok_0);
    }
    let n = game.history.len();
    if n > 0 {
        let back = game.undone();
        assert(game.seen.take(game.seen.len() - n + (n - 1)) =~= back.seen);
        assert(back.seen.contains(game.history[n - 1].board.hash));
        assert forall|i: int| 0 <= i < back.history.len() implies back.seen.take(
            back.seen.len() - back.history.len() + i,
        ).contains((#[trigger] back.history[i]).board.hash) by {
            assert(back.history[i] == game.history[i]);
            assert(back.seen.take(back.seen.len() - back.history.len() + i) =~= game.seen.take(
                game.seen.len() - n + i,
            ));
        }
    }
}

proof fn lemma_record_grows(game: GameState, next: GameState)
    requires
        keeps_record(game),
        next.history == game.history.push(game.past()),
        next.seen == game.seen.push(next.board.hash),
    ensures
        keeps_record(next),
{
    let n = game.history.len();
    let m = game.seen.len();
    assert(next.seen[m as int] == next.board.hash);
    assert forall|i: int| 0 <= i < next.history.len() implies next.seen.take(
        next.seen.len() - next.history.len() + i,
    ).contains((#[trigger] next.history[i]).board.hash) by {
        if i < n {
            assert(next.history[i] == game.history[i]);
            assert(next.seen.take(m - n + i) =~= game.seen.take(m - n + i));
        } else {
            assert(next.seen.take(m as int) =~= game.seen);
        }
    }
}

/// A play never brings back stones that the game has stood in, whether moves led
/// there or stones that were set up.
pub proof fn law_no_play_brings_a_position_back(game: GameState, pt: Point, i: int)
    requires
        game.wf(),
        keeps_record(game),
        game.outcome(Move::Play(pt)) is Ok,
    ensures
        game.outcome(Move::Play(pt))->Ok_0.board.cells != game.board.cells,
        0 <= i < game.history.len() ==> game.outcome(Move::Play(pt))->Ok_0.board.cells
            != game.history[i].board.cells,
{
    let next = game.outcome(Move::Play(pt))->Ok_0;
    crate::laws::law_moves_keep_the_board_sound(game.board, Move::Play(pt));
    if 0 <= i < game.history.len() {
        let m = game.seen.len() - game.history.len() + i;
        let h = game.history[i].board.hash;
        let j = choose|j: int| 0 <= j < m && game.seen.take(m)[j] == h;
        assert(game.seen[j] == h);
        assert(game.history[i].board.wf());
    }
}

/// A pass or a resignation is never refused, and leaves the stones alone.
pub proof fn law_passing_is_always_allowed(game: GameState, mv: Move)
    requires
        !(mv is Play),
    ensures
        game.outcome(mv) is Ok,
        game.outcome(mv)->Ok_0.board.cells == game.board.cells,
{
}

proof fn lemma_record(game: GameState, moves: Seq<Move>, i: int)
    requires
        game.wf(),
        game.seen.contains(game.board.hash),
        game.played(moves) is Ok,
        0 <= i <= moves.len(),
    ensures
        game.played(moves)->Ok_0.wf(),
        game.played(moves.take(i)) is Ok,
        game.played(moves.take(i))->Ok_0.wf(),
        game.played(moves)->Ok_0.seen.contains(game.played(moves.take(i))->Ok_0.board.hash),
    decreases moves.len(),
{
    if moves.len() == 0 {
        assert(moves.take(i) =~= moves);
    } else {
        let before = moves.drop_last();
        let mid = game.played(before)->Ok_0;
        let end = game.played(moves)->Ok_0;
        lemma_record(game, before, if i == moves.len() { 0 } else { i });
        crate::laws::law_moves_keep_the_board_sound(mid.board, moves.last());
        assert forall|j: int| 0 <= j < end.history.len() implies (
        #[trigger] end.history[j]).board.wf() && end.history[j].moves <= j by {
            if j < mid.history.len() {
                assert(end.history[j] == mid.history[j]);
            }
        }
        if i == moves.len() {
            assert(moves.take(i) =~= moves);
            assert(end.seen[mid.seen.len() as int] == end.board.hash);
        } else {
            assert(before.take(i) =~= moves.take(i));
            let h = game.played(moves.take(i))->Ok_0.board.hash;
            let j = choose|j: int| 0 <= j < mid.seen.len() && mid.seen[j] == h;
            assert(end.seen[j] == h);
        }
    }
}

/// Positional superko: however the moves go on from a position that counts as
/// seen, a play never brings back stones that the game has stood in since.
pub proof fn law_no_play_repeats_a_position(game: GameState, moves: Seq<Move>, i: int)
    requires
        game.wf(),
        game.seen.contains(game.board.hash),
        game.played(moves) is Ok,
        moves.len() > 0,
        moves.last() is Play,
        0 <= i < moves.len(),
    ensures
        game.played(moves.take(i)) is Ok,
        game.played(moves.take(i))->Ok_0.board.cells != game.played(moves)->Ok_0.board.cells,
{
    let before = moves.drop_last();
    lemma_record(game, before, i);
    lemma_record(game, moves, i);
    assert(before.take(i) =~= moves.take(i));
}

} // verus!
