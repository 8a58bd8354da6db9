//! The command line and the terminal board. You enter the position your app is
//! showing, then enter your opponent's moves as they come, and the engine says
//! what it would play.

use vstd::prelude::*;

use crate::board::{Board, Cell, Color, Illegal, Move, Point, Position};
use crate::coords;
use crate::game::{Game, GameState, Rejected};
use crate::gtp;
use crate::mcts;
use crate::rules;
use crate::text;
use crate::web;
use crate::web::{Shown, ShownState};

verus! {

/// One thing that the command line asks for.
pub enum Setting {
    Size(usize),
    /// Komi, as it was written.
    Komi(String),
    /// Seconds of thinking time, as they were written.
    Time(String),
    Playouts(u64),
    Threads(usize),
    Me(Color),
    Diagram(String),
    Against(String),
    Engine(String),
    Port(u16),
    Bind(String),
    Games(usize),
    Verbose,
    Handicap(usize),
    Mode(String),
}

/// What a setting says.
pub enum SettingState {
    Size(usize),
    Komi(Seq<char>),
    Time(Seq<char>),
    Playouts(u64),
    Threads(usize),
    Me(Color),
    Diagram(Seq<char>),
    Against(Seq<char>),
    Engine(Seq<char>),
    Port(u16),
    Bind(Seq<char>),
    Games(usize),
    Verbose,
    Handicap(usize),
    Mode(Seq<char>),
}

impl View for Setting {
    type V = SettingState;

    open spec fn view(&self) -> SettingState {
        match *self {
            Setting::Size(n) => SettingState::Size(n),
            Setting::Komi(s) => SettingState::Komi(s@),
            Setting::Time(s) => SettingState::Time(s@),
            Setting::Playouts(n) => SettingState::Playouts(n),
            Setting::Threads(n) => SettingState::Threads(n),
            Setting::Me(c) => SettingState::Me(c),
            Setting::Diagram(s) => SettingState::Diagram(s@),
            Setting::Against(s) => SettingState::Against(s@),
            Setting::Engine(s) => SettingState::Engine(s@),
            Setting::Port(n) => SettingState::Port(n),
            Setting::Bind(s) => SettingState::Bind(s@),
            Setting::Games(n) => SettingState::Games(n),
            Setting::Verbose => SettingState::Verbose,
            Setting::Handicap(n) => SettingState::Handicap(n),
            Setting::Mode(s) => SettingState::Mode(s@),
        }
    }
}

pub open spec fn setting_views(s: Seq<Setting>) -> Seq<SettingState> {
    Seq::new(s.len(), |i: int| s[i]@)
}

/// The colour that a word names.
pub open spec fn colour_named(word: Seq<char>) -> Option<Color> {
    let w = text::lowered(word);
    if w == "b"@ || w == "black"@ || w == "x"@ {
        Some(Color::Black)
    } else if w == "w"@ || w == "white"@ || w == "o"@ {
        Some(Color::White)
    } else {
        None
    }
}

pub fn parse_colour(word: &Vec<char>) -> (r: Option<Color>)
    ensures
        r == colour_named(word@),
{
    let w: Vec<char> = text::to_lowered(word);
    if text::same(&w, "b") || text::same(&w, "black") || text::same(&w, "x") {
        Some(Color::Black)
    } else if text::same(&w, "w") || text::same(&w, "white") || text::same(&w, "o") {
        Some(Color::White)
    } else {
        None
    }
}

/// Is this an option that takes a value?
pub open spec fn takes_value(a: Seq<char>) -> bool {
    ||| a == "--size"@
    ||| a == "--komi"@
    ||| a == "--time"@
    ||| a == "--playouts"@
    ||| a == "--threads"@
    ||| a == "--me"@
    ||| a == "--diagram"@
    ||| a == "--against"@
    ||| a == "--engine"@
    ||| a == "--port"@
    ||| a == "--bind"@
    ||| a == "--games"@
    ||| a == "--handicap"@
}

/// The setting that the option `a` makes of the value `v`, if the value is of the
/// kind that it takes.
pub open spec fn setting_for(a: Seq<char>, v: Seq<char>) -> Option<SettingState> {
    if a == "--size"@ {
        match text::number_upto(v, usize::MAX as nat) {
            Some(n) => Some(SettingState::Size(n as usize)),
            None => None,
        }
    } else if a == "--komi"@ {
        Some(SettingState::Komi(v))
    } else if a == "--time"@ {
        Some(SettingState::Time(v))
    } else if a == "--playouts"@ {
        match text::number_upto(v, u64::MAX as nat) {
            Some(n) => Some(SettingState::Playouts(n as u64)),
            None => None,
        }
    } else if a == "--threads"@ {
        match text::number_upto(v, usize::MAX as nat) {
            Some(n) => Some(SettingState::Threads(n as usize)),
            None => None,
        }
    } else if a == "--me"@ {
        match colour_named(v) {
            Some(c) => Some(SettingState::Me(c)),
            None => None,
        }
    } else if a == "--diagram"@ {
        Some(SettingState::Diagram(v))
    } else if a == "--against"@ {
        Some(SettingState::Against(v))
    } else if a == "--engine"@ {
        Some(SettingState::Engine(v))
    } else if a == "--port"@ {
        match text::number_upto(v, u16::MAX as nat) {
            Some(n) => Some(SettingState::Port(n as u16)),
            None => None,
        }
    } else if a == "--bind"@ {
        Some(SettingState::Bind(v))
    } else if a == "--games"@ {
        match text::number_upto(v, usize::MAX as nat) {
            Some(n) => Some(SettingState::Games(n as usize)),
            None => None,
        }
    } else {
        match text::number_upto(v, usize::MAX as nat) {
            Some(n) => Some(SettingState::Handicap(n as usize)),
            None => None,
        }
    }
}

/// Is this a word that asks for help?
pub open spec fn asks_help(a: Seq<char>) -> bool {
    a == "--help"@ || a == "-h"@ || a == "help"@
}

/// The setting at place `i` of the arguments, or what is wrong there. A mode may be
/// given once.
pub open spec fn setting_at(args: Seq<Seq<char>>, i: int, mode_set: bool) -> Result<
    SettingState,
    Seq<char>,
> {
    let a = args[i];
    if takes_value(a) {
        if i + 1 >= args.len() {
            Err(a + " needs a value"@)
        } else {
            match setting_for(a, args[i + 1]) {
                Some(s) => Ok(s),
                None => Err("bad "@ + a),
            }
        }
    } else if a == "--verbose"@ {
        Ok(SettingState::Verbose)
    } else if asks_help(a) {
        Ok(SettingState::Mode("help"@))
    } else if a.len() > 0 && a[0] == '-' {
        Err("unknown option `"@ + a + "`"@)
    } else if !mode_set {
        Ok(SettingState::Mode(a))
    } else {
        Err("unexpected argument `"@ + a + "`"@)
    }
}

/// The settings from place `i` of the arguments on, up to the first mistake if there
/// is one.
pub open spec fn settings_from(args: Seq<Seq<char>>, i: int, mode_set: bool) -> (
    Seq<SettingState>,
    Option<Seq<char>>,
)
    decreases args.len() - i,
{
    if i < 0 || i >= args.len() {
        (Seq::empty(), None)
    } else {
        match setting_at(args, i, mode_set) {
            Err(why) => (Seq::empty(), Some(why)),
            Ok(s) => {
                let next = i + if takes_value(args[i]) {
                    2int
                } else {
                    1
                };
                let (rest, wrong) = settings_from(args, next, mode_set || s is Mode);
                (seq![s] + rest, wrong)
            },
        }
    }
}

fn is_valued(a: &Vec<char>) -> (r: bool)
    ensures
        r == takes_value(a@),
{
    text::same(a, "--size") || text::same(a, "--komi") || text::same(a, "--time") || text::same(
        a,
        "--playouts",
    ) || text::same(a, "--threads") || text::same(a, "--me") || text::same(a, "--diagram")
        || text::same(a, "--against") || text::same(a, "--engine") || text::same(a, "--port")
        || text::same(a, "--bind") || text::same(a, "--games") || text::same(a, "--handicap")
}

fn read_value(a: &Vec<char>, v: &Vec<char>) -> (r: Option<Setting>)
    requires
        takes_value(a@),
    ensures
        match r {
            Some(s) => setting_for(a@, v@) == Some(s@),
            None => setting_for(a@, v@) is None,
        },
{
    if text::same(a, "--size") {
        return match text::parse_number(v, usize::MAX as u64) {
            Some(n) => Some(Setting::Size(n as usize)),
            None => None,
        };
    }
    if text::same(a, "--komi") {
        return Some(Setting::Komi(text::text_of(v)));
    }
    if text::same(a, "--time") {
        return Some(Setting::Time(text::text_of(v)));
    }
    if text::same(a, "--playouts") {
        return match text::parse_number(v, u64::MAX) {
            Some(n) => Some(Setting::Playouts(n)),
            None => None,
        };
    }
    if text::same(a, "--threads") {
        return match text::parse_number(v, usize::MAX as u64) {
            Some(n) => Some(Setting::Threads(n as usize)),
            None => None,
        };
    }
    if text::same(a, "--me") {
        return match parse_colour(v) {
            Some(c) => Some(Setting::Me(c)),
            None => None,
        };
    }
    if text::same(a, "--diagram") {
        return Some(Setting::Diagram(text::text_of(v)));
    }
    if text::same(a, "--against") {
        return Some(Setting::Against(text::text_of(v)));
    }
    if text::same(a, "--engine") {
        return Some(Setting::Engine(text::text_of(v)));
    }
    if text::same(a, "--port") {
        return match text::parse_number(v, u16::MAX as u64) {
            Some(n) => Some(Setting::Port(n as u16)),
            None => None,
        };
    }
    if text::same(a, "--bind") {
        return Some(Setting::Bind(text::text_of(v)));
    }
    if text::same(a, "--games") {
        return match text::parse_number(v, usize::MAX as u64) {
            Some(n) => Some(Setting::Games(n as usize)),
            None => None,
        };
    }
    match text::parse_number(v, usize::MAX as u64) {
        Some(n) => Some(Setting::Handicap(n as usize)),
        None => None,
    }
}

fn quoted(before: &str, s: &Vec<char>, after: &str) -> (r: String)
    ensures
        r@ == before@ + s@ + after@,
{
    let mut out: String = before.to_owned();
    text::push_chars(&mut out, s);
    out.append(after);
    out
}

/// Reads the arguments of the command line: the settings they ask for, in order, and
/// what is wrong after those if something is.
pub fn parse_args(args: &Vec<String>) -> (r: (Vec<Setting>, Option<String>))
    ensures
        ({
            let (settings, wrong) = settings_from(text::string_views(args@), 0, false);
            &&& setting_views((r.0)@) == settings
            &&& match r.1 {
                Some(why) => wrong == Some(why@),
                None => wrong is None,
            }
        }),
{
    let ghost all = text::string_views(args@);
    let mut out: Vec<Setting> = Vec::new();
    let mut i: usize = 0;
    let mut mode_set: bool = false;
    assert(setting_views(out@) + (settings_from(all, 0, false)).0 =~= (settings_from(
        all,
        0,
        false,
    )).0);
    while i < args.len()
        invariant
            i <= args.len(),
            all == text::string_views(args@),
            (settings_from(all, 0, false)).0 == setting_views(out@) + (settings_from(
                all,
                i as int,
                mode_set,
            )).0,
            (settings_from(all, 0, false)).1 == (settings_from(all, i as int, mode_set)).1,
        decreases args.len() - i,
    {
        let ghost before = setting_views(out@);
        let ghost set = mode_set;
        let a: Vec<char> = text::chars_of(args[i].as_str());
        assert(all[i as int] == a@);
        let valued: bool = is_valued(&a);
        let here: Result<Setting, String> = if valued {
            if i + 1 >= args.len() {
                Err(quoted("", &a, " needs a value"))
            } else {
                let v: Vec<char> = text::chars_of(args[i + 1].as_str());
                assert(all[i + 1] == v@);
                match read_value(&a, &v) {
                    Some(s) => Ok(s),
                    None => Err(quoted("bad ", &a, "")),
                }
            }
        } else if text::same(&a, "--verbose") {
            Ok(Setting::Verbose)
        } else if text::same(&a, "--help") || text::same(&a, "-h") || text::same(&a, "help") {
            Ok(Setting::Mode("help".to_owned()))
        } else if a.len() > 0 && a[0] == '-' {
            Err(quoted("unknown option `", &a, "`"))
        } else if !mode_set {
            Ok(Setting::Mode(text::text_of(&a)))
        } else {
            Err(quoted("unexpected argument `", &a, "`"))
        };
        proof {
            reveal_strlit("");
            assert(""@ + a@ =~= a@);
            assert("bad "@ + a@ + ""@ =~= "bad "@ + a@);
        }
        match here {
            Err(why) => {
                assert(before + Seq::<SettingState>::empty() =~= before);
                return (out, Some(why));
            },
            Ok(s) => {
                let ghost said = s@;
                match s {
                    Setting::Mode(_) => {
                        mode_set = true;
                    },
                    _ => {},
                }
                out.push(s);
                let ghost next = i + if takes_value(a@) {
                    2int
                } else {
                    1
                };
                proof {
                    let rest = (settings_from(all, next, set || said is Mode)).0;
                    assert(setting_views(out@) =~= before.push(said));
                    assert(before + (seq![said] + rest) =~= before.push(said) + rest);
                }
                i += if valued {
                    2
                } else {
                    1
                };
            },
        }
    }
    assert(setting_views(out@) + Seq::<SettingState>::empty() =~= setting_views(out@));
    (out, None)
}

/// What the command line comes to.
pub struct Options {
    pub size: usize,
    /// Komi as it was written, if it was given.
    pub komi: Option<String>,
    /// The seconds of thinking time as they were written, unless there is a fixed
    /// number of playouts.
    pub time: Option<String>,
    pub playouts: Option<u64>,
    /// How many threads, if it was said.
    pub threads: Option<usize>,
    pub me: Color,
    pub diagram: Option<String>,
    pub mode: String,
    pub against: Option<String>,
    pub port: u16,
    pub bind: String,
    pub games: usize,
    pub verbose: bool,
    pub handicap: usize,
    pub engine: Option<String>,
}

/// What the options say.
pub struct OptionsState {
    pub size: usize,
    pub komi: Option<Seq<char>>,
    pub time: Option<Seq<char>>,
    pub playouts: Option<u64>,
    pub threads: Option<usize>,
    pub me: Color,
    pub diagram: Option<Seq<char>>,
    pub mode: Seq<char>,
    pub against: Option<Seq<char>>,
    pub port: u16,
    pub bind: Seq<char>,
    pub games: usize,
    pub verbose: bool,
    pub handicap: usize,
    pub engine: Option<Seq<char>>,
}

impl View for Options {
    type V = OptionsState;

    open spec fn view(&self) -> OptionsState {
        OptionsState {
            size: self.size,
            komi: option_view(self.komi),
            time: option_view(self.time),
            playouts: self.playouts,
            threads: self.threads,
            me: self.me,
            diagram: option_view(self.diagram),
            mode: self.mode@,
            against: option_view(self.against),
            port: self.port,
            bind: self.bind@,
            games: self.games,
            verbose: self.verbose,
            handicap: self.handicap,
            engine: option_view(self.engine),
        }
    }
}

impl OptionsState {
    /// What holds when the command line says nothing.
    pub open spec fn standard() -> OptionsState {
        OptionsState {
            size: 9,
            komi: None,
            time: Some("3"@),
            playouts: None,
            threads: None,
            me: Color::Black,
            diagram: None,
            mode: "play"@,
            against: None,
            port: 8080,
            bind: "127.0.0.1"@,
            games: 20,
            verbose: false,
            handicap: 0,
            engine: None,
        }
    }

    /// The options after one more setting. A later setting overrides an earlier one
    /// of its kind, and a time limit and a number of playouts override each other.
    pub open spec fn after(self, s: SettingState) -> OptionsState {
        match s {
            SettingState::Size(n) => OptionsState { size: n, ..self },
            SettingState::Komi(w) => OptionsState { komi: Some(w), ..self },
            SettingState::Time(w) => OptionsState { time: Some(w), playouts: None, ..self },
            SettingState::Playouts(n) => OptionsState { playouts: Some(n), time: None, ..self },
            SettingState::Threads(n) => OptionsState { threads: Some(n), ..self },
            SettingState::Me(c) => OptionsState { me: c, ..self },
            SettingState::Diagram(w) => OptionsState { diagram: Some(w), ..self },
            SettingState::Against(w) => OptionsState { against: Some(w), ..self },
            SettingState::Engine(w) => OptionsState { engine: Some(w), ..self },
            SettingState::Port(n) => OptionsState { port: n, ..self },
            SettingState::Bind(w) => OptionsState { bind: w, ..self },
            SettingState::Games(n) => OptionsState { games: n, ..self },
            SettingState::Verbose => OptionsState { verbose: true, ..self },
            SettingState::Handicap(n) => OptionsState { handicap: n, ..self },
            SettingState::Mode(w) => OptionsState { mode: w, ..self },
        }
    }

    /// The options after these settings.
    pub open spec fn gathered(settings: Seq<SettingState>) -> OptionsState
        decreases settings.len(),
    {
        if settings.len() == 0 {
            OptionsState::standard()
        } else {
            OptionsState::gathered(settings.drop_last()).after(settings.last())
        }
    }
}

impl Options {
    pub fn standard() -> (r: Options)
        ensures
            r@ == OptionsState::standard(),
    {
        Options {
            size: 9,
            komi: None,
            time: Some("3".to_owned()),
            playouts: None,
            threads: None,
            me: Color::Black,
            diagram: None,
            mode: "play".to_owned(),
            against: None,
            port: 8080,
            bind: "127.0.0.1".to_owned(),
            games: 20,
            verbose: false,
            handicap: 0,
            engine: None,
        }
    }

    /// Applies one more setting.
    pub fn apply(&mut self, s: Setting)
        ensures
            final(self)@ == old(self)@.after(s@),
    {
        match s {
            Setting::Size(n) => {
                self.size = n;
            },
            Setting::Komi(w) => {
                self.komi = Some(w);
            },
            Setting::Time(w) => {
                self.time = Some(w);
                self.playouts = None;
            },
            Setting::Playouts(n) => {
                self.playouts = Some(n);
                self.time = None;
            },
            Setting::Threads(n) => {
                self.threads = Some(n);
            },
            Setting::Me(c) => {
                self.me = c;
            },
            Setting::Diagram(w) => {
                self.diagram = Some(w);
            },
            Setting::Against(w) => {
                self.against = Some(w);
            },
            Setting::Engine(w) => {
                self.engine = Some(w);
            },
            Setting::Port(n) => {
                self.port = n;
            },
            Setting::Bind(w) => {
                self.bind = w;
            },
            Setting::Games(n) => {
                self.games = n;
            },
            Setting::Verbose => {
                self.verbose = true;
            },
            Setting::Handicap(n) => {
                self.handicap = n;
            },
            Setting::Mode(w) => {
                self.mode = w;
            },
        }
    }

    /// What the settings come to, applied in order.
    pub fn gather(settings: Vec<Setting>) -> (r: Options)
        ensures
            r@ == OptionsState::gathered(setting_views(settings@)),
    {
        let ghost all = setting_views(settings@);
        let mut left: Vec<Setting> = settings;
        let mut out: Options = Options::standard();
        assert(all.take(0) =~= Seq::<SettingState>::empty());
        while left.len() > 0
            invariant
                left.len() <= all.len(),
                setting_views(left@) == all.skip(all.len() - left.len()),
                out@ == OptionsState::gathered(all.take(all.len() - left.len())),
            decreases left.len(),
        {
            let ghost done = all.len() - left.len();
            let ghost before = left@;
            let s: Setting = left.remove(0);
            proof {
                assert(all.take(done + 1).drop_last() =~= all.take(done));
                assert(all.skip(done)[0] == s@);
                assert forall|k: int| 0 <= k < left@.len() implies setting_views(
                    left@,
                )[k] == #[trigger] all.skip(done + 1)[k] by {
                    assert(setting_views(before)[k + 1] == all.skip(done)[k + 1]);
                }
                assert(setting_views(left@) =~= all.skip(done + 1));
            }
            out.apply(s);
        }
        assert(all.take(all.len() as int) =~= all);
        out
    }
}

/// What is said of a board size that cannot be played on.
pub fn size_error(size: usize) -> (r: Option<String>)
    ensures
        r is None <==> 2 <= size <= 19,
        r matches Some(why) ==> why@ == "--size must be 2..19"@,
{
    if 2 <= size && size <= 19 {
        None
    } else {
        Some("--size must be 2..19".to_owned())
    }
}

/// What a line at the terminal board comes to, beyond what it does to the game.
pub enum Action {
    /// Nothing was entered.
    Nothing,
    Leave,
    Help,
    /// Print this.
    Say(String),
    /// Say what the score is.
    Score,
    /// Set komi to the number that the word writes, if it writes one.
    Komi(Option<String>),
    /// Set the thinking time to the seconds that the word writes, if it writes some.
    Time(Option<String>),
    /// Give hints for this side.
    Me(Color),
    /// Give a hint, thinking for as long as the word says, if it says.
    Hint(Option<String>),
    /// Read a position as a diagram.
    Setup,
}

/// What an action says.
pub enum ActionState {
    Nothing,
    Leave,
    Help,
    Say(Seq<char>),
    Score,
    Komi(Option<Seq<char>>),
    Time(Option<Seq<char>>),
    Me(Color),
    Hint(Option<Seq<char>>),
    Setup,
}

pub open spec fn option_view(s: Option<String>) -> Option<Seq<char>> {
    match s {
        Some(s) => Some(s@),
        None => None,
    }
}

impl View for Action {
    type V = ActionState;

    open spec fn view(&self) -> ActionState {
        match *self {
            Action::Nothing => ActionState::Nothing,
            Action::Leave => ActionState::Leave,
            Action::Help => ActionState::Help,
            Action::Say(s) => ActionState::Say(s@),
            Action::Score => ActionState::Score,
            Action::Komi(w) => ActionState::Komi(option_view(w)),
            Action::Time(w) => ActionState::Time(option_view(w)),
            Action::Me(c) => ActionState::Me(c),
            Action::Hint(w) => ActionState::Hint(option_view(w)),
            Action::Setup => ActionState::Setup,
        }
    }
}

/// The diagram of a board, nothing marked.
pub open spec fn plain_diagram(pos: Position) -> Seq<char> {
    text::unlines(coords::diagram_lines(pos, Seq::empty()))
}

/// Why a move is illegal, in words.
pub open spec fn reason_of(why: Illegal) -> Seq<char> {
    match why {
        Illegal::NotEmpty => "there is already a stone there"@,
        Illegal::Suicide => "that stone would have no liberties"@,
        Illegal::Ko => "that is the ko point"@,
        Illegal::OffBoard => "that is off the board"@,
    }
}

pub open spec fn turned(game: GameState, c: Color) -> GameState {
    GameState { board: Position { to_move: c, ko: None, ..game.board }, ..game }
}

/// Making a move, for a colour if one is named: the game after it, and what is
/// printed.
pub open spec fn moved(game: GameState, mv: Move, colour: Option<Color>) -> (
    GameState,
    ActionState,
) {
    let ready = match colour {
        Some(c) => turned(game, c),
        None => game,
    };
    match ready.outcome(mv) {
        Ok(next) => (next, ActionState::Say(plain_diagram(next.board))),
        Err(Rejected::Superko) => (
            ready,
            ActionState::Say("illegal: that repeats an earlier position (superko)\n"@),
        ),
        Err(Rejected::Rules(why)) => (
            ready,
            ActionState::Say("illegal: "@ + reason_of(why) + "\n"@),
        ),
    }
}

/// The game with stones of colour `c` added on the vertices that the first `n` words
/// name.
pub open spec fn with_added(game: GameState, c: Color, words: Seq<Seq<char>>, n: nat) -> GameState
    decreases n,
{
    if n == 0 {
        game
    } else {
        let before = with_added(game, c, words, (n - 1) as nat);
        match coords::named_move(game.board.size, words[n - 1]) {
            Some(Move::Play(pt)) => before.after_setup(pt, c),
            _ => before,
        }
    }
}

/// The complaints about those of the first `n` words that name no point.
pub open spec fn complaints(size: int, words: Seq<Seq<char>>, n: nat) -> Seq<char>
    decreases n,
{
    if n == 0 {
        Seq::empty()
    } else {
        let before = complaints(size, words, (n - 1) as nat);
        match coords::named_move(size, words[n - 1]) {
            Some(Move::Play(_)) => before,
            _ => before + ("not a vertex: `"@ + words[n - 1] + "`\n"@),
        }
    }
}

/// Adding stones: the game with those of them that are named, and what is printed.
pub open spec fn added(game: GameState, rest: Seq<Seq<char>>) -> (GameState, ActionState) {
    let words = rest.skip(1);
    match colour_named(rest[0]) {
        Some(c) if rest.len() > 0 => {
            let next = with_added(game, c, words, words.len());
            let said = complaints(game.board.size, words, words.len());
            if next.history.len() > game.history.len() {
                (next, ActionState::Say(said + plain_diagram(next.board)))
            } else {
                (next, ActionState::Say(said))
            }
        },
        _ => (game, ActionState::Say("add b|w <vertex> [<vertex> ...]\n"@)),
    }
}

/// Placing handicap stones on a fresh board: the game after it, and what is printed.
pub open spec fn handicapped(game: GameState, rest: Seq<Seq<char>>) -> (GameState, ActionState) {
    let size = game.board.size as usize;
    match text::number_upto(rest[0], usize::MAX as nat) {
        Some(n) if rest.len() > 0 => match coords::handicap_error(size, n as usize) {
            Some(why) => (game, ActionState::Say("handicap: "@ + why + "\n"@)),
            None => {
                let board = gtp::handicap_board(
                    game.board.size,
                    coords::handicap_layout(size, n as usize),
                );
                (
                    GameState::fresh(board),
                    ActionState::Say(
                        plain_diagram(board) + text::decimal(n)
                            + " stones for black; white to move\n"@,
                    ),
                )
            },
        },
        _ => (game, ActionState::Say("handicap <2..9>\n"@)),
    }
}

/// Taking a stone off: a game from the position without it, and what is printed.
pub open spec fn removed(game: GameState, rest: Seq<Seq<char>>) -> (GameState, ActionState) {
    match coords::named_move(game.board.size, rest[0]) {
        Some(Move::Play(pt)) if rest.len() > 0 => {
            let less = if rules::is_stone(game.board.cells[pt as int]) {
                game.board.with_cells(game.board.cells.update(pt as int, Cell::Empty))
            } else {
                game.board
            };
            let board = Position { ko: None, ..less };
            (GameState::fresh(board), ActionState::Say(plain_diagram(board)))
        },
        _ => (game, ActionState::Say("del <vertex>\n"@)),
    }
}

pub open spec fn first_word(rest: Seq<Seq<char>>) -> Option<Seq<char>> {
    if rest.len() > 0 {
        Some(rest[0])
    } else {
        None
    }
}

pub open spec fn colour_name(c: Color) -> Seq<char> {
    match c {
        Color::Black => "black"@,
        Color::White => "white"@,
    }
}

/// Is this the first word of a line that makes a move by naming its kind? A hint
/// follows such a line when it has come round to the side that hints are for.
pub open spec fn makes_a_move(head: Seq<char>) -> bool {
    head == "b"@ || head == "black"@ || head == "w"@ || head == "white"@ || head == "pass"@
}

/// What a line of these words does to a game, and what it comes to. `line` is the
/// whole line.
pub open spec fn performed(game: GameState, line: Seq<char>, w: Seq<Seq<char>>) -> (
    GameState,
    ActionState,
) {
    let head = text::lowered(w[0]);
    let rest = w.skip(1);
    let size = game.board.size;
    if head == "quit"@ || head == "q"@ || head == "exit"@ {
        (game, ActionState::Leave)
    } else if head == "help"@ || head == "?"@ {
        (game, ActionState::Help)
    } else if head == "show"@ || head == "s"@ {
        (game, ActionState::Say(plain_diagram(game.board)))
    } else if head == "score"@ {
        (game, ActionState::Score)
    } else if head == "undo"@ || head == "u"@ {
        if game.history.len() > 0 {
            (game.undone(), ActionState::Say(plain_diagram(game.undone().board)))
        } else {
            (game, ActionState::Say("nothing to undo\n"@))
        }
    } else if head == "komi"@ {
        (game, ActionState::Komi(first_word(rest)))
    } else if head == "time"@ {
        (game, ActionState::Time(first_word(rest)))
    } else if head == "me"@ {
        match colour_named(rest[0]) {
            Some(c) if rest.len() > 0 => (game, ActionState::Me(c)),
            _ => (game, ActionState::Say("me black|white\n"@)),
        }
    } else if head == "handicap"@ {
        handicapped(game, rest)
    } else if head == "turn"@ {
        match colour_named(rest[0]) {
            Some(c) if rest.len() > 0 => (
                turned(game, c),
                ActionState::Say(colour_name(c) + " to move\n"@),
            ),
            _ => (game, ActionState::Say("turn black|white\n"@)),
        }
    } else if head == "hint"@ || head == "h"@ {
        (game, ActionState::Hint(first_word(rest)))
    } else if head == "add"@ {
        added(game, rest)
    } else if head == "del"@ || head == "remove"@ {
        removed(game, rest)
    } else if head == "setup"@ {
        (game, ActionState::Setup)
    } else if head == "pass"@ {
        moved(game, Move::Pass, None)
    } else if head == "b"@ || head == "black"@ || head == "w"@ || head == "white"@ {
        match coords::named_move(size, rest[0]) {
            Some(mv) if rest.len() > 0 => moved(game, mv, colour_named(head)),
            _ => (game, ActionState::Say(head + " <vertex>\n"@)),
        }
    } else {
        match coords::named_move(size, line) {
            Some(mv) => moved(game, mv, None),
            None => (
                game,
                ActionState::Say(
                    "not a command or a vertex: `"@ + line + "` (try `help`)\n"@,
                ),
            ),
        }
    }
}

/// What a line at the terminal board does to a game, what it comes to, and whether
/// it makes a move by naming its kind.
pub open spec fn entered(game: GameState, line: Seq<char>) -> (GameState, ActionState, bool) {
    let t = text::trim(line);
    let w = text::words(t);
    if w.len() == 0 {
        (game, ActionState::Nothing, false)
    } else {
        let (next, action) = performed(game, t, w);
        (next, action, makes_a_move(text::lowered(w[0])))
    }
}

/// The diagram of a board, nothing marked.
pub fn show(board: &Board) -> (r: String)
    requires
        board@.wf(),
    ensures
        r@ == plain_diagram(board@),
{
    let none: [Point; 0] = [];
    assert(none@ =~= Seq::<Point>::empty());
    coords::diagram(board, &none)
}

pub fn reason_text(why: Illegal) -> (r: &'static str)
    ensures
        r@ == reason_of(why),
{
    match why {
        Illegal::NotEmpty => "there is already a stone there",
        Illegal::Suicide => "that stone would have no liberties",
        Illegal::Ko => "that is the ko point",
        Illegal::OffBoard => "that is off the board",
    }
}

fn make_move<K>(game: &mut Game<K>, mv: Move, colour: Option<Color>) -> (r: Action)
    requires
        old(game)@.wf(),
        old(game)@.board.roomy(),
        mv matches Move::Play(pt) ==> old(game)@.board.on_board(pt as int),
    ensures
        (final(game)@, r@) == moved(old(game)@, mv, colour),
        final(game)@.wf(),
        final(game).agreed_komi() == old(game).agreed_komi(),
{
    if let Some(c) = colour {
        game.set_to_move(c);
    }
    proof {
        game.lemma_counts();
        mcts::lemma_load(game@.board, mv);
    }
    match game.play(mv) {
        Ok(()) => Action::Say(show(game.board())),
        Err(Rejected::Superko) => Action::Say(
            "illegal: that repeats an earlier position (superko)\n".to_owned(),
        ),
        Err(Rejected::Rules(why)) => {
            let mut out: String = "illegal: ".to_owned();
            out.append(reason_text(why));
            out.append("\n");
            Action::Say(out)
        },
    }
}

fn add_stone<K>(game: &mut Game<K>, rest: &Vec<Vec<char>>) -> (r: Action)
    requires
        old(game)@.wf(),
    ensures
        (final(game)@, r@) == added(old(game)@, text::views(rest@)),
        final(game)@.wf(),
        final(game).agreed_komi() == old(game).agreed_komi(),
{
    let ghost all = text::views(rest@);
    let ghost was = game@;
    let ghost size = was.board.size;
    let ghost words = all.skip(1);
    if rest.len() == 0 {
        return Action::Say("add b|w <vertex> [<vertex> ...]\n".to_owned());
    }
    assert(all[0] == rest@[0]@);
    let colour: Color = match parse_colour(&rest[0]) {
        None => {
            return Action::Say("add b|w <vertex> [<vertex> ...]\n".to_owned());
        },
        Some(c) => c,
    };
    let mut out: String = String::new();
    let mut placed: bool = false;
    let mut i: usize = 1;
    assert(out@ =~= complaints(size, words, 0));
    while i < rest.len()
        invariant
            1 <= i <= rest.len(),
            all == text::views(rest@),
            words == all.skip(1),
            was == old(game)@,
            size == was.board.size,
            game@ == with_added(was, colour, words, (i - 1) as nat),
            game@.wf(),
            game@.board.size == size,
            game.agreed_komi() == old(game).agreed_komi(),
            placed == (game@.history.len() > was.history.len()),
            game@.history.len() >= was.history.len(),
            out@ == complaints(size, words, (i - 1) as nat),
        decreases rest.len() - i,
    {
        assert(words[i - 1] == rest@[i as int]@);
        match coords::read_move(game.board(), &rest[i]) {
            Some(Move::Play(pt)) => {
                proof {
                    coords::lemma_named_move(size, words[i - 1]);
                }
                game.setup_stone(pt, colour);
                placed = true;
            },
            _ => {
                let line: String = quoted("not a vertex: `", &rest[i], "`\n");
                out.append(line.as_str());
            },
        }
        i += 1;
    }
    if placed {
        out.append(show(game.board()).as_str());
    }
    Action::Say(out)
}

/// Clears the board and lays out the conventional handicap stones. White moves
/// first afterwards, which is what handicap means.
pub fn place_handicap<K>(game: &mut Game<K>, stones: usize) -> (r: Result<(), String>)
    requires
        old(game)@.wf(),
    ensures
        final(game)@.wf(),
        final(game).agreed_komi() == old(game).agreed_komi(),
        ({
            let size = old(game)@.board.size;
            match coords::handicap_error(size as usize, stones) {
                Some(why) => r matches Err(e) && e@ == why && final(game)@ == old(game)@,
                None => r is Ok && final(game)@ == GameState::fresh(
                    gtp::handicap_board(size, coords::handicap_layout(size as usize, stones)),
                ),
            }
        }),
{
    let size: usize = game.board().size();
    match coords::handicap_points(size, stones) {
        Err(why) => Err(why),
        Ok(points) => {
            proof {
                coords::lemma_handicap_inside(size, stones);
            }
            let (board, _) = gtp::set_handicap(size, &points);
            game.restart(board);
            Ok(())
        },
    }
}

fn handicap_command<K>(game: &mut Game<K>, rest: &Vec<Vec<char>>) -> (r: Action)
    requires
        old(game)@.wf(),
    ensures
        (final(game)@, r@) == handicapped(old(game)@, text::views(rest@)),
        final(game)@.wf(),
        final(game).agreed_komi() == old(game).agreed_komi(),
{
    let ghost all = text::views(rest@);
    if rest.len() == 0 {
        return Action::Say("handicap <2..9>\n".to_owned());
    }
    assert(all[0] == rest@[0]@);
    let n: usize = match text::parse_number(&rest[0], usize::MAX as u64) {
        None => {
            return Action::Say("handicap <2..9>\n".to_owned());
        },
        Some(n) => n as usize,
    };
    match place_handicap(game, n) {
        Err(why) => {
            let mut out: String = "handicap: ".to_owned();
            out.append(why.as_str());
            out.append("\n");
            Action::Say(out)
        },
        Ok(()) => {
            let mut out: String = show(game.board());
            text::push_number(&mut out, n as u64);
            out.append(" stones for black; white to move\n");
            Action::Say(out)
        },
    }
}

fn remove_command<K>(game: &mut Game<K>, rest: &Vec<Vec<char>>) -> (r: Action)
    requires
        old(game)@.wf(),
    ensures
        (final(game)@, r@) == removed(old(game)@, text::views(rest@)),
        final(game)@.wf(),
        final(game).agreed_komi() == old(game).agreed_komi(),
{
    let ghost all = text::views(rest@);
    if rest.len() == 0 {
        return Action::Say("del <vertex>\n".to_owned());
    }
    assert(all[0] == rest@[0]@);
    match coords::read_move(game.board(), &rest[0]) {
        Some(Move::Play(pt)) => {
            proof {
                coords::lemma_named_move(game@.board.size, all[0]);
            }
            let mut board: Board = *game.board();
            board.remove_stone(pt);
            let turn: Color = game.to_move();
            board.set_to_move(turn);
            game.restart(board);
            Action::Say(show(game.board()))
        },
        _ => Action::Say("del <vertex>\n".to_owned()),
    }
}

fn first_text(rest: &Vec<Vec<char>>) -> (r: Option<String>)
    ensures
        option_view(r) == first_word(text::views(rest@)),
{
    if rest.len() > 0 {
        assert(text::views(rest@)[0] == rest@[0]@);
        Some(text::text_of(&rest[0]))
    } else {
        None
    }
}

fn first_colour(rest: &Vec<Vec<char>>) -> (r: Option<Color>)
    ensures
        r == if rest@.len() > 0 {
            colour_named(text::views(rest@)[0])
        } else {
            None
        },
{
    if rest.len() > 0 {
        assert(text::views(rest@)[0] == rest@[0]@);
        parse_colour(&rest[0])
    } else {
        None
    }
}

/// Carries out what a line of these words asks for, as far as the game itself goes.
fn perform<K>(game: &mut Game<K>, line: &Vec<char>, head: &Vec<char>, rest: &Vec<Vec<char>>) -> (r:
    Action)
    requires
        old(game)@.wf(),
        old(game)@.board.roomy(),
    ensures
        forall|w: Seq<Seq<char>>|
            w.len() > 0 && text::lowered(w[0]) == head@ && #[trigger] w.skip(1) == text::views(
                rest@,
            ) ==> (final(game)@, r@) == performed(old(game)@, line@, w),
        final(game)@.wf(),
        final(game).agreed_komi() == old(game).agreed_komi(),
{
    if text::same(head, "quit") || text::same(head, "q") || text::same(head, "exit") {
        return Action::Leave;
    }
    if text::same(head, "help") || text::same(head, "?") {
        return Action::Help;
    }
    if text::same(head, "show") || text::same(head, "s") {
        return Action::Say(show(game.board()));
    }
    if text::same(head, "score") {
        return Action::Score;
    }
    if text::same(head, "undo") || text::same(head, "u") {
        return if game.undo() {
            Action::Say(show(game.board()))
        } else {
            Action::Say("nothing to undo\n".to_owned())
        };
    }
    if text::same(head, "komi") {
        return Action::Komi(first_text(rest));
    }
    if text::same(head, "time") {
        return Action::Time(first_text(rest));
    }
    if text::same(head, "me") {
        return match first_colour(rest) {
            Some(c) => Action::Me(c),
            None => Action::Say("me black|white\n".to_owned()),
        };
    }
    if text::same(head, "handicap") {
        return handicap_command(game, rest);
    }
    if text::same(head, "turn") {
        return match first_colour(rest) {
            Some(c) => {
                game.set_to_move(c);
                let mut out: String = c.name().to_owned();
                out.append(" to move\n");
                Action::Say(out)
            },
            None => Action::Say("turn black|white\n".to_owned()),
        };
    }
    if text::same(head, "hint") || text::same(head, "h") {
        return Action::Hint(first_text(rest));
    }
    if text::same(head, "add") {
        return add_stone(game, rest);
    }
    if text::same(head, "del") || text::same(head, "remove") {
        return remove_command(game, rest);
    }
    if text::same(head, "setup") {
        return Action::Setup;
    }
    if text::same(head, "pass") {
        return make_move(game, Move::Pass, None);
    }
    if text::same(head, "b") || text::same(head, "black") || text::same(head, "w") || text::same(
        head,
        "white",
    ) {
        if rest.len() > 0 {
            assert(text::views(rest@)[0] == rest@[0]@);
            if let Some(mv) = coords::read_move(game.board(), &rest[0]) {
                proof {
                    coords::lemma_named_move(game@.board.size, rest@[0]@);
                }
                let colour: Option<Color> = parse_colour(head);
                return make_move(game, mv, colour);
            }
        }
        return Action::Say(quoted_end(head, " <vertex>\n"));
    }
    match coords::read_move(game.board(), line) {
        Some(mv) => {
            proof {
                coords::lemma_named_move(game@.board.size, line@);
            }
            make_move(game, mv, None)
        },
        None => Action::Say(
            quoted("not a command or a vertex: `", line, "` (try `help`)\n"),
        ),
    }
}

fn quoted_end(s: &Vec<char>, after: &str) -> (r: String)
    ensures
        r@ == s@ + after@,
{
    let mut out: String = text::text_of(s);
    out.append(after);
    out
}

/// Takes a line at the terminal board. What it comes to, and whether it makes a move
/// by naming its kind.
pub fn enter<K>(game: &mut Game<K>, line: &str) -> (r: (Action, bool))
    requires
        old(game)@.wf(),
        old(game)@.board.roomy(),
    ensures
        (final(game)@, (r.0)@, r.1) == entered(old(game)@, line@),
        final(game)@.wf(),
        final(game).agreed_komi() == old(game).agreed_komi(),
{
    let t: Vec<char> = text::trimmed(&text::chars_of(line));
    let mut words: Vec<Vec<char>> = text::words_of(&t);
    let ghost w = text::views(words@);
    if words.len() == 0 {
        return (Action::Nothing, false);
    }
    let first: Vec<char> = words.remove(0);
    let head: Vec<char> = text::to_lowered(&first);
    proof {
        assert(w[0] == first@);
        assert(text::views(words@) =~= w.skip(1));
    }
    let action: Action = perform(game, &t, &head, &words);
    let makes: bool = text::same(&head, "b") || text::same(&head, "black") || text::same(&head, "w")
        || text::same(&head, "white") || text::same(&head, "pass");
    (action, makes)
}

/// What stands before each line at the terminal board.
pub fn prompt_text(turn: Color, me: Color) -> (r: String)
    ensures
        r@ == colour_name(turn) + " ("@ + (if turn == me {
            "you"@
        } else {
            "them"@
        }) + ") > "@,
{
    let mut out: String = turn.name().to_owned();
    out.append(" (");
    if turn == me {
        out.append("you");
    } else {
        out.append("them");
    }
    out.append(") > ");
    out
}

/// The warning about stones that a diagram shows and the board does not have.
pub open spec fn dropped_warning(points: Seq<Point>) -> Seq<char> {
    if points.len() == 0 {
        Seq::empty()
    } else {
        "warning: "@ + text::join(web::point_names(points), ", "@)
            + " could not be on the board — a stone there would have no\nliberties, so it was left off. Check those points against your screen.\n"@
    }
}

pub fn report_dropped(board: &Board, dropped: &Vec<Point>) -> (r: String)
    requires
        board@.wf(),
        forall|i: int|
            0 <= i < dropped@.len() ==> board@.on_board(#[trigger] dropped@[i] as int),
    ensures
        r@ == dropped_warning(dropped@),
{
    if dropped.len() == 0 {
        let out: String = String::new();
        assert(out@ =~= Seq::<char>::empty());
        return out;
    }
    let names: Vec<String> = web::name_points(board, dropped);
    let mut out: String = "warning: ".to_owned();
    out.append(text::joined(&names, ", ").as_str());
    out.append(
        " could not be on the board — a stone there would have no\nliberties, so it was left off. Check those points against your screen.\n",
    );
    out
}

/// A diagram as it is being entered: the rows so far, and whether it is complete. It
/// ends with a blank line or with the last row of the board.
pub struct DiagramState {
    pub text: Seq<char>,
    pub rows: nat,
    pub done: bool,
}

impl DiagramState {
    pub open spec fn fresh() -> DiagramState {
        DiagramState { text: Seq::empty(), rows: 0, done: false }
    }

    pub open spec fn fed(self, size: nat, line: Seq<char>) -> DiagramState {
        if text::trim(line).len() == 0 {
            DiagramState { done: true, ..self }
        } else {
            DiagramState {
                text: (self.text + line).push('\n'),
                rows: self.rows + 1,
                done: self.rows + 1 == size,
            }
        }
    }
}

/// Collects the rows of a diagram.
pub struct DiagramReader {
    pub text: String,
    pub rows: usize,
    pub done: bool,
}

impl View for DiagramReader {
    type V = DiagramState;

    open spec fn view(&self) -> DiagramState {
        DiagramState { text: self.text@, rows: self.rows as nat, done: self.done }
    }
}

impl DiagramReader {
    pub fn new() -> (r: DiagramReader)
        ensures
            r@ == DiagramState::fresh(),
    {
        let r = DiagramReader { text: String::new(), rows: 0, done: false };
        assert(r@.text =~= Seq::<char>::empty());
        r
    }

    /// Takes one line.
    pub fn feed(&mut self, size: usize, line: &str)
        requires
            old(self).rows < size,
        ensures
            final(self)@ == old(self)@.fed(size as nat, line@),
    {
        if text::trimmed(&text::chars_of(line)).len() == 0 {
            self.done = true;
            return;
        }
        self.text.append(line);
        self.text.push('\n');
        self.rows += 1;
        self.done = self.rows == size;
    }
}

/// The digits of a number with a comma before each run of three that is not the
/// first: as far as its first `n` digits.
pub open spec fn commas_upto(digits: Seq<char>, n: nat) -> Seq<char>
    decreases n,
{
    if n == 0 {
        Seq::empty()
    } else {
        let before = commas_upto(digits, (n - 1) as nat);
        if n > 1 && (digits.len() - (n - 1)) % 3 == 0 {
            before.push(',').push(digits[n - 1])
        } else {
            before.push(digits[n - 1])
        }
    }
}

/// A number with its digits in threes.
pub open spec fn in_threes(n: nat) -> Seq<char> {
    commas_upto(text::decimal(n), text::decimal(n).len())
}

pub fn thousands(n: u64) -> (r: String)
    ensures
        r@ == in_threes(n as nat),
{
    let number: String = text::number_text(n);
    let digits: Vec<char> = text::chars_of(number.as_str());
    let mut out: String = String::new();
    let mut i: usize = 0;
    assert(out@ =~= commas_upto(digits@, 0));
    while i < digits.len()
        invariant
            i <= digits.len(),
            out@ == commas_upto(digits@, i as nat),
        decreases digits.len() - i,
    {
        if i > 0 && (digits.len() - i) % 3 == 0 {
            out.push(',');
        }
        out.push(digits[i]);
        i += 1;
    }
    out
}

/// A line of the table of moves.
pub open spec fn table_line(s: ShownState, first: bool) -> Seq<char> {
    "  "@ + (if first {
        "->"@
    } else {
        "  "@
    }) + " "@ + text::flush_left(coords::move_name(s.mv), 4) + " "@ + s.winrate + "%  "@ + text::flush_right(
        in_threes(s.visits as nat),
        9,
    ) + " visits   "@ + text::join(web::line_names(s.pv), " "@) + "\n"@
}

/// The table of the moves from number `i` on, five in all at most, and up to the
/// first that was never visited where `visited` says so.
pub open spec fn table_from(all: Seq<ShownState>, i: int, visited: bool) -> Seq<char>
    decreases all.len() - i,
{
    if i < 0 || i >= all.len() || i >= 5 || (visited && all[i].visits == 0) {
        Seq::empty()
    } else {
        table_line(all[i], i == 0) + table_from(all, i + 1, visited)
    }
}

pub fn table_text(board: &Board, all: &Vec<Shown>, visited: bool) -> (r: String)
    requires
        forall|i: int| 0 <= i < all@.len() ==> web::has_names(#[trigger] web::shown_views(all@)[i]),
    ensures
        r@ == table_from(web::shown_views(all@), 0, visited),
{
    let ghost views = web::shown_views(all@);
    let ghost whole = table_from(views, 0, visited);
    let mut out: String = String::new();
    let mut i: usize = 0;
    assert(out@ + whole =~= whole);
    while i < all.len() && i < 5 && !(visited && all[i].visits == 0)
        invariant
            i <= all.len(),
            i <= 5,
            views == web::shown_views(all@),
            forall|i: int| 0 <= i < all@.len() ==> web::has_names(#[trigger] views[i]),
            whole == out@ + table_from(views, i as int, visited),
        decreases all.len() - i,
    {
        let ghost before = out@;
        let s: &Shown = &all[i];
        proof {
            assert(web::has_names(views[i as int]));
            assert(views[i as int] == s@);
            assert forall|k: int| 0 <= k < s.pv@.len() implies coords::has_name(
                #[trigger] s.pv@[k],
            ) by {
                assert(coords::has_name(views[i as int].pv[k]));
            }
        }
        let mut line: String = "  ".to_owned();
        if i == 0 {
            line.append("->");
        } else {
            line.append("  ");
        }
        line.append(" ");
        text::push_left(&mut line, coords::format_move(board, s.mv).as_str(), 4);
        line.append(" ");
        line.append(s.winrate.as_str());
        line.append("%  ");
        text::push_right(&mut line, thousands(s.visits).as_str(), 9);
        line.append(" visits   ");
        line.append(web::name_line(board, &s.pv).as_str());
        line.append("\n");
        assert(line@ == table_line(s@, i == 0));
        out.append(line.as_str());
        proof {
            assert(before + (line@ + table_from(views, i + 1, visited)) =~= out@ + table_from(
                views,
                i + 1,
                visited,
            ));
        }
        i += 1;
    }
    assert(out@ + Seq::<char>::empty() =~= out@);
    out
}

/// The points to mark for a move.
pub fn marks_for(mv: Move) -> (r: Vec<Point>)
    ensures
        r@ == marked(mv),
{
    let mut out: Vec<Point> = Vec::new();
    if let Move::Play(pt) = mv {
        out.push(pt);
    }
    assert(out@ =~= marked(mv));
    out
}

/// The points to mark for a move.
pub open spec fn marked(mv: Move) -> Seq<Point> {
    match mv {
        Move::Play(pt) => seq![pt],
        _ => Seq::empty(),
    }
}

/// What is printed of a search: the board with the best move marked, what the search
/// took, and the table of moves.
pub open spec fn hint_of(
    pos: Position,
    playouts: nat,
    seconds: Seq<char>,
    threads: nat,
    all: Seq<ShownState>,
) -> Seq<char> {
    if all.len() == 0 {
        "no legal move but to pass\n"@
    } else {
        text::unlines(coords::diagram_lines(pos, marked(all[0].mv))) + colour_name(pos.to_move)
            + " to play — "@ + in_threes(playouts) + " playouts in "@ + seconds + "s on "@
            + text::decimal(threads) + " thread(s)\n"@ + table_from(all, 0, true)
    }
}

/// Says what a search has found. `seconds` is how long it took, as that is to be
/// written.
pub fn hint_text(
    board: &Board,
    playouts: u64,
    seconds: &str,
    threads: usize,
    all: &Vec<Shown>,
) -> (r: String)
    requires
        board@.wf(),
        forall|i: int| 0 <= i < all@.len() ==> web::has_names(#[trigger] web::shown_views(all@)[i]),
    ensures
        r@ == hint_of(
            board@,
            playouts as nat,
            seconds@,
            threads as nat,
            web::shown_views(all@),
        ),
{
    if all.len() == 0 {
        return "no legal move but to pass\n".to_owned();
    }
    assert(web::shown_views(all@)[0] == all@[0]@);
    let marks: Vec<Point> = marks_for(all[0].mv);
    let mut out: String = coords::diagram(board, marks.as_slice());
    out.append(board.to_move().name());
    out.append(" to play — ");
    out.append(thousands(playouts).as_str());
    out.append(" playouts in ");
    out.append(seconds);
    out.append("s on ");
    text::push_number(&mut out, threads as u64);
    out.append(" thread(s)\n");
    out.append(table_text(board, all, true).as_str());
    out
}

/// What is printed of another engine's advice.
pub open spec fn advice_of(
    pos: Position,
    source: Seq<char>,
    best: Move,
    all: Seq<ShownState>,
) -> Seq<char> {
    let heading = text::unlines(coords::diagram_lines(pos, marked(best))) + colour_name(
        pos.to_move,
    ) + " to play — "@ + source;
    if all.len() == 0 {
        heading + " says "@ + coords::move_name(best) + "\n"@
    } else {
        heading + "\n"@ + table_from(all, 0, false)
    }
}

/// Says what another engine advises.
pub fn advice_text(board: &Board, source: &str, best: Move, all: &Vec<Shown>) -> (r: String)
    requires
        board@.wf(),
        coords::has_name(best),
        forall|i: int| 0 <= i < all@.len() ==> web::has_names(#[trigger] web::shown_views(all@)[i]),
    ensures
        r@ == advice_of(board@, source@, best, web::shown_views(all@)),
{
    let marks: Vec<Point> = marks_for(best);
    let mut out: String = coords::diagram(board, marks.as_slice());
    out.append(board.to_move().name());
    out.append(" to play — ");
    out.append(source);
    if all.len() == 0 {
        out.append(" says ");
        out.append(coords::format_move(board, best).as_str());
        out.append("\n");
        return out;
    }
    out.append("\n");
    out.append(table_text(board, all, false).as_str());
    out
}

/// Setting up a position that was entered as a diagram, with `me` to move: the game
/// after it, and what is printed.
pub open spec fn set_up_from(game: GameState, text: Seq<char>, me: Color) -> (
    GameState,
    Seq<char>,
) {
    let size = game.board.size;
    let rows = coords::stone_rows(text::lines(text));
    match coords::diagram_error(rows, size) {
        Some(why) => (game, "setup: "@ + why + "\n"@),
        None => {
            let shown = coords::shown_position(rows, size);
            let board = Position { to_move: me, ko: None, ..shown };
            (
                GameState::fresh(board),
                dropped_warning(coords::missing(shown.cells, coords::stones_in(rows, size)))
                    + plain_diagram(board) + colour_name(me) + " to move\n"@,
            )
        },
    }
}

/// Starts over from a position that was entered as a diagram, and says what is to be
/// printed.
pub fn set_up<K>(game: &mut Game<K>, text: &str, me: Color) -> (r: String)
    requires
        old(game)@.wf(),
    ensures
        (final(game)@, r@) == set_up_from(old(game)@, text@, me),
        final(game)@.wf(),
        final(game).agreed_komi() == old(game).agreed_komi(),
{
    let size: usize = game.board().size();
    let mut out: String;
    match coords::parse_diagram_report(text, size) {
        Err(why) => {
            out = "setup: ".to_owned();
            out.append(why.as_str());
            out.append("\n");
        },
        Ok((shown, dropped)) => {
            let mut board: Board = shown;
            out = report_dropped(&board, &dropped);
            board.set_to_move(me);
            game.restart(board);
            out.append(show(game.board()).as_str());
            out.append(me.name());
            out.append(" to move\n");
        },
    }
    out
}

} // verus!
