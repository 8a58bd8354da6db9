//! What can be relied on of the command line: each option sets what it names, and the
//! last one given counts.

use vstd::prelude::*;

use crate::board::Color;
use crate::cli;
use crate::cli::{OptionsState, SettingState};
use crate::text;

verus! {

/// The value that comes with the last `key` among the first `n` pairs of arguments.
pub open spec fn last_given(args: Seq<Seq<char>>, n: nat, key: Seq<char>) -> Option<Seq<char>>
    decreases n,
{
    if n == 0 {
        None
    } else if args[2 * (n - 1)] == key {
        Some(args[2 * (n - 1) + 1])
    } else {
        last_given(args, (n - 1) as nat, key)
    }
}

/// Does the clock limit a search: was the thinking time given after the number of
/// playouts, or neither of them?
pub open spec fn thinks_by_the_clock(args: Seq<Seq<char>>, n: nat) -> bool
    decreases n,
{
    if n == 0 {
        true
    } else if args[2 * (n - 1)] == "--time"@ {
        true
    } else if args[2 * (n - 1)] == "--playouts"@ {
        false
    } else {
        thinks_by_the_clock(args, (n - 1) as nat)
    }
}

/// Do the options say what the first `n` pairs of arguments ask for?
pub open spec fn as_asked(o: OptionsState, args: Seq<Seq<char>>, n: nat) -> bool {
    &&& o.size == match last_given(args, n, "--size"@) {
        Some(v) => text::number_upto(v, usize::MAX as nat)->0 as int,
        None => 9,
    }
    &&& o.games == match last_given(args, n, "--games"@) {
        Some(v) => text::number_upto(v, usize::MAX as nat)->0 as int,
        None => 20,
    }
    &&& o.handicap == match last_given(args, n, "--handicap"@) {
        Some(v) => text::number_upto(v, usize::MAX as nat)->0 as int,
        None => 0,
    }
    &&& o.port == match last_given(args, n, "--port"@) {
        Some(v) => text::number_upto(v, u16::MAX as nat)->0 as int,
        None => 8080,
    }
    &&& o.komi == last_given(args, n, "--komi"@)
    &&& o.diagram == last_given(args, n, "--diagram"@)
    &&& o.against == last_given(args, n, "--against"@)
    &&& o.engine == last_given(args, n, "--engine"@)
    &&& o.bind == match last_given(args, n, "--bind"@) {
        Some(v) => v,
        None => "127.0.0.1"@,
    }
    &&& o.me == match last_given(args, n, "--me"@) {
        Some(v) => cli::colour_named(v)->0,
        None => Color::Black,
    }
    &&& match last_given(args, n, "--threads"@) {
        Some(v) => o.threads is Some && o.threads->0 == text::number_upto(
            v,
            usize::MAX as nat,
        )->0,
        None => o.threads is None,
    }
    &&& if thinks_by_the_clock(args, n) {
        o.playouts is None && o.time == Some(
            match last_given(args, n, "--time"@) {
                Some(v) => v,
                None => "3"@,
            },
        )
    } else {
        o.time is None && o.playouts is Some && o.playouts->0 == text::number_upto(
            last_given(args, n, "--playouts"@)->0,
            u64::MAX as nat,
        )->0
    }
    &&& !o.verbose
    &&& o.mode == "play"@
}

proof fn lemma_options()
    ensures
        "--size"@.len() == 6,
        "--size"@[2] == 's',
        "--komi"@.len() == 6,
        "--komi"@[2] == 'k',
        "--time"@.len() == 6,
        "--time"@[2] == 't',
        "--playouts"@.len() == 10,
        "--playouts"@[2] == 'p',
        "--threads"@.len() == 9,
        "--threads"@[2] == 't',
        "--me"@.len() == 4,
        "--me"@[2] == 'm',
        "--diagram"@.len() == 9,
        "--diagram"@[2] == 'd',
        "--against"@.len() == 9,
        "--against"@[2] == 'a',
        "--engine"@.len() == 8,
        "--engine"@[2] == 'e',
        "--port"@.len() == 6,
        "--port"@[2] == 'p',
        "--bind"@.len() == 6,
        "--bind"@[2] == 'b',
        "--games"@.len() == 7,
        "--games"@[2] == 'g',
        "--handicap"@.len() == 10,
        "--handicap"@[2] == 'h',
{
    reveal_strlit("--size");
    reveal_strlit("--komi");
    reveal_strlit("--time");
    reveal_strlit("--playouts");
    reveal_strlit("--threads");
    reveal_strlit("--me");
    reveal_strlit("--diagram");
    reveal_strlit("--against");
    reveal_strlit("--engine");
    reveal_strlit("--port");
    reveal_strlit("--bind");
    reveal_strlit("--games");
    reveal_strlit("--handicap");
}

/// The settings that pairs of arguments make, one by one.
proof fn lemma_settings(args: Seq<Seq<char>>, i: int)
    requires
        0 <= i,
        2 * i <= args.len(),
        args.len() % 2 == 0,
        forall|k: int| 0 <= k && 2 * k < args.len() ==> cli::takes_value(#[trigger] args[2 * k]),
        (cli::settings_from(args, 2 * i, false)).1 is None,
    ensures
        ({
            let rest = (cli::settings_from(args, 2 * i, false)).0;
            &&& rest.len() == args.len() / 2 - i
            &&& forall|k: int|
                0 <= k < rest.len() ==> Some(#[trigger] rest[k]) == cli::setting_for(
                    args[2 * (i + k)],
                    args[2 * (i + k) + 1],
                )
        }),
    decreases args.len() - 2 * i,
{
    if 2 * i < args.len() {
        assert(cli::takes_value(args[2 * i]));
        let s = cli::setting_at(args, 2 * i, false)->Ok_0;
        lemma_options();
        assert(!(s is Mode));
        let rest = (cli::settings_from(args, 2 * i, false)).0;
        let more = (cli::settings_from(args, 2 * (i + 1), false)).0;
        assert(2 * i + 2 == 2 * (i + 1));
        assert(rest == seq![s] + more);
        lemma_settings(args, i + 1);
        assert forall|k: int| 0 <= k < rest.len() implies Some(#[trigger] rest[k])
            == cli::setting_for(args[2 * (i + k)], args[2 * (i + k) + 1]) by {
            if k > 0 {
                assert(rest[k] == more[k - 1]);
            }
        }
    }
}

/// Is the setting number `k` the one that the pair number `k` makes?
spec fn made_at(settings: Seq<SettingState>, args: Seq<Seq<char>>, k: int) -> bool {
    &&& cli::takes_value(args[2 * k])
    &&& Some(settings[k]) == cli::setting_for(args[2 * k], args[2 * k + 1])
}

spec fn made_of(settings: Seq<SettingState>, args: Seq<Seq<char>>) -> bool {
    forall|k: int| 0 <= k < settings.len() ==> #[trigger] made_at(settings, args, k)
}

#[verifier::rlimit(60)]
proof fn lemma_gathered(args: Seq<Seq<char>>, settings: Seq<SettingState>, n: nat)
    requires
        n <= settings.len(),
        2 * settings.len() <= args.len(),
        made_of(settings, args),
    ensures
        as_asked(OptionsState::gathered(settings.take(n as int)), args, n),
    decreases n,
{
    if n > 0 {
        lemma_gathered(args, settings, (n - 1) as nat);
        lemma_options();
        let now = settings.take(n as int);
        assert(now.drop_last() =~= settings.take(n - 1));
        let before = OptionsState::gathered(settings.take(n - 1));
        let s = settings[n - 1];
        assert(now.last() == s);
        let key = args[2 * (n - 1)];
        let value = args[2 * (n - 1) + 1];
        assert(made_at(settings, args, n - 1));
        assert(OptionsState::gathered(now) == before.after(s));
        assert(as_asked(before, args, (n - 1) as nat));
    } else {
        assert(settings.take(0).len() == 0);
    }
}

/// Each option sets what it names and nothing else, and the last one of its name
/// counts: what was not named is as it is without options. A thinking time and a number
/// of playouts rule each other out, and again the last one given counts.
pub proof fn law_options_set_what_they_name(args: Seq<Seq<char>>)
    requires
        args.len() % 2 == 0,
        forall|k: int| 0 <= k && 2 * k < args.len() ==> cli::takes_value(#[trigger] args[2 * k]),
        (cli::settings_from(args, 0, false)).1 is None,
    ensures
        as_asked(
            OptionsState::gathered((cli::settings_from(args, 0, false)).0),
            args,
            (args.len() / 2) as nat,
        ),
{
    let settings = (cli::settings_from(args, 0, false)).0;
    lemma_settings(args, 0);
    assert forall|k: int| 0 <= k < settings.len() implies #[trigger] made_at(settings, args, k) by {
        assert(cli::takes_value(args[2 * k]));
        assert(Some(settings[k]) == cli::setting_for(args[2 * (0 + k)], args[2 * (0 + k) + 1]));
    }
    lemma_gathered(args, settings, settings.len());
    assert(settings.take(settings.len() as int) =~= settings);
}

} // verus!
