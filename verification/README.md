# gobot

A Go engine for small boards, and a second opinion on a game you are playing
somewhere else: enter the position, enter your opponent's moves as they come, and
it says what it would play. The library is written in Verus, and verified but for one
contract that is taken on trust: that `String::push` appends a character.

| | |
|---|---|
| `src/rules.rs`, `src/area.rs`, `src/zobrist.rs` | what the rules are: chains, liberties, captures, ko, eyes, scoring, hashing |
| `src/board.rs` | the board that keeps them |
| `src/game.rs` | positional superko and undo |
| `src/laws.rs`, `src/rebuild.rs` | what follows from the rules, of every position |
| `src/mcts.rs`, `src/tree.rs` | playouts, and the search tree step by step |
| `src/drive.rs`, `src/search.rs` | growing trees by a way of choosing, and the summary of several trees |
| `src/coords.rs`, `src/text.rs` | vertex names, diagrams and plain text |
| `src/gtp.rs` | the text protocol |
| `src/arena.rs` | other engines: what they are sent and what they answer |
| `src/web.rs` | the web board: what the page is answered |
| `src/cli.rs` | the command line and the terminal board |
| `src/bits.rs`, `src/order.rs` | sets of points, and stable ranking |
| `app/` | the program: processes, sockets, threads, the clock, and floating point |

Komi is a floating-point number, so the library counts margins: `score_area` and
`score` return Black's points less White's, before komi, and whoever calls subtracts
it. The choice of a branch in the tree weighs win rates and stays in `app/` for the
same reason: `drive` takes it as a function.
