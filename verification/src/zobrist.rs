//! Zobrist keys, one per colour and point, and the positional hash they make.
//!
//! The keys are the successive outputs of a splitmix64 stream from a fixed seed,
//! so a hash means the same thing in every run and every process.

use vstd::prelude::*;

use crate::board::{Cell, Color, NUM_CELLS};

verus! {

/// The step of a splitmix64 stream.
pub const GOLDEN: u64 = 0x9E37_79B9_7F4A_7C15;

/// Where the stream of Zobrist keys starts.
pub const SEED: u64 = 0x243F_6A88_85A3_08D3;

/// The scrambling that turns a splitmix64 state into an output.
pub open spec fn mix(state: u64) -> u64 {
    let a = (state ^ (state >> 30u64)).wrapping_mul(0xBF58_476D_1CE4_E5B9);
    let b = (a ^ (a >> 27u64)).wrapping_mul(0x94D0_49BB_1331_11EB);
    b ^ (b >> 31u64)
}

/// Advances a splitmix64 stream by one step and returns its next output.
pub fn splitmix64(state: &mut u64) -> (r: u64)
    ensures
        *final(state) == (*old(state)).wrapping_add(GOLDEN),
        r == mix(*final(state)),
{
    *state = state.wrapping_add(GOLDEN);
    let mut z: u64 = *state;
    z = (z ^ (z >> 30)).wrapping_mul(0xBF58_476D_1CE4_E5B9);
    z = (z ^ (z >> 27)).wrapping_mul(0x94D0_49BB_1331_11EB);
    z ^ (z >> 31)
}

/// The state of the key stream after `n` steps.
pub open spec fn stream_state(n: nat) -> u64
    decreases n,
{
    if n == 0 {
        SEED
    } else {
        stream_state((n - 1) as nat).wrapping_add(GOLDEN)
    }
}

/// The key of a stone of colour `c` on point `i`: black takes the first
/// `NUM_CELLS` outputs of the stream in point order, white the next.
pub open spec fn key(c: Color, i: int) -> u64 {
    mix(stream_state((c.spec_index() * NUM_CELLS + i + 1) as nat))
}

/// What the contents of point `i` add to the positional hash.
pub open spec fn cell_key(cell: Cell, i: int) -> u64 {
    match cell {
        Cell::Black => key(Color::Black, i),
        Cell::White => key(Color::White, i),
        _ => 0,
    }
}

/// The exclusive or of the keys of the stones on the first `n` points.
pub open spec fn hash_upto(cells: Seq<Cell>, n: nat) -> u64
    decreases n,
{
    if n == 0 {
        0
    } else {
        hash_upto(cells, (n - 1) as nat) ^ cell_key(cells[n - 1], n - 1)
    }
}

/// The positional hash: the exclusive or of the keys of all stones.
pub open spec fn position_hash(cells: Seq<Cell>) -> u64 {
    hash_upto(cells, cells.len())
}

proof fn lemma_stream_state(n: nat)
    ensures
        stream_state(n) == (SEED + n * GOLDEN) % 0x1_0000_0000_0000_0000,
    decreases n,
{
    if n > 0 {
        lemma_stream_state((n - 1) as nat);
        let before = SEED + (n - 1) * GOLDEN;
        assert(before + GOLDEN == SEED + n * GOLDEN) by (nonlinear_arith)
            requires
                before == SEED + (n - 1) * GOLDEN,
        ;
        vstd::arithmetic::div_mod::lemma_add_mod_noop(
            before,
            GOLDEN as int,
            0x1_0000_0000_0000_0000,
        );
    }
}

/// The key of a stone of colour `c` on point `i`.
pub fn zobrist_key(c: Color, i: usize) -> (k: u64)
    requires
        i < NUM_CELLS,
    ensures
        k == key(c, i as int),
{
    let steps: u64 = c.index() as u64 * 441 + i as u64;
    let mut state: u64 = SEED.wrapping_add(GOLDEN.wrapping_mul(steps));
    proof {
        lemma_stream_state(steps as nat);
        let m = 0x1_0000_0000_0000_0000int;
        let product = GOLDEN as int * steps as int;
        assert(steps as int * GOLDEN as int == product) by (nonlinear_arith)
            requires
                product == GOLDEN as int * steps as int,
        ;
        vstd::arithmetic::div_mod::lemma_add_mod_noop_right(SEED as int, product, m);
        assert(state == stream_state(steps as nat));
        assert(stream_state((steps + 1) as nat) == stream_state(steps as nat).wrapping_add(GOLDEN));
    }
    splitmix64(&mut state)
}

proof fn lemma_hash_upto_update(cells: Seq<Cell>, i: int, cell: Cell, n: nat)
    requires
        0 <= i < cells.len(),
        n <= cells.len(),
    ensures
        hash_upto(cells.update(i, cell), n) == if i < n {
            hash_upto(cells, n) ^ cell_key(cells[i], i) ^ cell_key(cell, i)
        } else {
            hash_upto(cells, n)
        },
    decreases n,
{
    if n > 0 {
        lemma_hash_upto_update(cells, i, cell, (n - 1) as nat);
        let rest = hash_upto(cells, (n - 1) as nat);
        let before = cell_key(cells[i], i);
        let after = cell_key(cell, i);
        let last = cell_key(cells[n - 1], n - 1);
        assert(rest ^ after == (rest ^ before) ^ before ^ after) by (bit_vector);
        assert((rest ^ before ^ after) ^ last == (rest ^ last) ^ before ^ after) by (bit_vector);
    }
}

/// Changing one point changes the hash by the old and the new key of that point.
pub proof fn lemma_position_hash_update(cells: Seq<Cell>, i: int, cell: Cell)
    requires
        0 <= i < cells.len(),
    ensures
        position_hash(cells.update(i, cell)) == position_hash(cells) ^ cell_key(cells[i], i)
            ^ cell_key(cell, i),
{
    lemma_hash_upto_update(cells, i, cell, cells.len());
}

/// A board with no stones hashes to zero.
pub proof fn lemma_no_stones_hash(cells: Seq<Cell>, n: nat)
    requires
        n <= cells.len(),
        forall|i: int| 0 <= i < n ==> cells[i] != Cell::Black && cells[i] != Cell::White,
    ensures
        hash_upto(cells, n) == 0,
    decreases n,
{
    if n > 0 {
        lemma_no_stones_hash(cells, (n - 1) as nat);
        assert(0u64 ^ 0u64 == 0u64) by (bit_vector);
    }
}

/// Multiplying by a number that has an inverse keeps different numbers different.
proof fn lemma_mul_keeps_apart(a: int, b: int, c: int, inverse: int, m: int)
    requires
        0 <= a < m,
        0 <= b < m,
        (c * inverse) % m == 1,
        (a * c) % m == (b * c) % m,
        m > 1,
    ensures
        a == b,
{
    lemma_mul_undone(a, c, inverse, m);
    lemma_mul_undone(b, c, inverse, m);
}

proof fn lemma_mul_undone(a: int, c: int, inverse: int, m: int)
    requires
        0 <= a < m,
        (c * inverse) % m == 1,
        m > 1,
    ensures
        ((a * c) % m * inverse) % m == a,
{
    vstd::arithmetic::div_mod::lemma_mul_mod_noop_left(a * c, inverse, m);
    assert((a * c) * inverse == a * (c * inverse)) by (nonlinear_arith);
    vstd::arithmetic::div_mod::lemma_mul_mod_noop_right(a, c * inverse, m);
    assert(a * 1 == a);
    vstd::arithmetic::div_mod::lemma_small_mod(a as nat, m as nat);
}

/// The scrambling keeps different states apart.
proof fn lemma_mix_keeps_apart(x: u64, y: u64)
    requires
        mix(x) == mix(y),
    ensures
        x == y,
{
    let m = 0x1_0000_0000_0000_0000int;
    let p = x ^ (x >> 30u64);
    let q = y ^ (y >> 30u64);
    let a = p.wrapping_mul(0xBF58_476D_1CE4_E5B9);
    let b = q.wrapping_mul(0xBF58_476D_1CE4_E5B9);
    let r = a ^ (a >> 27u64);
    let s = b ^ (b >> 27u64);
    let c = r.wrapping_mul(0x94D0_49BB_1331_11EB);
    let d = s.wrapping_mul(0x94D0_49BB_1331_11EB);
    assert(c ^ (c >> 31u64) == d ^ (d >> 31u64) ==> c == d) by (bit_vector);
    assert((0x94D0_49BB_1331_11EBint * 0x3196_42B2_D24D_8EC3int) % m == 1);
    lemma_mul_keeps_apart(
        r as int,
        s as int,
        0x94D0_49BB_1331_11EBint,
        0x3196_42B2_D24D_8EC3int,
        m,
    );
    assert(a ^ (a >> 27u64) == b ^ (b >> 27u64) ==> a == b) by (bit_vector);
    assert((0xBF58_476D_1CE4_E5B9int * 0x96DE_1B17_3F11_9089int) % m == 1);
    lemma_mul_keeps_apart(
        p as int,
        q as int,
        0xBF58_476D_1CE4_E5B9int,
        0x96DE_1B17_3F11_9089int,
        m,
    );
    assert(x ^ (x >> 30u64) == y ^ (y >> 30u64) ==> x == y) by (bit_vector);
}

proof fn lemma_stream_keeps_apart(n: nat, k: nat)
    requires
        n < 0x1_0000,
        k < 0x1_0000,
        stream_state(n) == stream_state(k),
    ensures
        n == k,
{
    let m = 0x1_0000_0000_0000_0000int;
    lemma_stream_state(n);
    lemma_stream_state(k);
    let a = n * GOLDEN;
    let b = k * GOLDEN;
    assert((SEED + a) % m == (SEED + b) % m);
    vstd::arithmetic::div_mod::lemma_mod_equivalence(SEED + a, SEED + b, m);
    vstd::arithmetic::div_mod::lemma_mod_equivalence(a, b, m);
    assert((SEED + a) - (SEED + b) == a - b);
    assert((0x9E37_79B9_7F4A_7C15int * 0xF1DE_83E1_9937_733Dint) % m == 1);
    lemma_mul_keeps_apart(
        n as int,
        k as int,
        0x9E37_79B9_7F4A_7C15int,
        0xF1DE_83E1_9937_733Dint,
        m,
    );
}

/// Every stone has a key of its own: stones of different colour or on different points
/// have different keys.
pub proof fn law_stones_have_keys_of_their_own(c: Color, i: int, d: Color, j: int)
    requires
        0 <= i < NUM_CELLS,
        0 <= j < NUM_CELLS,
        key(c, i) == key(d, j),
    ensures
        c == d,
        i == j,
{
    let n = (c.spec_index() * NUM_CELLS + i + 1) as nat;
    let k = (d.spec_index() * NUM_CELLS + j + 1) as nat;
    lemma_mix_keeps_apart(stream_state(n), stream_state(k));
    lemma_stream_keeps_apart(n, k);
}

/// Changing one stone for another changes the hash: two positions that hold stones of
/// different colour on one point, and otherwise the same, are told apart.
pub proof fn law_one_stone_changes_the_hash(cells: Seq<Cell>, i: int)
    requires
        0 <= i < cells.len() <= NUM_CELLS,
    ensures
        position_hash(cells.update(i, Cell::Black)) != position_hash(
            cells.update(i, Cell::White),
        ),
{
    let black = cells.update(i, Cell::Black);
    let white = cells.update(i, Cell::White);
    lemma_hash_upto_update(black, i, Cell::White, cells.len());
    assert(black.update(i, Cell::White) =~= white);
    let h = position_hash(black);
    let a = key(Color::Black, i);
    let b = key(Color::White, i);
    if a == b {
        law_stones_have_keys_of_their_own(Color::Black, i, Color::White, i);
    }
    assert(a != b ==> h ^ a ^ b != h) by (bit_vector);
}

} // verus!
