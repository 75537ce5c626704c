//! Portable, seedable random number generation with independent streams.

use crate::genome::{distinct, swap_genes, swapped};
use rand_chacha::ChaCha8Rng;
use vstd::prelude::*;

verus! {

/// The generator behind [`StreamRng`]: ChaCha with 8 rounds, from `rand_chacha`.
#[verifier::external_type_specification]
#[verifier::external_body]
pub struct ExChaCha8Rng(ChaCha8Rng);

/// The number of 32-bit words of a ChaCha stream: 2^64 blocks of 16 words. A position wraps
/// around at the end.
pub const STREAM_WORDS: u128 = 0x10_0000_0000_0000_0000;

/// 2^64 words (of 32 bits) into a stream: unreachable by normal use of a generator.
pub const DERIVE_WORD_POS: u128 = 0x1_0000_0000_0000_0000;

/// The number of draws after which a rejection loop gives up and keeps its last draw: at most a
/// half of the draws are rejected, so it's never reached in practice.
pub const MAX_REJECTIONS: u64 = 0xffff_ffff_ffff_ffff;

/// The word at position `word_pos` of stream `stream` of the ChaCha8 key stream of `key`: what
/// `rand_chacha`'s `ChaCha8Rng` gives there.
pub uninterp spec fn chacha8_word(key: Seq<u8>, stream: u64, word_pos: int) -> u32;

/// The state of a generator: its 32-byte key, its stream and its word position in the stream.
pub type RngState = (Seq<u8>, u64, int);

/// The word `k` positions after the generator's position.
pub open spec fn stream_word(state: RngState, k: int) -> u32 {
    chacha8_word(state.0, state.1, (state.2 + k) % (STREAM_WORDS as int))
}

/// The generator `k` words later.
pub open spec fn advanced(state: RngState, k: int) -> RngState {
    (state.0, state.1, (state.2 + k) % (STREAM_WORDS as int))
}

/// Byte `b` (0 to 3) of `w`, little-endian.
pub open spec fn word_byte(w: u32, b: int) -> u8 {
    ((w >> (8 * b) as u32) & 0xff) as u8
}

/// The next `len` bytes of the generator: its next words, little-endian.
pub open spec fn stream_bytes(state: RngState, len: int) -> Seq<u8> {
    Seq::new(len as nat, |i: int| word_byte(stream_word(state, i / 4), i % 4))
}

/// The state of the PCG32 generator that expands a `u64` seed after `k` steps.
pub open spec fn pcg_state(seed: u64, k: nat) -> u64
    decreases k,
{
    if k == 0 {
        seed
    } else {
        (pcg_state(seed, (k - 1) as nat) * 0x5851_F42D_4C95_7F2Du64 + 0xA176_54E4_6FBE_17F3u64) as u64
    }
}

/// `x` rotated right by `r` bits (`r < 32`).
pub open spec fn rotate_right(x: u32, r: u32) -> u32 {
    if r == 0 { x } else { ((x >> r) | (x << (32 - r) as u32)) as u32 }
}

/// The output of PCG32 for a state: the xorshifted high bits, rotated.
pub open spec fn pcg32_output(state: u64) -> u32 {
    rotate_right((((state >> 18u64) ^ state) >> 27u64) as u32, (state >> 59u64) as u32)
}

/// The key of a generator seeded with a `u64` (`SeedableRng::seed_from_u64`): eight PCG32
/// outputs, each after a step, little-endian.
pub open spec fn seed_key(seed: u64) -> Seq<u8> {
    Seq::new(32, |i: int| word_byte(pcg32_output(pcg_state(seed, (i / 4 + 1) as nat)), i % 4))
}

/// The key of the generator derived for `id` from a generator keyed by `key`: the 32 bytes at
/// word [`DERIVE_WORD_POS`] of stream `id` of the key.
pub open spec fn derived_key(key: Seq<u8>, id: u64) -> Seq<u8> {
    stream_bytes((key, id, DERIVE_WORD_POS as int), 32)
}

/// The next 64 random bits of a generator in state `state`: its next two words, the first as the
/// low half ([`StreamRng::next_u64`]).
pub open spec fn u64_word(state: RngState) -> u64 {
    (stream_word(state, 0) + stream_word(state, 1) * 0x1_0000_0000int) as u64
}

/// The candidate of Lemire's method for the word `word` and the bound `n`: the high half of the
/// 128-bit product `word · n`.
pub open spec fn lemire_high(word: u64, n: u64) -> u64 {
    ((word * n) / 0x1_0000_0000_0000_0000int) as u64
}

/// Whether Lemire's method accepts the candidate for `word`: when the low half of `word · n` is
/// not below `2^64 mod n`.
pub open spec fn lemire_accepts(word: u64, n: u64) -> bool {
    (word * n) % 0x1_0000_0000_0000_0000int >= 0x1_0000_0000_0000_0000int % (n as int)
}

/// `count` 64-bit words drawn in turn with [`StreamRng::next_u64`] from state `state`, and the
/// state they leave.
pub open spec fn u64_words(state: RngState, count: nat) -> (Seq<u64>, RngState)
    decreases count,
{
    if count == 0 {
        (Seq::empty(), state)
    } else {
        let before = u64_words(state, (count - 1) as nat);
        (before.0.push(u64_word(before.1)), advanced(before.1, 2))
    }
}

/// The integer below `n` that a generator in state `state` draws, and its state after: the
/// candidate of the first accepted 64-bit word, or of the last word drawn once `remaining` more
/// words have been rejected.
pub open spec fn below_draw(state: RngState, n: u64, remaining: nat) -> (u64, RngState)
    decreases remaining,
{
    let word = u64_word(state);
    if lemire_accepts(word, n) || remaining == 0 {
        (lemire_high(word, n), advanced(state, 2))
    } else {
        below_draw(advanced(state, 2), n, (remaining - 1) as nat)
    }
}

/// What [`StreamRng::below`] gives from state `state`, and the state it leaves.
pub open spec fn below_once(state: RngState, n: usize) -> (usize, RngState) {
    let d = below_draw(state, n as u64, MAX_REJECTIONS as nat);
    (d.0 as usize, d.1)
}

/// The set that Floyd's algorithm has chosen after `t` of its `k` steps for `k` distinct integers
/// below `n`, from a generator in state `state`, and the state it leaves: step `t` (from 0) draws
/// `c` below `j + 1`, for `j = n - k + t`, and adds `c`, or `j` when `c` is already chosen.
pub open spec fn floyd(state: RngState, k: nat, n: nat, t: nat) -> (Set<usize>, RngState)
    decreases t,
{
    if t == 0 {
        (Set::empty(), state)
    } else {
        let before = floyd(state, k, n, (t - 1) as nat);
        let j = (n - k + t - 1) as usize;
        let d = below_once(before.1, (j + 1) as usize);
        (if before.0.contains(d.0) { before.0.insert(j) } else { before.0.insert(d.0) }, d.1)
    }
}

/// The two cuts below `n` that [`StreamRng::sample_distinct`] draws for two ([`floyd`]), in
/// ascending order, from a generator in state `state`, and the state it leaves.
pub open spec fn two_cuts(state: RngState, n: nat) -> (usize, usize, RngState) {
    let first = below_once(state, (n - 1) as usize);
    let second = below_once(first.1, n as usize);
    let other = if second.0 == first.0 { (n - 1) as usize } else { second.0 };
    if first.0 < other { (first.0, other, second.1) } else { (other, first.0, second.1) }
}

/// Two ascending integers that hold the set Floyd's algorithm chooses for two are
/// [`two_cuts`].
pub proof fn lemma_two_cuts(state: RngState, n: nat, r: Seq<usize>)
    requires
        2 <= n <= usize::MAX,
        r.len() == 2,
        r[0] < r[1],
        forall|x: usize| #![trigger r.contains(x)] r.contains(x) <==> floyd(state, 2, n, 2).0.contains(x),
    ensures
        r[0] == two_cuts(state, n).0,
        r[1] == two_cuts(state, n).1,
        floyd(state, 2, n, 2).1 == two_cuts(state, n).2,
{
    reveal_with_fuel(floyd, 3);
    let first = below_once(state, (n - 1) as usize);
    let second = below_once(first.1, n as usize);
    let other = if second.0 == first.0 { (n - 1) as usize } else { second.0 };
    assert((n - 2 + 1 - 1) as usize + 1 == n - 1);
    assert((n - 2 + 2 - 1) as usize == n - 1);
    let chosen = floyd(state, 2, n, 2).0;
    assert(chosen =~= Set::<usize>::empty().insert(first.0).insert(other));
    assert(r.contains(r[0]) && r.contains(r[1]));
    assert(r[0] == first.0 || r[0] == other);
    assert(r[1] == first.0 || r[1] == other);
}

/// Two distinct positions below `n` drawn from a generator in state `state`, and the state after:
/// the first below `n`, the second below `n - 1`, moved one up when it isn't below the first.
pub open spec fn distinct_pair(state: RngState, n: usize) -> (usize, usize, RngState) {
    let a = below_once(state, n);
    let b = below_once(a.1, (n - 1) as usize);
    (a.0, if b.0 >= a.0 { (b.0 + 1) as usize } else { b.0 }, b.1)
}

/// The Fisher-Yates shuffle of the first `i` items of `items` from a generator in state `state`,
/// and the state it leaves: for `p` from `i - 1` down to 1, the item at `p` is exchanged with the
/// one at a draw below `p + 1`.
pub open spec fn fisher_yates(items: Seq<usize>, state: RngState, i: nat) -> (Seq<usize>, RngState)
    decreases i,
{
    if i <= 1 {
        (items, state)
    } else {
        let d = below_once(state, i as usize);
        fisher_yates(swapped(items, i - 1, d.0 as int), d.1, (i - 1) as nat)
    }
}

/// A shuffle keeps the items: the same length, the same values, and distinct items stay distinct.
pub proof fn lemma_fisher_yates_keeps(items: Seq<usize>, state: RngState, i: nat)
    requires
        i <= items.len(),
        i <= usize::MAX,
    ensures
        fisher_yates(items, state, i).0.len() == items.len(),
        forall|v: usize| #[trigger] fisher_yates(items, state, i).0.contains(v) <==> items.contains(v),
        distinct(items) ==> distinct(fisher_yates(items, state, i).0),
    decreases i,
{
    if i > 1 {
        let d = below_once(state, i as usize);
        lemma_below_once_below(state, i as usize);
        let t = swapped(items, i - 1, d.0 as int);
        assert forall|v: usize| #[trigger] t.contains(v) <==> items.contains(v) by {
            if t.contains(v) {
                let w = choose|w: int| 0 <= w < t.len() && t[w] == v;
                let x = if w == i - 1 { d.0 as int } else if w == d.0 { i - 1 } else { w };
                assert(items[x] == v);
            }
            if items.contains(v) {
                let w = choose|w: int| 0 <= w < items.len() && items[w] == v;
                let x = if w == i - 1 { d.0 as int } else if w == d.0 { i - 1 } else { w };
                assert(t[x] == v);
            }
        }
        if distinct(items) {
            crate::genome::lemma_swap_distinct(items, i - 1, d.0 as int);
        }
        lemma_fisher_yates_keeps(t, d.1, (i - 1) as nat);
    }
}

/// What [`StreamRng::below`] draws is below its bound.
pub proof fn lemma_below_once_below(state: RngState, n: usize)
    requires
        n > 0,
    ensures
        below_once(state, n).0 < n,
{
    lemma_below_draw_below(state, n as u64, MAX_REJECTIONS as nat);
}

proof fn lemma_below_draw_below(state: RngState, n: u64, remaining: nat)
    requires
        n > 0,
    ensures
        below_draw(state, n, remaining).0 < n,
    decreases remaining,
{
    let word = u64_word(state);
    if lemire_accepts(word, n) || remaining == 0 {
        assert((word * n) / 0x1_0000_0000_0000_0000int < n) by (nonlinear_arith)
            requires word < 0x1_0000_0000_0000_0000int, n > 0;
    } else {
        lemma_below_draw_below(advanced(state, 2), n, (remaining - 1) as nat);
    }
}

/// `count` integers below `n` drawn in turn from state `state` with [`StreamRng::below`], and
/// the state they leave.
pub open spec fn draws_below(state: RngState, n: usize, count: nat) -> (Seq<usize>, RngState)
    decreases count,
{
    if count == 0 {
        (Seq::empty(), state)
    } else {
        let before = draws_below(state, n, (count - 1) as nat);
        let d = below_once(before.1, n);
        (before.0.push(d.0), d.1)
    }
}

/// `ChaCha8Rng::seed_from_u64` (from `rand_core::SeedableRng`, which expands the seed with
/// PCG32 into a key for `from_seed`): a generator keyed by [`seed_key`], at the start of
/// stream 0.
#[verifier::external_body]
fn chacha_seed_from_u64(seed: u64) -> (r: StreamRng)
    ensures
        r@ == (seed_key(seed), 0u64, 0int),
{
    StreamRng { inner: <ChaCha8Rng as rand::SeedableRng>::seed_from_u64(seed), state: Ghost((seed_key(seed), 0u64, 0int)) }
}

/// `ChaCha8Rng::from_seed` (from `rand_core::SeedableRng`): a generator keyed by `seed`, at the
/// start of stream 0.
#[verifier::external_body]
fn chacha_from_seed(seed: [u8; 32]) -> (r: StreamRng)
    ensures
        r@ == (seed@, 0u64, 0int),
{
    StreamRng { inner: <ChaCha8Rng as rand::SeedableRng>::from_seed(seed), state: Ghost((seed@, 0u64, 0int)) }
}

/// `ChaCha8Rng::from_rng` on rand's thread-local generator: a generator keyed by 32 bytes of
/// the operating system's randomness, at the start of stream 0. The key is not claimed.
#[verifier::external_body]
fn chacha_from_thread_rng() -> (r: StreamRng)
    ensures
        r@.0.len() == 32,
        r@.1 == 0,
        r@.2 == 0,
{
    StreamRng { inner: <ChaCha8Rng as rand::SeedableRng>::from_rng(&mut rand::rng()), state: Ghost((vstd::pervasive::arbitrary(), 0u64, 0int)) }
}

/// `ChaCha8Rng::get_seed`: the key of the generator.
#[verifier::external_body]
fn chacha_get_seed(rng: &StreamRng) -> (r: [u8; 32])
    ensures
        r@ == rng@.0,
{
    rng.inner.get_seed()
}

/// `ChaCha8Rng::set_stream`: moves to stream `stream`, at the same word position.
#[verifier::external_body]
fn chacha_set_stream(rng: &mut StreamRng, stream: u64)
    ensures
        final(rng)@ == (old(rng)@.0, stream, old(rng)@.2),
{
    rng.inner.set_stream(stream)
}

/// `ChaCha8Rng::set_word_pos`: moves to the word position `word_offset` (modulo the length of a
/// stream) of the same stream.
#[verifier::external_body]
fn chacha_set_word_pos(rng: &mut StreamRng, word_offset: u128)
    ensures
        final(rng)@ == (old(rng)@.0, old(rng)@.1, (word_offset % STREAM_WORDS) as int),
{
    rng.inner.set_word_pos(word_offset)
}

/// `ChaCha8Rng::next_u64` (from `rand_core::Rng`): the next two words of the stream, the first
/// as the low half.
#[verifier::external_body]
fn chacha_next_u64(rng: &mut StreamRng) -> (r: u64)
    ensures
        r == stream_word(old(rng)@, 0) + stream_word(old(rng)@, 1) * 0x1_0000_0000int,
        final(rng)@ == advanced(old(rng)@, 2),
{
    rand::Rng::next_u64(&mut rng.inner)
}

/// `ChaCha8Rng::next_u32` (from `rand_core::Rng`): the next word of the stream.
#[verifier::external_body]
fn chacha_next_u32(rng: &mut StreamRng) -> (r: u32)
    ensures
        r == chacha8_word(old(rng)@.0, old(rng)@.1, old(rng)@.2 % (STREAM_WORDS as int)),
        final(rng)@ == advanced(old(rng)@, 1),
{
    rand::Rng::next_u32(&mut rng.inner)
}

/// `ChaCha8Rng::fill_bytes` (from `rand_core::Rng`), for 32 bytes: the next eight words of the
/// stream, little-endian.
#[verifier::external_body]
fn chacha_fill_bytes(rng: &mut StreamRng, dst: &mut [u8; 32])
    ensures
        final(dst)@ == stream_bytes(old(rng)@, 32),
        final(rng)@ == advanced(old(rng)@, 8),
{
    rand::Rng::fill_bytes(&mut rng.inner, dst)
}

/// `Clone` of `ChaCha8Rng` (derived): a generator in the same state. Nothing is claimed of it.
pub assume_specification[ <ChaCha8Rng as core::clone::Clone>::clone ](rng: &ChaCha8Rng) -> ChaCha8Rng;

/// The random number generator used throughout the library.
///
/// - Portable: the same seed gives the same numbers on every platform (ChaCha8).
/// - Independent streams: [`derive`](StreamRng::derive) gives a generator for a run, island or
///   worker that depends only on this generator's seed and an id, not on how many numbers were
///   drawn before.
#[derive(Clone)]
pub struct StreamRng {
    inner: ChaCha8Rng,
    // the key, stream and word position of `inner`
    state: Ghost<RngState>,
}

impl View for StreamRng {
    type V = RngState;

    /// The key, the stream and the word position.
    closed spec fn view(&self) -> RngState {
        self.state@
    }
}

impl StreamRng {
    /// A generator seeded with `seed`: the same seed always gives the same numbers. Its key is
    /// the PCG32 expansion of `seed`, and it starts at the beginning of stream 0.
    pub fn seed_from_u64(seed: u64) -> (r: Self)
        ensures
            r@ == (seed_key(seed), 0u64, 0int),
    {
        chacha_seed_from_u64(seed)
    }

    /// A generator keyed by `seed`, at the beginning of stream 0.
    pub fn from_seed(seed: [u8; 32]) -> (r: Self)
        ensures
            r@ == (seed@, 0u64, 0int),
    {
        chacha_from_seed(seed)
    }

    /// A generator seeded from the operating system's randomness, so not reproducible: a random
    /// key, at the beginning of stream 0.
    pub fn from_entropy() -> (r: Self)
        ensures
            r@.0.len() == 32,
            r@.1 == 0,
            r@.2 == 0,
    {
        chacha_from_thread_rng()
    }

    /// The 32-byte key of the generator.
    pub fn seed(&self) -> (r: [u8; 32])
        ensures
            r@ == self@.0,
    {
        chacha_get_seed(self)
    }

    /// An independent generator derived from this generator's key and `id`: keyed by the 32
    /// bytes read from stream `id` of the parent's key, far beyond the part of the key stream
    /// that the parent itself uses, so it never overlaps the parent's output; it starts at the
    /// beginning of stream 0.
    pub fn derive(&self, id: u64) -> (r: Self)
        ensures
            r@ == (derived_key(self@.0, id), 0u64, 0int),
    {
        let mut source = chacha_from_seed(chacha_get_seed(self));
        chacha_set_stream(&mut source, id);
        chacha_set_word_pos(&mut source, DERIVE_WORD_POS);
        let mut seed = [0u8; 32];
        chacha_fill_bytes(&mut source, &mut seed);
        chacha_from_seed(seed)
    }

    /// The next 64 random bits: the next two words of the stream, the first as the low half.
    pub fn next_u64(&mut self) -> (r: u64)
        ensures
            r == stream_word(old(self)@, 0) + stream_word(old(self)@, 1) * 0x1_0000_0000int,
            final(self)@ == advanced(old(self)@, 2),
    {
        chacha_next_u64(self)
    }

    /// The next 32 random bits: the next word of the stream.
    pub fn next_u32(&mut self) -> (r: u32)
        ensures
            r == stream_word(old(self)@, 0),
            final(self)@ == advanced(old(self)@, 1),
    {
        chacha_next_u32(self)
    }

    /// Shuffles `items` in place (Fisher-Yates, [`fisher_yates`]).
    pub fn shuffle(&mut self, items: &mut Vec<usize>)
        ensures
            (final(items)@, final(self)@) == fisher_yates(old(items)@, old(self)@, old(items)@.len()),
    {
        let mut i = items.len();
        while i > 1
            invariant
                i <= items@.len(),
                items@.len() == old(items)@.len(),
                fisher_yates(old(items)@, old(self)@, old(items)@.len()) == fisher_yates(items@, self@, i as nat),
            decreases i,
        {
            let j = self.below(i);
            swap_genes(items, i - 1, j);
            i = i - 1;
        }
    }

    /// A uniformly random integer in `0..n` ([`below_once`]). `n` must not be 0.
    pub fn below(&mut self, n: usize) -> (r: usize)
        requires
            n > 0,
        ensures
            r < n,
            (r, final(self)@) == below_once(old(self)@, n),
    {
        let r = self.below_u64(n as u64);
        r as usize
    }

    /// A uniformly random integer in `0..n` (Lemire's method, unbiased). `n` must not be 0.
    ///
    /// Each draw is reduced by [`lemire_candidate`]; the first accepted candidate is the result.
    pub fn below_u64(&mut self, n: u64) -> (r: u64)
        requires
            n > 0,
        ensures
            r < n,
            (r, final(self)@) == below_draw(old(self)@, n, MAX_REJECTIONS as nat),
    {
        let ghost target = below_draw(old(self)@, n, MAX_REJECTIONS as nat);
        let ghost start = old(self)@;
        let mut candidate = lemire_candidate(self.next_u64(), n);
        proof {
            assert(u64_word(start) == (stream_word(start, 0) + stream_word(start, 1) * 0x1_0000_0000int));
        }
        let mut draws: u64 = 0;
        while !candidate.1 && draws < MAX_REJECTIONS
            invariant
                n > 0,
                candidate.0 < n,
                draws <= MAX_REJECTIONS,
                target == (if candidate.1 || draws == MAX_REJECTIONS {
                    (candidate.0, self@)
                } else {
                    below_draw(self@, n, (MAX_REJECTIONS - draws - 1) as nat)
                }),
            decreases MAX_REJECTIONS - draws,
        {
            let ghost before = self@;
            candidate = lemire_candidate(self.next_u64(), n);
            proof {
                assert(u64_word(before) == (stream_word(before, 0) + stream_word(before, 1) * 0x1_0000_0000int));
            }
            draws = draws + 1;
        }
        candidate.0
    }
}

/// The candidate of Lemire's method for the random word `word` and the bound `n`: the high half
/// of the 128-bit product `word · n`, and whether it is accepted, which is when the low half is
/// not below `2^64 mod n`. Accepted candidates are uniform in `0..n` for a uniform `word`.
pub fn lemire_candidate(word: u64, n: u64) -> (r: (u64, bool))
    requires
        n > 0,
    ensures
        r.0 == (word * n) / 0x1_0000_0000_0000_0000int,
        r.0 < n,
        r.1 == ((word * n) % 0x1_0000_0000_0000_0000int >= 0x1_0000_0000_0000_0000int % (n as int)),
{
    let product = wide_product(word, n);
    proof {
        lemma_high_half_below(product, n);
        assert((product >> 64) == product / 0x1_0000_0000_0000_0000) by (bit_vector);
        assert(product as u64 == product % 0x1_0000_0000_0000_0000) by (bit_vector);
    }
    let high = (product >> 64) as u64;
    let low = product as u64;
    // 2^64 mod n is below n: a low half of at least n is accepted without computing it
    let accepted = if low >= n {
        proof {
            assert(0x1_0000_0000_0000_0000int % (n as int) < n) by (nonlinear_arith)
                requires n > 0;
        }
        true
    } else {
        let threshold = ((u64::MAX - n) + 1) % n;
        proof {
            lemma_power_mod(n);
        }
        low >= threshold
    };
    (high, accepted)
}

// 2^64 − n and 2^64 leave the same remainder by n
proof fn lemma_power_mod(n: u64)
    requires
        n > 0,
    ensures
        ((u64::MAX - n) + 1) % (n as int) == 0x1_0000_0000_0000_0000int % (n as int),
{
    let m = n as int;
    let x = 0x1_0000_0000_0000_0000int - m;
    assert(x + m == 0x1_0000_0000_0000_0000int);
    vstd::arithmetic::div_mod::lemma_mod_add_multiples_vanish(x, m);
}

impl StreamRng {
    /// `k` distinct integers from `0..n`, in ascending order (Floyd's algorithm). `k <= n`.
    pub fn sample_distinct(&mut self, k: usize, n: usize) -> (r: Vec<usize>)
        requires
            k <= n,
        ensures
            r.len() == k,
            strictly_ascending(r@),
            forall|i: int| 0 <= i < r.len() ==> r[i] < n,
            forall|x: usize| #![trigger r@.contains(x)] r@.contains(x) <==> floyd(old(self)@, k as nat, n as nat, k as nat).0.contains(x),
            final(self)@ == floyd(old(self)@, k as nat, n as nat, k as nat).1,
    {
        let ghost start = self@;
        let mut selected: Vec<usize> = Vec::new();
        for j in (n - k)..n
            invariant
                k <= n,
                selected.len() == j - (n - k),
                strictly_ascending(selected@),
                forall|i: int| 0 <= i < selected.len() ==> selected[i] < j,
                forall|x: usize| #![trigger selected@.contains(x)]
                    selected@.contains(x) <==> floyd(start, k as nat, n as nat, (j - (n - k)) as nat).0.contains(x),
                self@ == floyd(start, k as nat, n as nat, (j - (n - k)) as nat).1,
        {
            let ghost t = (j - (n - k)) as nat;
            let ghost chosen = floyd(start, k as nat, n as nat, t).0;
            let candidate = self.below(j + 1);
            let ghost before = selected@;
            assert(forall|x: usize| before.contains(x) <==> chosen.contains(x));
            if !insert_sorted(&mut selected, candidate) {
                assert(!selected@.contains(j)) by {
                    if selected@.contains(j) {
                        let w = choose|w: int| 0 <= w < selected.len() && selected@[w] == j;
                    }
                }
                insert_sorted(&mut selected, j);
            }
            assert forall|i: int| 0 <= i < selected.len() implies selected[i] < j + 1 by {
                assert(selected@.contains(selected@[i]));
                if before.contains(selected@[i]) {
                    let w = choose|w: int| 0 <= w < before.len() && before[w] == selected@[i];
                }
            }
            proof {
                let next = floyd(start, k as nat, n as nat, t + 1);
                assert((n - k + (t + 1) - 1) as usize == j);
                assert(next.0 == (if chosen.contains(candidate) { chosen.insert(j) } else { chosen.insert(candidate) }));
                assert forall|x: usize| #![trigger selected@.contains(x)] selected@.contains(x) <==> next.0.contains(x) by {
                    assert(before.contains(x) == chosen.contains(x));
                }
                assert(self@ == next.1);
                assert((j + 1 - (n - k)) as nat == t + 1);
            }
        }
        selected
    }
}

/// Whether the values rise strictly from first to last: sorted, without duplicates.
pub open spec fn strictly_ascending(s: Seq<usize>) -> bool {
    forall|i: int, j: int| 0 <= i < j < s.len() ==> s[i] < s[j]
}

/// Inserts `x` into the strictly ascending `v` at its place, unless it's already there: whether
/// it was inserted.
fn insert_sorted(v: &mut Vec<usize>, x: usize) -> (inserted: bool)
    requires
        strictly_ascending(old(v)@),
    ensures
        strictly_ascending(final(v)@),
        inserted == !old(v)@.contains(x),
        forall|y: usize| final(v)@.contains(y) <==> (old(v)@.contains(y) || y == x),
        final(v)@.len() == old(v)@.len() + (if inserted { 1int } else { 0int }),
{
    let mut position: usize = 0;
    while position < v.len() && v[position] < x
        invariant
            position <= v.len(),
            forall|i: int| 0 <= i < position ==> v[i] < x,
        decreases v.len() - position,
    {
        position = position + 1;
    }
    if position < v.len() && v[position] == x {
        assert(v@.contains(x));
        return false;
    }
    let ghost before = v@;
    assert(!before.contains(x)) by {
        if before.contains(x) {
            let w = choose|w: int| 0 <= w < before.len() && before[w] == x;
            if w >= position {
                assert(before[position as int] > x);
                if w > position {
                    assert(before[position as int] < before[w]);
                }
            }
        }
    }
    v.insert(position, x);
    assert(v@ =~= before.take(position as int).push(x) + before.skip(position as int));
    assert forall|i: int, j: int| 0 <= i < j < v@.len() implies v@[i] < v@[j] by {
        if j < position {
        } else if j == position {
        } else if i < position {
            assert(before[i] < x);
            assert(x < before[position as int] || position as int == j - 1);
            assert(v@[j] == before[j - 1]);
            if j - 1 > position {
                assert(before[position as int] < before[j - 1]);
            }
        } else if i == position {
            assert(v@[j] == before[j - 1]);
            if j - 1 > position {
                assert(before[position as int] < before[j - 1]);
            }
        } else {
            assert(v@[i] == before[i - 1]);
            assert(v@[j] == before[j - 1]);
        }
    }
    assert forall|y: usize| v@.contains(y) <==> (before.contains(y) || y == x) by {
        assert(v@[position as int] == x);
        {
            if v@.contains(y) {
                let w = choose|w: int| 0 <= w < v@.len() && v@[w] == y;
                if w < position {
                    assert(before[w] == y);
                } else if w > position {
                    assert(before[w - 1] == y);
                }
            }
            if before.contains(y) {
                let w = choose|w: int| 0 <= w < before.len() && before[w] == y;
                if w < position {
                    assert(v@[w] == y);
                } else {
                    assert(v@[w + 1] == y);
                }
            }
        }
    }
    true
}

/// The 128-bit product of a random word and `n`.
fn wide_product(x: u64, n: u64) -> (p: u128)
    ensures
        p == x * n,
        n > 0 ==> p < n * 0x1_0000_0000_0000_0000,
{
    proof {
        assert(x * n <= 0xffff_ffff_ffff_ffff * 0xffff_ffff_ffff_ffff) by (nonlinear_arith)
            requires x <= 0xffff_ffff_ffff_ffff, n <= 0xffff_ffff_ffff_ffff;
        assert(n > 0 ==> x * n < n * 0x1_0000_0000_0000_0000) by (nonlinear_arith)
            requires x <= 0xffff_ffff_ffff_ffff;
    }
    (x as u128) * (n as u128)
}

proof fn lemma_high_half_below(p: u128, n: u64)
    requires
        n > 0,
        p < n * 0x1_0000_0000_0000_0000,
    ensures
        (p >> 64) < n,
{
    assert((p >> 64) == p / 0x1_0000_0000_0000_0000) by (bit_vector);
    assert(p / 0x1_0000_0000_0000_0000 < n) by (nonlinear_arith)
        requires p < n * 0x1_0000_0000_0000_0000, n > 0;
}

} // verus!
