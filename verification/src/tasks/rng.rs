//! Deterministic seeded generator (SplitMix64). No outside dependency, stable
//! across backends and platforms: the same seed gives the same stream,
//! everywhere.

use vstd::prelude::*;

use super::rate::Rate;

verus! {

/// Distance between two successive generator states.
pub const GAMMA: u64 = 0x9E37_79B9_7F4A_7C15;

/// First multiplier of the output function.
pub const MIX_A: u64 = 0xBF58_476D_1CE4_E5B9;

/// Second multiplier of the output function.
pub const MIX_B: u64 = 0x94D0_49BB_1331_11EB;

/// Number of generator states.
pub open spec fn period() -> int {
    0x1_0000_0000_0000_0000
}

/// The generator state `n` draws after state `s`.
pub open spec fn advance(s: u64, n: nat) -> u64 {
    ((s + n * GAMMA) % period()) as u64
}

/// The output function: what a draw that lands on state `z` hands out.
pub open spec fn scramble(z: u64) -> u64 {
    let a = (z ^ (z >> 30)).wrapping_mul(MIX_A);
    let b = (a ^ (a >> 27)).wrapping_mul(MIX_B);
    b ^ (b >> 31)
}

/// The `n`-th draw (from zero) of the stream that starts in state `s`.
pub open spec fn draw(s: u64, n: nat) -> u64 {
    scramble(advance(s, n + 1))
}

/// The `n`-th draw reduced to an index below `m`.
pub open spec fn draw_below(s: u64, n: nat, m: nat) -> nat {
    (draw(s, n) as nat) % m
}

/// Counting draws adds up: `a` draws and then `b` more are `a + b` draws.
pub proof fn lemma_advance_adds(s: u64, a: nat, b: nat)
    ensures
        advance(advance(s, a), b) == advance(s, a + b),
        forall|i: nat| #[trigger] draw(advance(s, a), i) == draw(s, a + i),
        advance(s, 0) == s,
{
    lemma_advance_step(s, a, b);
    assert forall|i: nat| #[trigger] draw(advance(s, a), i) == draw(s, a + i) by {
        lemma_advance_step(s, a, i + 1);
    }
    assert(0nat * GAMMA == 0);
}

/// The draw after `a` draws is the draw number `a`.
pub proof fn lemma_next_draw(s: u64, a: nat)
    ensures
        draw(advance(s, a), 0) == draw(s, a),
        advance(advance(s, a), 1) == advance(s, a + 1),
{
    lemma_advance_step(s, a, 1);
}

proof fn lemma_advance_step(s: u64, a: nat, b: nat)
    ensures
        advance(advance(s, a), b) == advance(s, a + b),
{
    let p = period();
    let x = s + a * GAMMA;
    let y = b * GAMMA;
    assert((a + b) * GAMMA == a * GAMMA + y) by (nonlinear_arith)
        requires
            y == b * GAMMA,
    ;
    vstd::arithmetic::div_mod::lemma_add_mod_noop(x, y, p);
    vstd::arithmetic::div_mod::lemma_add_mod_noop(x % p, y, p);
    vstd::arithmetic::div_mod::lemma_mod_twice(x, p);
}

/// `xs` with the elements at `i` and `j` exchanged.
pub open spec fn swapped<T>(xs: Seq<T>, i: int, j: int) -> Seq<T> {
    xs.update(i, xs[j]).update(j, xs[i])
}

/// Fisher-Yates from position `i` down: every position trades places with one
/// drawn from those not above it.
pub open spec fn shuffled_from<T>(xs: Seq<T>, s: u64, i: nat) -> Seq<T>
    decreases i,
{
    if i == 0 {
        xs
    } else {
        let j = draw_below(s, 0, i + 1);
        shuffled_from(swapped(xs, i as int, j as int), advance(s, 1), (i - 1) as nat)
    }
}

/// How many draws it takes to shuffle `n` elements.
pub open spec fn shuffle_draws(n: nat) -> nat {
    if n == 0 {
        0
    } else {
        (n - 1) as nat
    }
}

/// `xs` shuffled by the stream that starts in state `s`.
pub open spec fn shuffled<T>(xs: Seq<T>, s: u64) -> Seq<T> {
    shuffled_from(xs, s, shuffle_draws(xs.len()))
}

/// Exchanging two elements keeps the multiset of elements.
pub proof fn lemma_swapped_multiset<T>(xs: Seq<T>, i: int, j: int)
    requires
        0 <= i < xs.len(),
        0 <= j < xs.len(),
    ensures
        swapped(xs, i, j).to_multiset() == xs.to_multiset(),
        swapped(xs, i, j).len() == xs.len(),
{
    broadcast use vstd::seq_lib::group_to_multiset_ensures;

    let ys = xs.update(i, xs[j]);
    assert(ys.to_multiset() =~= xs.to_multiset().insert(xs[j]).remove(xs[i]));
    assert(ys[j] == xs[j]);
    let zs = ys.update(j, xs[i]);
    assert(zs.to_multiset() =~= ys.to_multiset().insert(xs[i]).remove(ys[j]));
    assert(xs.to_multiset().count(xs[i]) > 0);
    assert(zs.to_multiset() =~= xs.to_multiset());
}

/// Shuffling only reorders: every element keeps its multiplicity, whatever the
/// generator state.
pub proof fn lemma_shuffled_multiset<T>(xs: Seq<T>, s: u64, i: nat)
    requires
        i < xs.len() || i == 0,
    ensures
        shuffled_from(xs, s, i).to_multiset() == xs.to_multiset(),
        shuffled_from(xs, s, i).len() == xs.len(),
    decreases i,
{
    if i > 0 {
        let j = draw_below(s, 0, i + 1);
        lemma_swapped_multiset(xs, i as int, j as int);
        lemma_shuffled_multiset(
            swapped(xs, i as int, j as int),
            advance(s, 1),
            (i - 1) as nat,
        );
    }
}

/// Shuffling moves positions, whatever stands in them: to shuffle what is made
/// of the elements is to make it of the shuffled elements.
pub proof fn lemma_shuffled_map<T, U>(xs: Seq<T>, f: spec_fn(T) -> U, s: u64, i: nat)
    requires
        i < xs.len() || i == 0,
    ensures
        shuffled_from(xs.map_values(f), s, i) == shuffled_from(xs, s, i).map_values(f),
    decreases i,
{
    if i > 0 {
        let j = draw_below(s, 0, i + 1);
        let next = swapped(xs, i as int, j as int);
        assert(swapped(xs.map_values(f), i as int, j as int) =~= next.map_values(f));
        lemma_shuffled_map(next, f, advance(s, 1), (i - 1) as nat);
    }
}

/// Length of the string that [`HarnessRng::token_string`] draws from state `s`.
pub open spec fn token_len(s: u64, lo: nat, hi: nat) -> nat {
    lo + draw_below(s, 0, (hi - lo) as nat)
}

/// The string that [`HarnessRng::token_string`] draws from state `s`: one draw
/// for the length, then one per character.
pub open spec fn token_text(s: u64, alphabet: Seq<u8>, lo: nat, hi: nat) -> Seq<char> {
    Seq::new(
        token_len(s, lo, hi),
        |i: int| alphabet[draw_below(s, (i + 1) as nat, alphabet.len()) as int] as char,
    )
}

/// The state after [`HarnessRng::token_string`].
pub open spec fn token_after(s: u64, lo: nat, hi: nat) -> u64 {
    advance(s, 1 + token_len(s, lo, hi))
}

/// Exchanges the elements at `j` and `i` in place.
fn swap_down<T>(xs: &mut [T], i: usize, j: usize)
    requires
        j <= i < old(xs)@.len(),
    ensures
        final(xs)@ == swapped(old(xs)@, i as int, j as int),
{
    if j < i {
        let (low, high) = xs.split_at_mut(i);
        std::mem::swap(&mut low[j], &mut high[0]);
    }
}

/// The seeded generator. Its whole state is one machine word.
#[derive(Clone, Debug)]
pub struct HarnessRng(u64);

impl View for HarnessRng {
    type V = u64;

    closed spec fn view(&self) -> u64 {
        self.0
    }
}

impl HarnessRng {
    /// A generator in state `seed`.
    pub fn new(seed: u64) -> (rng: Self)
        ensures
            rng@ == seed,
    {
        Self(seed)
    }

    /// The next word of the stream.
    pub fn next_u64(&mut self) -> (r: u64)
        ensures
            r == draw(old(self)@, 0),
            final(self)@ == advance(old(self)@, 1),
    {
        self.0 = self.0.wrapping_add(GAMMA);
        proof {
            assert(1nat * GAMMA == GAMMA);
            assert(self.0 == advance(old(self).0, 1));
        }
        let mut z: u64 = self.0;
        z = (z ^ (z >> 30)).wrapping_mul(MIX_A);
        z = (z ^ (z >> 27)).wrapping_mul(MIX_B);
        z ^ (z >> 31)
    }

    /// Uniform index in `[0, n)`.
    pub fn below(&mut self, n: usize) -> (r: usize)
        requires
            n > 0,
        ensures
            r == draw_below(old(self)@, 0, n as nat),
            r < n,
            final(self)@ == advance(old(self)@, 1),
    {
        (self.next_u64() % n as u64) as usize
    }

    /// Uniform index in `[lo, hi)`.
    pub fn range(&mut self, lo: usize, hi: usize) -> (r: usize)
        requires
            lo < hi,
        ensures
            r == lo + draw_below(old(self)@, 0, (hi - lo) as nat),
            lo <= r < hi,
            final(self)@ == advance(old(self)@, 1),
    {
        lo + self.below(hi - lo)
    }

    /// A uniformly chosen element of `xs`.
    pub fn pick<'a, T>(&mut self, xs: &'a [T]) -> (r: &'a T)
        requires
            xs@.len() > 0,
        ensures
            *r == xs@[draw_below(old(self)@, 0, xs@.len()) as int],
            final(self)@ == advance(old(self)@, 1),
    {
        let i: usize = self.below(xs.len());
        &xs[i]
    }

    /// Reorders `xs` uniformly (Fisher-Yates).
    pub fn shuffle<T>(&mut self, xs: &mut [T])
        ensures
            final(xs)@ == shuffled(old(xs)@, old(self)@),
            final(xs)@.to_multiset() == old(xs)@.to_multiset(),
            final(self)@ == advance(old(self)@, shuffle_draws(old(xs)@.len())),
    {
        let n: usize = xs.len();
        proof {
            lemma_shuffled_multiset(xs@, self@, shuffle_draws(xs@.len()));
            lemma_advance_adds(self@, 0, 0);
        }
        if n == 0 {
            return;
        }
        let mut i: usize = n - 1;
        while i > 0
            invariant
                i < n == xs@.len() == old(xs)@.len(),
                shuffled(old(xs)@, old(self)@) == shuffled_from(xs@, self@, i as nat),
                self@ == advance(old(self)@, (n - 1 - i) as nat),
            decreases i,
        {
            let j: usize = self.below(i + 1);
            swap_down(xs, i, j);
            proof {
                lemma_advance_adds(old(self)@, (n - 1 - i) as nat, 1);
            }
            i = i - 1;
        }
    }

    /// A coin flip that comes up true with chance `p`.
    pub fn prob(&mut self, p: Rate) -> (r: bool)
        ensures
            r == (draw(old(self)@, 0) < p.cutoff),
            final(self)@ == advance(old(self)@, 1),
    {
        self.next_u64() < p.cutoff
    }

    /// Random ASCII string over `alphabet`, length in `[lo, hi)`.
    pub fn token_string(&mut self, alphabet: &[u8], lo: usize, hi: usize) -> (r: String)
        requires
            lo < hi,
            alphabet@.len() > 0 || token_len(old(self)@, lo as nat, hi as nat) == 0,
        ensures
            r@ == token_text(old(self)@, alphabet@, lo as nat, hi as nat),
            final(self)@ == token_after(old(self)@, lo as nat, hi as nat),
    {
        let n: usize = self.range(lo, hi);
        let mut out: String = String::new();
        let mut i: usize = 0;
        while i < n
            invariant
                i <= n,
                n == token_len(old(self)@, lo as nat, hi as nat),
                alphabet@.len() > 0 || n == 0,
                self@ == advance(old(self)@, (1 + i) as nat),
                out@ =~= token_text(old(self)@, alphabet@, lo as nat, hi as nat).take(i as int),
            decreases n - i,
        {
            let b: u8 = *self.pick(alphabet);
            out.push(b as char);
            proof {
                lemma_advance_adds(old(self)@, (1 + i) as nat, 1);
                lemma_advance_adds(old(self)@, (1 + i) as nat, 0);
                assert(draw(advance(old(self)@, (1 + i) as nat), 0) == draw(
                    old(self)@,
                    (1 + i) as nat,
                ));
            }
            i = i + 1;
        }
        out
    }
}

/// A draw below `m` is the remainder of the word drawn from the same state: the
/// word exceeds it by a multiple of `m`.
pub proof fn lemma_below_is_remainder(s: u64, i: nat, m: nat) -> (q: nat)
    requires
        m > 0,
    ensures
        draw_below(s, i, m) < m,
        draw(s, i) == q * m + draw_below(s, i, m),
{
    vstd::arithmetic::div_mod::lemma_fundamental_div_mod(draw(s, i) as int, m as int);
    let q = draw(s, i) as nat / m;
    assert(m * q == q * m) by (nonlinear_arith);
    q
}

/// The words behind [`MIX_A`] and [`MIX_B`] that undo multiplying by them.
const UNMIX_A: u64 = 0x96DE_1B17_3F11_9089;

const UNMIX_B: u64 = 0x3196_42B2_D24D_8EC3;

/// Multiplying by a word is undone by multiplying by its inverse.
proof fn lemma_unmixed(x: u64, mix: u64, unmix: u64, c: int)
    requires
        unmix * mix == 1 + c * period(),
    ensures
        ((((x * unmix) % period()) as u64) * mix) % period() == x,
        ((((x * mix) % period()) as u64) * unmix) % period() == x,
{
    let p = period();
    vstd::arithmetic::div_mod::lemma_mul_mod_noop_left(x * unmix, mix as int, p);
    vstd::arithmetic::div_mod::lemma_mul_mod_noop_left(x * mix, unmix as int, p);
    assert((x * unmix) * mix == p * (x * c) + x) by (nonlinear_arith)
        requires
            unmix * mix == 1 + c * p,
    ;
    assert((x * mix) * unmix == (x * unmix) * mix) by (nonlinear_arith);
    vstd::arithmetic::div_mod::lemma_mod_multiples_vanish(x * c, x as int, p);
    vstd::arithmetic::div_mod::lemma_small_mod(x as nat, p as nat);
}

/// Every word is drawn from some state.
pub proof fn lemma_every_word_is_drawn(v: u64, n: nat) -> (s: u64)
    ensures
        draw(s, n) == v,
{
    let p = period();
    let b = v ^ (v >> 31) ^ (v >> 62);
    assert(b ^ (b >> 31) == v) by (bit_vector)
        requires
            b == v ^ (v >> 31) ^ (v >> 62),
    ;
    let y = ((b * UNMIX_B) % p) as u64;
    lemma_unmixed(b, MIX_B, UNMIX_B, 2077064247507883091);
    let a = y ^ (y >> 27) ^ (y >> 54);
    assert(a ^ (a >> 27) == y) by (bit_vector)
        requires
            a == y ^ (y >> 27) ^ (y >> 54),
    ;
    let x = ((a * UNMIX_A) % p) as u64;
    lemma_unmixed(a, MIX_A, UNMIX_A, 8125545580553827436);
    let z = x ^ (x >> 30) ^ (x >> 60);
    assert(z ^ (z >> 30) == x) by (bit_vector)
        requires
            z == x ^ (x >> 30) ^ (x >> 60),
    ;
    let step = (n + 1) * GAMMA;
    let s = ((z - step) % p) as u64;
    vstd::arithmetic::div_mod::lemma_add_mod_noop(z - step, step, p);
    vstd::arithmetic::div_mod::lemma_add_mod_noop((z - step) % p, step, p);
    vstd::arithmetic::div_mod::lemma_mod_twice(z - step, p);
    vstd::arithmetic::div_mod::lemma_small_mod(z as nat, p as nat);
    assert(advance(s, n + 1) == z);
    s
}

/// Two states never draw the same word.
pub proof fn lemma_states_draw_apart(s: u64, t: u64, n: nat)
    requires
        draw(s, n) == draw(t, n),
    ensures
        s == t,
{
    let p = period();
    let z = advance(s, n + 1);
    let w = advance(t, n + 1);
    let (z1, w1) = (z ^ (z >> 30), w ^ (w >> 30));
    let (z2, w2) = (z1.wrapping_mul(MIX_A), w1.wrapping_mul(MIX_A));
    let (z3, w3) = (z2 ^ (z2 >> 27), w2 ^ (w2 >> 27));
    let (z4, w4) = (z3.wrapping_mul(MIX_B), w3.wrapping_mul(MIX_B));
    assert(z4 == w4) by (bit_vector)
        requires
            z4 ^ (z4 >> 31) == w4 ^ (w4 >> 31),
    ;
    lemma_unmixed(z3, MIX_B, UNMIX_B, 2077064247507883091);
    lemma_unmixed(w3, MIX_B, UNMIX_B, 2077064247507883091);
    assert(z3 == w3);
    assert(z2 == w2) by (bit_vector)
        requires
            z2 ^ (z2 >> 27) == w2 ^ (w2 >> 27),
    ;
    lemma_unmixed(z1, MIX_A, UNMIX_A, 8125545580553827436);
    lemma_unmixed(w1, MIX_A, UNMIX_A, 8125545580553827436);
    assert(z1 == w1);
    assert(z == w) by (bit_vector)
        requires
            z ^ (z >> 30) == w ^ (w >> 30),
    ;
    let step = (n + 1) * GAMMA;
    vstd::arithmetic::div_mod::lemma_sub_mod_noop(s + step, step, p);
    vstd::arithmetic::div_mod::lemma_sub_mod_noop(t + step, step, p);
    vstd::arithmetic::div_mod::lemma_small_mod(s as nat, p as nat);
    vstd::arithmetic::div_mod::lemma_small_mod(t as nat, p as nat);
}

/// Every index below `m` is drawn from some state.
pub proof fn lemma_every_index_is_drawn(j: nat, m: nat, n: nat) -> (s: u64)
    requires
        j < m,
        m <= u64::MAX,
    ensures
        draw_below(s, n, m) == j,
{
    let s = lemma_every_word_is_drawn(j as u64, n);
    vstd::arithmetic::div_mod::lemma_small_mod(j, m);
    s
}

/// Positions above `i` stay as they are, and do not matter to the others.
proof fn lemma_shuffled_below<T>(xs: Seq<T>, s: u64, i: nat)
    requires
        i < xs.len(),
    ensures
        shuffled_from(xs, s, i) == shuffled_from(xs.take(i as int + 1), s, i) + xs.skip(i as int + 1),
        shuffled_from(xs.take(i as int + 1), s, i).len() == i + 1,
    decreases i,
{
    let part = xs.take(i as int + 1);
    if i > 0 {
        let j = draw_below(s, 0, i + 1) as int;
        let all = swapped(xs, i as int, j);
        let some = swapped(part, i as int, j);
        lemma_shuffled_below(all, advance(s, 1), (i - 1) as nat);
        lemma_shuffled_below(some, advance(s, 1), (i - 1) as nat);
        assert(all.take(i as int) =~= some.take(i as int));
        assert(all.skip(i as int) =~= some.skip(i as int) + xs.skip(i as int + 1));
        assert(some.skip(i as int).len() == 1);
    }
    assert(shuffled_from(xs, s, i) =~= shuffled_from(part, s, i) + xs.skip(i as int + 1));
}

/// Shuffling deals from the back: the last place gets the element that the
/// first draw points at, the last element takes that one's place, and the rest
/// is shuffled by the draws that follow.
pub proof fn lemma_shuffle_deals<T>(xs: Seq<T>, s: u64)
    requires
        xs.len() > 0,
    ensures
        ({
            let j = (draw(s, 0) as nat % xs.len()) as int;
            shuffled(xs, s) == shuffled(
                xs.update(j, xs.last()).drop_last(),
                advance(s, 1),
            ).push(xs[j])
        }),
        shuffled(Seq::<T>::empty(), s) == Seq::<T>::empty(),
{
    let n = xs.len();
    let j = draw_below(s, 0, n) as int;
    let rest = xs.update(j, xs.last()).drop_last();
    if n > 1 {
        let i = (n - 1) as nat;
        let all = swapped(xs, i as int, j);
        lemma_shuffled_below(all, advance(s, 1), (i - 1) as nat);
        assert(all.take(i as int) =~= rest);
        assert(all.skip(i as int) =~= seq![xs[j]]);
        assert(shuffled(xs, s) =~= shuffled(rest, advance(s, 1)).push(xs[j]));
    } else {
        assert(shuffled(xs, s) =~= shuffled(rest, advance(s, 1)).push(xs[j]));
    }
}

/// A drawn string: the first draw says how much longer than `lo` it is, every
/// later one which symbol stands next, and nothing else is drawn.
pub proof fn lemma_token_draws(s: u64, alphabet: Seq<u8>, lo: nat, hi: nat)
    requires
        lo < hi,
        alphabet.len() > 0,
    ensures
        ({
            let text = token_text(s, alphabet, lo, hi);
            &&& text.len() == lo + (draw(s, 0) as int) % (hi - lo)
            &&& forall|i: int|
                0 <= i < text.len() ==> #[trigger] text[i] == alphabet[(draw(
                    s,
                    (i + 1) as nat,
                ) as nat % alphabet.len()) as int] as char
            &&& token_after(s, lo, hi) == advance(s, text.len() + 1)
        }),
{
}

/// The stream, in plain arithmetic: a state moves on by one odd constant, and
/// what is handed out is the new state, mixed with itself shifted down by 30, 27
/// and 31 places, and multiplied in between by two more odd constants.
pub proof fn lemma_stream(s: u64, z: u64, a: u64, b: u64)
    requires
        z == (s + 0x9E37_79B9_7F4A_7C15) % 0x1_0000_0000_0000_0000,
        a == ((z ^ (z / 0x4000_0000)) * 0xBF58_476D_1CE4_E5B9) % 0x1_0000_0000_0000_0000,
        b == ((a ^ (a / 0x0800_0000)) * 0x94D0_49BB_1331_11EB) % 0x1_0000_0000_0000_0000,
    ensures
        advance(s, 1) == z,
        draw(s, 0) == b ^ (b / 0x8000_0000),
{
    assert(1nat * GAMMA == GAMMA);
    assert(z >> 30 == z / 0x4000_0000 && a >> 27 == a / 0x0800_0000 && b >> 31 == b / 0x8000_0000)
        by (bit_vector);
}

} // verus!
