//! A deterministic, integer-only generator (SplitMix64).
//!
//! The whole project rests on a seed standing for exactly one run, so nothing
//! here touches the operating system. Each operation is stated as a function
//! of the 64-bit state, which is also what makes a run replayable: the same
//! state gives the same draw and the same next state.
use vstd::prelude::*;

verus! {

/// The fixed odd increment of SplitMix64.
pub const GAMMA: u64 = 0x9E37_79B9_7F4A_7C15;

/// Two to the power of 64: the number of values a single draw can take.
pub open spec fn draws() -> int {
    0x1_0000_0000_0000_0000
}

/// The SplitMix64 finalizer.
pub open spec fn mixed(z: u64) -> u64 {
    let a = (z ^ (z >> 30)).wrapping_mul(0xBF58_476D_1CE4_E5B9);
    let b = (a ^ (a >> 27)).wrapping_mul(0x94D0_49BB_1331_11EB);
    b ^ (b >> 31)
}

/// The state that follows `state` once a value has been drawn.
pub open spec fn advanced(state: u64) -> u64 {
    state.wrapping_add(GAMMA)
}

/// The value drawn from `state`.
pub open spec fn drawn(state: u64) -> u64 {
    mixed(advanced(state))
}

/// The value `gen_range(lo, hi)` gives in `state`: the draw scaled down to the
/// width of the range.
pub open spec fn in_range(state: u64, lo: u64, hi: u64) -> u64 {
    (lo + (drawn(state) * (hi - lo)) / draws()) as u64
}

/// Whether a `numerator` in `denominator` chance comes up in `state`.
pub open spec fn comes_up(state: u64, numerator: u64, denominator: u64) -> bool {
    in_range(state, 0, denominator) < numerator
}

/// The state a stream labelled `label` starts from under `seed`.
pub open spec fn stream_state(seed: u64, label: u64) -> u64 {
    mixed(seed ^ label.wrapping_mul(GAMMA))
}

/// A draw scaled to a range stays inside it.
pub proof fn lemma_range_bounds(state: u64, lo: u64, hi: u64)
    requires
        lo < hi,
    ensures
        lo <= in_range(state, lo, hi) < hi,
        in_range(state, lo, hi) == lo + (drawn(state) * (hi - lo)) / draws(),
{
    let d: int = drawn(state) as int;
    let span: int = hi - lo;
    assert(0 <= d * span / draws() < span) by (nonlinear_arith)
        requires
            0 <= d < draws(),
            0 < span,
            draws() == 0x1_0000_0000_0000_0000,
    ;
}

/// A chance of nothing never comes up, and a chance of everything always does.
pub proof fn law_chance_extremes(state: u64, denominator: u64)
    requires
        denominator > 0,
    ensures
        !comes_up(state, 0, denominator),
        comes_up(state, denominator, denominator),
{
    lemma_range_bounds(state, 0, denominator);
}

/// The draw that gave what came out of the finalizer.
spec fn unmixed(w: u64) -> u64 {
    let b = w ^ (w >> 31) ^ (w >> 62);
    let a = b.wrapping_mul(0x3196_42B2_D24D_8EC3);
    let c = a ^ (a >> 27) ^ (a >> 54);
    let z = c.wrapping_mul(0x96DE_1B17_3F11_9089);
    z ^ (z >> 30) ^ (z >> 60)
}

/// An odd factor can be taken back.
pub proof fn lemma_factor_undone(x: u64, c: u64, back: u64, k: int)
    requires
        c * back == k * draws() + 1,
    ensures
        x.wrapping_mul(c).wrapping_mul(back) == x,
{
    let m = draws();
    let p = x.wrapping_mul(c) as int;
    assert(p == (x * c) % m);
    let q = (x * c) / m;
    assert(x * c == q * m + p) by {
        vstd::arithmetic::div_mod::lemma_fundamental_div_mod(x * c, m);
        assert(m * q == q * m) by (nonlinear_arith);
    }
    assert(p * back == (x * k - q * back) * m + x) by (nonlinear_arith)
        requires
            x * c == q * m + p,
            c * back == k * m + 1,
    ;
    vstd::arithmetic::div_mod::lemma_fundamental_div_mod_converse(
        p * back,
        m,
        x * k - q * back,
        x as int,
    );
}

proof fn lemma_unmixed(w: u64)
    ensures
        mixed(unmixed(w)) == w,
{
    let b = w ^ (w >> 31) ^ (w >> 62);
    let a = b.wrapping_mul(0x3196_42B2_D24D_8EC3);
    let c = a ^ (a >> 27) ^ (a >> 54);
    let z = c.wrapping_mul(0x96DE_1B17_3F11_9089);
    let y = z ^ (z >> 30) ^ (z >> 60);
    assert(y ^ (y >> 30) == z) by (bit_vector)
        requires
            y == z ^ (z >> 30) ^ (z >> 60),
    ;
    lemma_factor_undone(
        c,
        0x96DE_1B17_3F11_9089,
        0xBF58_476D_1CE4_E5B9,
        0x70C3_BCA7_8F27_F46C,
    );
    assert(c ^ (c >> 27) == a) by (bit_vector)
        requires
            c == a ^ (a >> 27) ^ (a >> 54),
    ;
    lemma_factor_undone(
        b,
        0x3196_42B2_D24D_8EC3,
        0x94D0_49BB_1331_11EB,
        0x1CD3_36ED_A85F_1453,
    );
    assert(b ^ (b >> 31) == w) by (bit_vector)
        requires
            b == w ^ (w >> 31) ^ (w >> 62),
    ;
}

/// No two states give the same draw.
pub proof fn law_states_draw_apart(s: u64, t: u64)
    requires
        drawn(s) == drawn(t),
    ensures
        s == t,
{
    let x = advanced(s);
    let y = advanced(t);
    let a = (x ^ (x >> 30)).wrapping_mul(0xBF58_476D_1CE4_E5B9);
    let b = (y ^ (y >> 30)).wrapping_mul(0xBF58_476D_1CE4_E5B9);
    let c = (a ^ (a >> 27)).wrapping_mul(0x94D0_49BB_1331_11EB);
    let d = (b ^ (b >> 27)).wrapping_mul(0x94D0_49BB_1331_11EB);
    assert(c == d) by (bit_vector)
        requires
            c ^ (c >> 31) == d ^ (d >> 31),
    ;
    lemma_factor_undone(
        a ^ (a >> 27),
        0x94D0_49BB_1331_11EB,
        0x3196_42B2_D24D_8EC3,
        0x1CD3_36ED_A85F_1453,
    );
    lemma_factor_undone(
        b ^ (b >> 27),
        0x94D0_49BB_1331_11EB,
        0x3196_42B2_D24D_8EC3,
        0x1CD3_36ED_A85F_1453,
    );
    assert(a == b) by (bit_vector)
        requires
            a ^ (a >> 27) == b ^ (b >> 27),
    ;
    lemma_factor_undone(
        x ^ (x >> 30),
        0xBF58_476D_1CE4_E5B9,
        0x96DE_1B17_3F11_9089,
        0x70C3_BCA7_8F27_F46C,
    );
    lemma_factor_undone(
        y ^ (y >> 30),
        0xBF58_476D_1CE4_E5B9,
        0x96DE_1B17_3F11_9089,
        0x70C3_BCA7_8F27_F46C,
    );
    assert(x == y) by (bit_vector)
        requires
            x ^ (x >> 30) == y ^ (y >> 30),
    ;
}

/// The state from which a value is drawn.
pub closed spec fn origin(value: u64) -> u64 {
    unmixed(value).wrapping_sub(GAMMA)
}

/// Every value can be drawn.
pub proof fn law_every_value_can_be_drawn(value: u64)
    ensures
        drawn(origin(value)) == value,
{
    lemma_unmixed(value);
}

/// A larger draw never gives less, and every number of a range can come out of
/// it.
pub proof fn law_ranges_are_reached(s: u64, t: u64, lo: u64, hi: u64, n: u64)
    requires
        lo <= n < hi,
    ensures
        drawn(s) <= drawn(t) ==> in_range(s, lo, hi) <= in_range(t, lo, hi),
        exists|state: u64| #[trigger] in_range(state, lo, hi) == n,
{
    lemma_range_bounds(s, lo, hi);
    lemma_range_bounds(t, lo, hi);
    let span: int = hi - lo;
    let m = draws();
    if drawn(s) <= drawn(t) {
        let a = drawn(s) as int;
        let b = drawn(t) as int;
        assert(a * span <= b * span) by (nonlinear_arith)
            requires
                a <= b,
                span > 0,
        ;
        vstd::arithmetic::div_mod::lemma_div_is_ordered(a * span, b * span, m);
    }
    let k: int = n - lo;
    // The smallest draw that reaches it.
    let v: int = (k * m + span - 1) / span;
    vstd::arithmetic::div_mod::lemma_fundamental_div_mod(k * m + span - 1, span);
    let r = (k * m + span - 1) % span;
    vstd::arithmetic::div_mod::lemma_mod_bound(k * m + span - 1, span);
    assert(span * v == k * m + span - 1 - r);
    assert(k * m <= v * span < (k + 1) * m) by (nonlinear_arith)
        requires
            span * v == k * m + span - 1 - r,
            0 <= r < span <= m,
    ;
    assert(0 <= v < m) by (nonlinear_arith)
        requires
            k * m <= v * span < (k + 1) * m,
            0 <= k < span,
            m > 0,
    ;
    let state = origin(v as u64);
    law_every_value_can_be_drawn(v as u64);
    lemma_range_bounds(state, lo, hi);
    assert(v * span == k * m + (v * span - k * m) && (k + 1) * m == k * m + m)
        by (nonlinear_arith);
    vstd::arithmetic::div_mod::lemma_fundamental_div_mod_converse(
        v * span,
        m,
        k,
        v * span - k * m,
    );
    assert(in_range(state, lo, hi) == n);
}

/// The smaller a chance, the less often it comes up, and any chance at all may
/// come up or not.
pub proof fn law_chances_grow(state: u64, fewer: u64, more: u64, denominator: u64)
    requires
        fewer <= more,
        denominator > 0,
    ensures
        comes_up(state, fewer, denominator) ==> comes_up(state, more, denominator),
        0 < more ==> exists|s: u64| #[trigger] comes_up(s, more, denominator),
        more < denominator ==> exists|s: u64| !(#[trigger] comes_up(s, more, denominator)),
{
    if 0 < more {
        law_ranges_are_reached(state, state, 0, denominator, 0);
        let s = choose|s: u64| #[trigger] in_range(s, 0, denominator) == 0;
        assert(comes_up(s, more, denominator));
    }
    if more < denominator {
        law_ranges_are_reached(state, state, 0, denominator, more);
        let s = choose|s: u64| #[trigger] in_range(s, 0, denominator) == more;
        assert(!comes_up(s, more, denominator));
    }
}

/// Under one label, no two seeds start from the same state, and there is a seed
/// for every state.
pub proof fn law_seeds_start_apart(a: u64, b: u64, label: u64, state: u64)
    ensures
        stream_state(a, label) == stream_state(b, label) ==> a == b,
        exists|seed: u64| #[trigger] stream_state(seed, label) == state,
{
    let k = label.wrapping_mul(GAMMA);
    if stream_state(a, label) == stream_state(b, label) {
        let x = (a ^ k).wrapping_sub(GAMMA);
        let y = (b ^ k).wrapping_sub(GAMMA);
        assert(advanced(x) == a ^ k && advanced(y) == b ^ k);
        law_states_draw_apart(x, y);
        assert(a ^ k == b ^ k);
        assert(a == b) by (bit_vector)
            requires
                a ^ k == b ^ k,
        ;
    }
    lemma_unmixed(state);
    let z = unmixed(state);
    let seed = z ^ k;
    assert(seed ^ k == z) by (bit_vector)
        requires
            seed == z ^ k,
    ;
    assert(stream_state(seed, label) == state);
}

/// The product of two 64-bit values, shifted down by 64 bits, is its quotient
/// by the number of draws.
proof fn lemma_shift_is_quotient(product: u128)
    ensures
        product >> 64 == product / 0x1_0000_0000_0000_0000u128,
{
    assert(product >> 64 == product / 0x1_0000_0000_0000_0000u128) by (bit_vector);
}

#[derive(Debug, PartialEq, Eq)]
pub struct Rng {
    state: u64,
}

impl View for Rng {
    type V = u64;

    closed spec fn view(&self) -> u64 {
        self.state
    }
}

impl Clone for Rng {
    fn clone(&self) -> (r: Self)
        ensures
            r == *self,
    {
        Rng { state: self.state }
    }
}

impl Rng {
    pub fn new(seed: u64) -> (r: Self)
        ensures
            r@ == seed,
    {
        Rng { state: seed }
    }

    /// Derive an independent stream from a parent seed and a stream label.
    ///
    /// Mixing the label through the finalizer, rather than adding it, keeps
    /// neighbouring labels from producing correlated streams.
    pub fn derive(seed: u64, label: u64) -> (r: Self)
        ensures
            r@ == stream_state(seed, label),
    {
        Rng::new(mix(seed ^ label.wrapping_mul(GAMMA)))
    }

    pub fn next_u64(&mut self) -> (r: u64)
        ensures
            final(self)@ == advanced(old(self)@),
            r == drawn(old(self)@),
    {
        self.state = self.state.wrapping_add(GAMMA);
        mix(self.state)
    }

    /// Uniform integer in `[lo, hi)`.
    ///
    /// A widening multiply and shift instead of `%`, which avoids modulo bias
    /// and is exactly defined on every target.
    pub fn gen_range(&mut self, lo: u64, hi: u64) -> (r: u64)
        requires
            lo < hi,
        ensures
            final(self)@ == advanced(old(self)@),
            r == in_range(old(self)@, lo, hi),
            lo <= r < hi,
    {
        let span: u64 = hi - lo;
        let draw: u64 = self.next_u64();
        proof {
            assert(draw as u128 * span as u128 <= 0xffff_ffff_ffff_ffffu128
                * 0xffff_ffff_ffff_ffffu128) by (nonlinear_arith)
                requires
                    draw <= 0xffff_ffff_ffff_ffffu64,
                    span <= 0xffff_ffff_ffff_ffffu64,
            ;
        }
        let product: u128 = (draw as u128) * (span as u128);
        proof {
            lemma_shift_is_quotient(product);
            lemma_range_bounds(old(self)@, lo, hi);
            assert(product as int == drawn(old(self)@) * (hi - lo));
        }
        lo + (product >> 64) as u64
    }

    /// True with probability `numerator / denominator`.
    ///
    /// Integer-only on purpose: floating point is not guaranteed to agree
    /// across platforms, and fault probabilities feed directly into behaviour.
    pub fn chance(&mut self, numerator: u64, denominator: u64) -> (r: bool)
        requires
            denominator > 0,
        ensures
            final(self)@ == advanced(old(self)@),
            r == comes_up(old(self)@, numerator, denominator),
    {
        self.gen_range(0, denominator) < numerator
    }
}

/// SplitMix64 finalizer.
fn mix(z: u64) -> (r: u64)
    ensures
        r == mixed(z),
{
    let a: u64 = (z ^ (z >> 30)).wrapping_mul(0xBF58_476D_1CE4_E5B9);
    let b: u64 = (a ^ (a >> 27)).wrapping_mul(0x94D0_49BB_1331_11EB);
    b ^ (b >> 31)
}

} // verus!
