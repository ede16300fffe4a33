//! The random stream behind token sampling.
use vstd::prelude::*;

verus! {

/// One step of the xorshift generator with shifts 13, 7 and 17.
pub open spec fn xorshift(s: u64) -> u64 {
    let a = s ^ (s << 13u64);
    let b = a ^ (a >> 7u64);
    b ^ (b << 17u64)
}

/// A 64-bit xorshift generator.
#[derive(Clone, Copy, Debug, PartialEq, Eq, Structural)]
pub struct Xorshift64 {
    pub state: u64,
}

impl Xorshift64 {
    /// A generator that starts from `seed`.
    pub fn new(seed: u64) -> (r: Self)
        ensures
            r.state == seed,
    {
        Xorshift64 { state: seed }
    }

    /// A generator that goes on from a saved state.
    pub fn restore(state: u64) -> (r: Self)
        ensures
            r.state == state,
    {
        Xorshift64 { state }
    }

    /// Advance the generator and return its new state.
    pub fn next_u64(&mut self) -> (v: u64)
        ensures
            v == xorshift(old(self).state),
            final(self).state == v,
    {
        let mut s: u64 = self.state;
        s = s ^ (s << 13u64);
        s = s ^ (s >> 7u64);
        s = s ^ (s << 17u64);
        self.state = s;
        s
    }

    /// Advance the generator and return a number of 24 bits, to be read as a
    /// fraction of `2^24`: a sample of the unit interval without its upper end.
    pub fn next_unit24(&mut self) -> (v: u32)
        ensures
            v as u64 == xorshift(old(self).state) >> 40u64,
            v < 0x100_0000,
            final(self).state == xorshift(old(self).state),
    {
        let s: u64 = self.next_u64();
        assert(s >> 40u64 < 0x100_0000u64) by (bit_vector);
        (s >> 40u64) as u32
    }
}

/// A generator that does not start from zero never reaches zero, so the stream
/// never gets stuck.
pub proof fn law_xorshift_never_reaches_zero(s: u64)
    requires
        s != 0,
    ensures
        xorshift(s) != 0,
{
    assert(s != 0 ==> ({
        let a = s ^ (s << 13u64);
        let b = a ^ (a >> 7u64);
        b ^ (b << 17u64)
    }) != 0) by (bit_vector);
}

/// The state before `y`: each of the three shifts of a step is undone, the last one first.
pub open spec fn unshifted(y: u64) -> u64 {
    let b = y ^ (y << 17u64) ^ (y << 34u64) ^ (y << 51u64);
    let a = b ^ (b >> 7u64) ^ (b >> 14u64) ^ (b >> 21u64) ^ (b >> 28u64) ^ (b >> 35u64) ^ (b
        >> 42u64) ^ (b >> 49u64) ^ (b >> 56u64) ^ (b >> 63u64);
    a ^ (a << 13u64) ^ (a << 26u64) ^ (a << 39u64) ^ (a << 52u64)
}

/// A step of the generator can be undone, so that no two states lead to the same one.
pub proof fn law_steps_can_be_undone(s: u64)
    ensures
        unshifted(xorshift(s)) == s,
{
    let a = s ^ (s << 13u64);
    let b = a ^ (a >> 7u64);
    let y = b ^ (b << 17u64);
    assert(y ^ (y << 17u64) ^ (y << 34u64) ^ (y << 51u64) == b) by (bit_vector)
        requires
            y == b ^ (b << 17u64),
    ;
    assert(b ^ (b >> 7u64) ^ (b >> 14u64) ^ (b >> 21u64) ^ (b >> 28u64) ^ (b >> 35u64) ^ (b
        >> 42u64) ^ (b >> 49u64) ^ (b >> 56u64) ^ (b >> 63u64) == a) by (bit_vector)
        requires
            b == a ^ (a >> 7u64),
    ;
    assert(a ^ (a << 13u64) ^ (a << 26u64) ^ (a << 39u64) ^ (a << 52u64) == s) by (bit_vector)
        requires
            a == s ^ (s << 13u64),
    ;
}

/// A draw is the upper 24 bits of the state that it leads to: of the states, as many lead
/// to one draw as to any other.
pub proof fn law_draws_are_the_upper_bits(s: u64)
    ensures
        draw24(s) < 0x100_0000,
        draw24(s) * 0x100_0000_0000 <= xorshift(s) < (draw24(s) + 1) * 0x100_0000_0000,
{
    let x = xorshift(s);
    assert(x >> 40u64 < 0x100_0000u64) by (bit_vector);
    assert(x >> 40u64 == x / 0x100_0000_0000u64) by (bit_vector);
}

/// A token is drawn by as many of the draws as it has probability: those from the bound of
/// the tokens before it up to its own.
pub proof fn law_tokens_are_drawn_by_their_share(cumulative: Seq<u32>, u: u64, i: int)
    requires
        selected(cumulative, u, i),
        forall|j: int, k: int|
            0 <= j <= k < cumulative.len() ==> #[trigger] cumulative[j] <= #[trigger] cumulative[k],
        u < cumulative.last(),
    ensures
        i == 0 || cumulative[i - 1] <= u,
        u < cumulative[i],
        forall|k: int|
            0 <= k < cumulative.len() && k != i ==> !(u < #[trigger] cumulative[k] && (k == 0
                || cumulative[k - 1] <= u)),
{
    assert forall|k: int| 0 <= k < cumulative.len() && k != i implies !(u
        < #[trigger] cumulative[k] && (k == 0 || cumulative[k - 1] <= u)) by {
        if k > i {
            assert(cumulative[i] <= cumulative[k - 1]);
        } else {
            assert(cumulative[k] <= u);
        }
    }
}

/// How a session samples. The numeric knobs belong to the sampling kernel; the
/// library keeps what makes a run repeatable.
#[derive(Clone, Copy, Debug, PartialEq, Eq, Structural)]
pub struct SamplerConfig {
    pub seed: u64,
}

/// The sampling state that a session carries along.
#[derive(Clone, Copy, Debug, PartialEq, Eq, Structural)]
pub struct Sampler {
    pub rng: Xorshift64,
}

impl Sampler {
    pub fn new(cfg: SamplerConfig) -> (s: Self)
        ensures
            s.rng.state == cfg.seed,
    {
        Sampler { rng: Xorshift64::new(cfg.seed) }
    }
}

// ── Greedy choice ────────────────────────────────────────────────────────────

/// The place of a 32-bit floating-point pattern in the total order of its
/// values: negative patterns in reverse, below the positive ones.
pub open spec fn order_key(bits: u32) -> int {
    if bits < 0x8000_0000 {
        bits as int
    } else {
        0x7FFF_FFFF - bits
    }
}

/// `i` is the last place of the largest value of `logits`.
pub open spec fn is_argmax(logits: Seq<u32>, i: int) -> bool {
    &&& 0 <= i < logits.len()
    &&& forall|j: int|
        0 <= j < logits.len() ==> order_key(#[trigger] logits[j]) <= order_key(logits[i])
    &&& forall|j: int| i < j < logits.len() ==> order_key(#[trigger] logits[j]) < order_key(logits[i])
}

fn key_of(bits: u32) -> (k: i64)
    ensures
        k == order_key(bits),
{
    if bits < 0x8000_0000 {
        bits as i64
    } else {
        0x7FFF_FFFF - bits as i64
    }
}

/// The index of the largest logit, given as bit patterns; the last one where
/// several are equally large, 0 where there is none.
pub fn argmax(logits: &[u32]) -> (i: usize)
    ensures
        logits@.len() == 0 ==> i == 0,
        logits@.len() > 0 ==> is_argmax(logits@, i as int),
{
    if logits.len() == 0 {
        return 0;
    }
    let mut best: usize = 0;
    let mut i: usize = 1;
    while i < logits.len()
        invariant
            1 <= i <= logits@.len(),
            best < i,
            forall|j: int|
                0 <= j < i ==> order_key(#[trigger] logits@[j]) <= order_key(logits@[best as int]),
            forall|j: int|
                best < j < i ==> order_key(#[trigger] logits@[j]) < order_key(
                    logits@[best as int],
                ),
        decreases logits@.len() - i,
    {
        if key_of(logits[i]) >= key_of(logits[best]) {
            best = i;
        }
        i = i + 1;
    }
    best
}

// ── Sampling ─────────────────────────────────────────────────────────────────

/// The draw that follows state `s`, a 24-bit fraction of the unit interval.
pub open spec fn draw24(s: u64) -> u64 {
    xorshift(s) >> 40u64
}

/// The token that a draw `u` selects: the first whose cumulative probability
/// exceeds it, the last one where none does.
pub open spec fn selected(cumulative: Seq<u32>, u: u64, i: int) -> bool {
    &&& 0 <= i < cumulative.len()
    &&& forall|j: int| 0 <= j < i ==> u >= #[trigger] cumulative[j]
    &&& u < cumulative[i] || i == cumulative.len() - 1
}

/// Draw from a distribution given by its cumulative probabilities, in units of
/// `2^-24`: the number of draws that fall below each bound.
pub fn sample_from_probs(cumulative: &[u32], rng: &mut Xorshift64) -> (token: u32)
    requires
        0 < cumulative@.len() <= u32::MAX,
    ensures
        selected(cumulative@, draw24(old(rng).state), token as int),
        final(rng).state == xorshift(old(rng).state),
{
    let u: u32 = rng.next_unit24();
    let mut i: usize = 0;
    while i + 1 < cumulative.len() && u >= cumulative[i]
        invariant
            i < cumulative@.len() <= u32::MAX,
            forall|j: int| 0 <= j < i ==> u >= #[trigger] cumulative@[j],
        decreases cumulative@.len() - i,
    {
        i = i + 1;
    }
    i as u32
}

/// A draw selects exactly one token, so that a fixed seed gives a fixed stream.
pub proof fn law_selection_is_deterministic(cumulative: Seq<u32>, u: u64, i: int, j: int)
    requires
        selected(cumulative, u, i),
        selected(cumulative, u, j),
    ensures
        i == j,
{
    if i < j {
        assert(u >= cumulative[i]);
    }
    if j < i {
        assert(u >= cumulative[j]);
    }
}

/// A token that has all the probability is always drawn.
pub proof fn law_certain_token_is_always_drawn(cumulative: Seq<u32>, s: u64, hot: int, i: int)
    requires
        0 <= hot < cumulative.len(),
        forall|j: int| 0 <= j < hot ==> #[trigger] cumulative[j] == 0,
        cumulative[hot] >= 0x100_0000,
        selected(cumulative, draw24(s), i),
    ensures
        i == hot,
{
    let x = xorshift(s);
    assert(x >> 40u64 < 0x100_0000u64) by (bit_vector);
    if i < hot {
        assert(cumulative[i] == 0);
    }
    if hot < i {
        assert(draw24(s) >= cumulative[hot]);
    }
}

/// `a` stands for a larger number than `b`: the sign decides first, then the magnitude in
/// the other bits, which counts the other way round below zero.
pub open spec fn above(a: u32, b: u32) -> bool {
    let (minus_a, minus_b) = (a / 0x8000_0000 == 1, b / 0x8000_0000 == 1);
    let (size_a, size_b) = (a % 0x8000_0000, b % 0x8000_0000);
    if minus_a != minus_b {
        minus_b
    } else if minus_a {
        size_a < size_b
    } else {
        size_a > size_b
    }
}

/// The greedy choice is a largest logit, by sign and magnitude, and the last of those that
/// are equal to it. There is only one such choice.
pub proof fn law_greedy_choice_is_the_last_of_the_largest(logits: Seq<u32>, i: int, j: int)
    requires
        is_argmax(logits, i),
        0 <= j < logits.len(),
    ensures
        !above(logits[j], logits[i]),
        logits[j] == logits[i] || above(logits[i], logits[j]),
        logits[j] == logits[i] ==> j <= i,
        is_argmax(logits, j) ==> j == i,
{
}

} // verus!
