use rand::Rng;
use rand::SeedableRng;
use rand_chacha::ChaCha8Rng;
use vstd::prelude::*;

verus! {

/// The number below `bound` that the generator with seed `seed` draws at word
/// `word_pos` of its stream, and the word at which it goes on, where `usize` has
/// `bits` bits.
pub uninterp spec fn drawn(seed: u64, word_pos: u128, bound: u64, bits: u32) -> (u64, u128);

/// Draws one index below `bound` with `rand::Rng::gen_range` from a
/// `rand_chacha::ChaCha8Rng` that was seeded with `seed_from_u64` and stands at
/// word `word_pos` of its stream. Trusted: the index is below `bound`, and the
/// index and the position after it depend on nothing but the three arguments and
/// the size of `usize`, by which `gen_range` takes one word of the stream or two.
#[verifier::external_body]
fn draw_below(seed: u64, word_pos: u128, bound: usize) -> (r: (usize, u128))
    requires
        0 < bound,
    ensures
        r.0 < bound,
        (r.0 as u64, r.1) == drawn(seed, word_pos, bound as u64, usize::BITS),
{
    let mut rng = ChaCha8Rng::seed_from_u64(seed);
    rng.set_word_pos(word_pos);
    let number: usize = rng.gen_range(0..bound);
    (number, rng.get_word_pos())
}

/// A source of sample indices: a generator by its seed and by the word of its
/// stream at which it stands.
#[derive(Clone, Copy, Debug, PartialEq, Eq, Structural)]
pub struct Sampler {
    pub seed: u64,
    pub word_pos: u128,
}

/// The first `n` numbers below `bound` that are drawn from `s` on, and where
/// the generator stands after them.
pub open spec fn draws(s: Sampler, bound: u64, n: int) -> (Seq<u64>, u128)
    decreases n,
{
    if n <= 0 {
        (Seq::empty(), s.word_pos)
    } else {
        let (before, pos) = draws(s, bound, n - 1);
        let (number, next) = drawn(s.seed, pos, bound, usize::BITS);
        (before.push(number), next)
    }
}

/// The generator after `n` draws.
pub open spec fn after_draws(s: Sampler, bound: u64, n: int) -> Sampler {
    Sampler { seed: s.seed, word_pos: draws(s, bound, n).1 }
}

impl Sampler {
    /// A generator at the start of its stream.
    pub fn new(seed: u64) -> (s: Sampler)
        ensures
            s == (Sampler { seed, word_pos: 0 }),
    {
        Sampler { seed, word_pos: 0 }
    }

    /// Draws `n` sample indices below `bound`.
    pub fn batch(&mut self, n: usize, bound: usize) -> (indices: Vec<usize>)
        requires
            0 < bound,
        ensures
            *final(self) == after_draws(*old(self), bound as u64, n as int),
            indices@.len() == n,
            forall|i: int|
                0 <= i < n ==> (#[trigger] indices@[i]) < bound && indices@[i] == draws(
                    *old(self),
                    bound as u64,
                    n as int,
                ).0[i],
    {
        let mut indices: Vec<usize> = Vec::with_capacity(n);
        let mut i: usize = 0;
        while i < n
            invariant
                i <= n,
                0 < bound,
                *self == after_draws(*old(self), bound as u64, i as int),
                indices@.len() == i,
                draws(*old(self), bound as u64, i as int).0.len() == i,
                forall|k: int|
                    0 <= k < i ==> (#[trigger] indices@[k]) < bound && indices@[k] == draws(
                        *old(self),
                        bound as u64,
                        i as int,
                    ).0[k],
            decreases n - i,
        {
            let (number, next) = draw_below(self.seed, self.word_pos, bound);
            indices.push(number);
            self.word_pos = next;
            i += 1;
        }
        indices
    }
}

/// The numbers of a batch are drawn one after the other, each where the one before left
/// the generator: number `i` of `n` is what the generator draws after `i` draws.
pub proof fn law_draws_follow_each_other(s: Sampler, bound: u64, n: int, i: int)
    requires
        0 <= i < n,
    ensures
        draws(s, bound, 0) == (Seq::<u64>::empty(), s.word_pos),
        draws(s, bound, n).0.len() == n,
        draws(s, bound, n).0[i] == drawn(s.seed, draws(s, bound, i).1, bound, usize::BITS).0,
        draws(s, bound, i + 1).1 == drawn(s.seed, draws(s, bound, i).1, bound, usize::BITS).1,
        after_draws(s, bound, n) == (Sampler { seed: s.seed, word_pos: draws(s, bound, n).1 }),
    decreases n,
{
    if i < n - 1 {
        law_draws_follow_each_other(s, bound, n - 1, i);
    } else if n > 1 {
        law_draws_follow_each_other(s, bound, n - 1, 0);
    } else {
        assert(draws(s, bound, 0).0.len() == 0);
    }
}

/// Batches continue each other: drawing `n` numbers and then `m` is drawing
/// `n + m`.
pub proof fn law_batches_continue(s: Sampler, bound: u64, n: int, m: int)
    requires
        0 <= n,
        0 <= m,
    ensures
        draws(s, bound, n + m).0 == draws(s, bound, n).0 + draws(
            after_draws(s, bound, n),
            bound,
            m,
        ).0,
        after_draws(s, bound, n + m) == after_draws(after_draws(s, bound, n), bound, m),
    decreases m,
{
    let mid = after_draws(s, bound, n);
    if m == 0 {
        assert(draws(s, bound, n).0 + draws(mid, bound, 0).0 =~= draws(s, bound, n).0);
    } else {
        law_batches_continue(s, bound, n, m - 1);
        let number = drawn(s.seed, draws(mid, bound, m - 1).1, bound, usize::BITS).0;
        assert(draws(s, bound, n).0 + draws(mid, bound, m - 1).0.push(number) =~= (draws(
            s,
            bound,
            n,
        ).0 + draws(mid, bound, m - 1).0).push(number));
    }
}

} // verus!
