//! Deterministic committee sampling.  A 32-byte seed is folded into the
//! state of a small shift-register generator, which drives a partial
//! Fisher–Yates shuffle; the first `amount` entries of the shuffled pool are
//! the selected set.  The whole pipeline is a pure function of the seed, the
//! pool and the amount, so every honest node that derives the same seed
//! elects the same committee.

use vstd::prelude::*;

use crate::types::SigningError;

verus! {

/// Fallback generator state for the all-zero fold, which the shift register
/// would keep at zero forever.
pub const SEED_FOLD_BASE: u64 = 0x9E3779B97F4A7C15;

/// One step of the xorshift64 generator.
pub open spec fn spec_xorshift(state: u64) -> u64 {
    let a = state ^ (state << 13u64);
    let b = a ^ (a >> 7u64);
    b ^ (b << 17u64)
}

/// The fold of the first `n` seed bytes into a 64-bit word: byte `i` lands
/// on lane `i % 8`, starting from a fixed odd constant.
pub open spec fn spec_seed_fold(s: Seq<u8>, n: int) -> u64
    decreases n,
{
    if n <= 0 {
        SEED_FOLD_BASE
    } else {
        spec_seed_fold(s, n - 1) ^ ((s[n - 1] as u64) << ((((n - 1) % 8) * 8) as u64))
    }
}

/// The generator state a seed starts from.
pub open spec fn spec_seed_word(s: Seq<u8>) -> u64 {
    if spec_seed_fold(s, s.len() as int) == 0 {
        SEED_FOLD_BASE
    } else {
        spec_seed_fold(s, s.len() as int)
    }
}

/// The pool after the partial Fisher–Yates shuffle has fixed positions
/// `k..amount`: at each step the next position is swapped with a
/// generator-chosen position at or after it.
pub open spec fn spec_shuffle(pool: Seq<u16>, state: u64, k: int, amount: int) -> Seq<u16>
    decreases amount - k,
{
    if k < 0 || k >= amount || amount > pool.len() {
        pool
    } else {
        let st = spec_xorshift(state);
        let j = k + (st as int) % (pool.len() - k);
        let p2 = pool.update(k, pool[j]).update(j, pool[k]);
        spec_shuffle(p2, st, k + 1, amount)
    }
}

/// What the sampler returns: the first `amount` entries of the shuffled
/// pool, or an error when the pool is too small.
pub open spec fn spec_select_random_set(seed: Seq<u8>, set: Seq<u16>, amount: u16) -> Result<
    Seq<u16>,
    SigningError,
> {
    if set.len() < amount as int {
        Err(SigningError::CommitteeSelectionFailed)
    } else {
        Ok(spec_shuffle(set, spec_seed_word(seed), 0, amount as int).take(amount as int))
    }
}

/// The shuffle keeps the pool's length, draws every entry from the original
/// pool, and keeps pairwise-distinct pools pairwise distinct.
pub proof fn lemma_shuffle_preserves(pool: Seq<u16>, state: u64, k: int, amount: int)
    ensures
        spec_shuffle(pool, state, k, amount).len() == pool.len(),
        forall|x: int|
            0 <= x < pool.len() ==> pool.contains(#[trigger] spec_shuffle(pool, state, k, amount)[x]),
        pool.no_duplicates() ==> spec_shuffle(pool, state, k, amount).no_duplicates(),
    decreases amount - k,
{
    let r = spec_shuffle(pool, state, k, amount);
    if k < 0 || k >= amount || amount > pool.len() {
        assert forall|x: int| 0 <= x < pool.len() implies pool.contains(#[trigger] r[x]) by {
            assert(r[x] == pool[x]);
        }
    } else {
        let st = spec_xorshift(state);
        let j = k + (st as int) % (pool.len() - k);
        let p2 = pool.update(k, pool[j]).update(j, pool[k]);
        assert(0 <= j < pool.len());
        assert forall|x: int| 0 <= x < p2.len() implies pool.contains(#[trigger] p2[x]) by {
            if x == j {
                assert(p2[x] == pool[k]);
            } else if x == k {
                assert(p2[x] == pool[j]);
            } else {
                assert(p2[x] == pool[x]);
            }
        }
        if pool.no_duplicates() {
            assert forall|x: int, y: int|
                0 <= x < p2.len() && 0 <= y < p2.len() && x != y implies p2[x] != p2[y] by {
                let px = if x == j {
                    k
                } else if x == k {
                    j
                } else {
                    x
                };
                let py = if y == j {
                    k
                } else if y == k {
                    j
                } else {
                    y
                };
                assert(p2[x] == pool[px]);
                assert(p2[y] == pool[py]);
                assert(px != py);
            }
            assert(p2.no_duplicates());
        }
        lemma_shuffle_preserves(p2, st, k + 1, amount);
        assert forall|x: int| 0 <= x < pool.len() implies pool.contains(#[trigger] r[x]) by {
            assert(r[x] == spec_shuffle(p2, st, k + 1, amount)[x]);
            assert(p2.contains(r[x]));
            let m = choose|m: int| 0 <= m < p2.len() && p2[m] == r[x];
            assert(pool.contains(p2[m]));
        }
    }
}

/// One step of the xorshift64 generator.
fn xorshift_step(state: u64) -> (r: u64)
    ensures
        r == spec_xorshift(state),
{
    let a = state ^ (state << 13u64);
    let b = a ^ (a >> 7u64);
    b ^ (b << 17u64)
}

/// The generator state derived from a 32-byte seed.
fn seed_word(seed: &[u8; 32]) -> (r: u64)
    ensures
        r == spec_seed_word(seed@),
{
    let mut w: u64 = SEED_FOLD_BASE;
    let mut i: usize = 0;
    while i < 32
        invariant
            0 <= i <= 32,
            w == spec_seed_fold(seed@, i as int),
        decreases 32 - i,
    {
        let lane = ((i % 8) * 8) as u64;
        w = w ^ ((seed[i] as u64) << lane);
        i += 1;
    }
    if w == 0 {
        SEED_FOLD_BASE
    } else {
        w
    }
}

/// Draws a pseudo-random `amount`-element subset of `set`, determined by
/// `seed` alone: the same seed, pool and amount select the same set on
/// every node.  Fails when the pool is smaller than `amount`.
pub fn select_random_set(seed: &[u8; 32], set: Vec<u16>, amount: u16) -> (r: Result<
    Vec<u16>,
    SigningError,
>)
    ensures
        ({
            let s = spec_select_random_set(seed@, set@, amount);
            match r {
                Ok(v) => s matches Ok(sv) && v@ == sv,
                Err(e) => s == Err::<Seq<u16>, SigningError>(e),
            }
        }),
{
    if set.len() < amount as usize {
        return Err(SigningError::CommitteeSelectionFailed);
    }
    let ghost set0 = set@;
    let mut pool = set;
    let mut state = seed_word(seed);
    let ghost state0 = state;
    let mut k: usize = 0;
    while k < amount as usize
        invariant
            0 <= k <= amount as int,
            amount as int <= pool@.len(),
            pool@.len() == set0.len(),
            spec_shuffle(pool@, state, k as int, amount as int) == spec_shuffle(
                set0,
                state0,
                0,
                amount as int,
            ),
        decreases amount as int - k,
    {
        let ghost ppre = pool@;
        let st = xorshift_step(state);
        state = st;
        let range = pool.len() - k;
        let j = k + ((st % (range as u64)) as usize);
        let a = pool[k];
        let b = pool[j];
        pool[k] = b;
        pool[j] = a;
        proof {
            assert((st % (range as u64)) as int == (st as int) % (range as int));
            assert(pool@ =~= ppre.update(k as int, ppre[j as int]).update(j as int, ppre[k as int]));
        }
        k += 1;
    }
    proof {
        assert(spec_shuffle(pool@, state, amount as int, amount as int) == pool@);
    }
    pool.truncate(amount as usize);
    Ok(pool)
}

} // verus!
