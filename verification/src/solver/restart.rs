//! The Luby sequence that restart schedules are built on.
use vstd::prelude::*;
use vstd::arithmetic::power2::{pow2, lemma_pow2_strictly_increases, lemma_pow2_pos, lemma2_to64, lemma2_to64_rest};
use vstd::bits::{lemma_u64_shl_is_mul, lemma_u64_pow2_no_overflow};

verus! {

/// Whether `k` is the least exponent from 1 with `2^k - 1 >= n`.
pub open spec fn is_luby_block(n: nat, k: nat) -> bool {
    &&& 1 <= k
    &&& n <= pow2(k) - 1
    &&& (k == 1 || pow2((k - 1) as nat) - 1 < n)
}

/// The exponent of the block of the Luby sequence that position `n` falls in.
pub open spec fn luby_block(n: nat) -> nat {
    choose|k: nat| is_luby_block(n, k)
}

/// The Luby sequence 1, 1, 2, 1, 1, 2, 4, 1, 1, 2, 1, 1, 2, 4, 8, ... at position `n`
/// (from 1): `2^(k-1)` at the end `2^k - 1` of a block, and otherwise the value at
/// position `n - (2^(k-1) - 1)`.
pub open spec fn luby(n: nat) -> nat
    decreases n,
{
    if n == 0 {
        0
    } else {
        let k = luby_block(n);
        if n == pow2(k) - 1 {
            pow2((k - 1) as nat)
        } else if k >= 2 && 1 <= pow2((k - 1) as nat) - 1 < n {
            luby((n - (pow2((k - 1) as nat) - 1)) as nat)
        } else {
            0
        }
    }
}

proof fn lemma_block_unique(n: nat, k: nat, j: nat)
    requires
        is_luby_block(n, k),
        is_luby_block(n, j),
    ensures
        k == j,
{
    if j < k {
        if j <= (k - 1) as nat {
            if j < (k - 1) as nat {
                lemma_pow2_strictly_increases(j, (k - 1) as nat);
            }
        }
    } else if k < j {
        if k < (j - 1) as nat {
            lemma_pow2_strictly_increases(k, (j - 1) as nat);
        }
    }
}

/// The value of the Luby sequence at position `n` (from 1).
pub fn luby_sequence(n: u64) -> (r: u64)
    requires
        1 <= n < 0x8000_0000_0000_0000,
    ensures
        r == luby(n as nat),
    decreases n,
{
    let mut k: u64 = 1;
    proof {
        lemma_u64_pow2_no_overflow(1);
        lemma_u64_shl_is_mul(1, 1);
        lemma2_to64();
    }
    while (1u64 << k) - 1 < n
        invariant
            1 <= k <= 63,
            1 <= n < 0x8000_0000_0000_0000,
            k == 1 || pow2((k - 1) as nat) - 1 < n,
            (1u64 << k) == pow2(k as nat),
            pow2(k as nat) >= 2,
        decreases 64 - k,
    {
        proof {
            if k == 63 {
                lemma2_to64_rest();
            }
        }
        k = k + 1;
        proof {
            lemma_u64_pow2_no_overflow(k as nat);
            lemma_u64_shl_is_mul(1, k);
            lemma_pow2_strictly_increases(1, k as nat);
            lemma2_to64();
        }
    }
    proof {
        lemma_pow2_pos(k as nat);
        assert(is_luby_block(n as nat, k as nat));
        lemma_block_unique(n as nat, k as nat, luby_block(n as nat));
        lemma_u64_pow2_no_overflow((k - 1) as nat);
        lemma_u64_shl_is_mul(1, (k - 1) as u64);
    }
    if (1u64 << k) - 1 == n {
        return 1u64 << (k - 1);
    }
    proof {
        if k == 1 {
            lemma2_to64();
        }
        if k > 2 {
            lemma_pow2_strictly_increases(1, (k - 1) as nat);
        }
        lemma2_to64();
    }
    let rest = n - ((1u64 << (k - 1)) - 1);
    luby_sequence(rest)
}

} // verus!
