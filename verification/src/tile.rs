//! The values that a cell can hold, and what a tile is worth.

use vstd::prelude::*;
use vstd::arithmetic::power2::{lemma2_to64, lemma_pow2_strictly_increases, lemma_pow2_unfold, pow2};

verus! {

/// The largest tile that a board of sixteen cells can come to hold: 2^17.
pub const MAX_TILE: usize = 131072;

/// What a cell may hold: nothing, or a power of two from 2 to `MAX_TILE`.
pub open spec fn is_tile(v: nat) -> bool {
    v == 0 || exists|e: nat| 1 <= e <= 17 && v == #[trigger] pow2(e)
}

/// The most that the merges which made a tile can have scored: a tile above 2
/// comes from two of half its value, and making it scored its own value.
pub open spec fn worth(v: nat) -> nat
    decreases v,
{
    if v <= 2 {
        0
    } else {
        2 * worth(v / 2) + v
    }
}

/// The values of the tiles, written out.
pub open spec fn listed(v: nat) -> bool {
    v == 0 || v == 2 || v == 4 || v == 8 || v == 16 || v == 32 || v == 64 || v == 128 || v == 256
        || v == 512 || v == 1024 || v == 2048 || v == 4096 || v == 8192 || v == 16384 || v
        == 32768 || v == 65536 || v == 131072
}

/// A tile is one of the listed values.
pub proof fn lemma_tile_values(v: nat)
    ensures
        is_tile(v) <==> listed(v),
{
    lemma2_to64();
    if is_tile(v) && v != 0 {
        let e = choose|e: nat| 1 <= e <= 17 && v == #[trigger] pow2(e);
        if e == 1 {
        } else if e == 2 {
        } else if e == 3 {
        } else if e == 4 {
        } else if e == 5 {
        } else if e == 6 {
        } else if e == 7 {
        } else if e == 8 {
        } else if e == 9 {
        } else if e == 10 {
        } else if e == 11 {
        } else if e == 12 {
        } else if e == 13 {
        } else if e == 14 {
        } else if e == 15 {
        } else if e == 16 {
        } else {
            assert(e == 17);
        }
    }
    if listed(v) && v != 0 {
        assert(v == pow2(1) || v == pow2(2) || v == pow2(3) || v == pow2(4) || v == pow2(5) || v
            == pow2(6) || v == pow2(7) || v == pow2(8) || v == pow2(9) || v == pow2(10) || v
            == pow2(11) || v == pow2(12) || v == pow2(13) || v == pow2(14) || v == pow2(15) || v
            == pow2(16) || v == pow2(17));
    }
}

/// A tile is worth at most sixteen times `MAX_TILE`.
pub proof fn lemma_worth_bound(v: nat)
    requires
        is_tile(v),
    ensures
        worth(v) <= 16 * 131072,
{
    lemma_tile_values(v);
    assert(worth(2) == 0);
    assert(worth(4) == 4);
    assert(worth(8) == 16);
    assert(worth(16) == 48);
    assert(worth(32) == 128);
    assert(worth(64) == 320);
    assert(worth(128) == 768);
    assert(worth(256) == 1792);
    assert(worth(512) == 4096);
    assert(worth(1024) == 9216);
    assert(worth(2048) == 20480);
    assert(worth(4096) == 45056);
    assert(worth(8192) == 98304);
    assert(worth(16384) == 212992);
    assert(worth(32768) == 458752);
    assert(worth(65536) == 983040);
    assert(worth(131072) == 2097152);
}

/// The double of a tile below `MAX_TILE` is a tile, and worth twice the tile
/// and its own value.
pub proof fn lemma_double_tile(v: nat)
    requires
        is_tile(v),
        v != 0,
        v < 131072,
    ensures
        is_tile(2 * v),
        worth(2 * v) == 2 * worth(v) + 2 * v,
{
    lemma_tile_values(v);
    lemma_tile_values(2 * v);
    assert((2 * v) / 2 == v);
}

/// Whether a cell may hold `v`.
pub fn check_tile(v: usize) -> (ok: bool)
    ensures
        ok <==> is_tile(v as nat),
{
    proof {
        lemma2_to64();
    }
    if v == 0 {
        return true;
    }
    let mut t: usize = 2;
    let mut e: usize = 1;
    while e < 17 && t != v
        invariant
            1 <= e <= 17,
            t == pow2(e as nat),
            t <= 131072,
            v != 0,
            forall|f: nat| 1 <= f < e ==> v != #[trigger] pow2(f),
        decreases 17 - e,
    {
        proof {
            lemma2_to64();
            lemma_pow2_unfold((e + 1) as nat);
            lemma_pow2_strictly_increases(e as nat, 17);
        }
        t = 2 * t;
        e = e + 1;
    }
    proof {
        lemma2_to64();
    }
    t == v
}

} // verus!
