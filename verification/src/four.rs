//! Facts about lines of four cells. A line of four is small enough to write
//! out what closing its gaps and merging its tiles give, cell by cell; each
//! fact is then a matter of going through the cases.

use vstd::prelude::*;
use crate::line::{
    face, filled, gain, merge_gain, merged, packed, padded, reaches, slid, tiles, total, worth_fn,
};
use crate::steps::{fuse_gain_to, fused, fused_to, swept, swept_to};
use crate::tile::{is_tile, lemma_double_tile, worth};

verus! {

/// A cell as a line of its own: empty for an empty cell.
spec fn opt(v: nat) -> Seq<nat> {
    if v == 0 {
        Seq::empty()
    } else {
        seq![v]
    }
}

/// 1 for a tile, 0 for an empty cell.
spec fn one(v: nat) -> int {
    if v == 0 {
        0
    } else {
        1
    }
}

/// How many of the four cells hold a tile.
spec fn ones(s: Seq<nat>) -> int {
    one(s[0]) + one(s[1]) + one(s[2]) + one(s[3])
}

spec fn dbl(v: nat) -> nat {
    (2 * v) as nat
}

/// Two cells with the gap closed.
spec fn pack2(c: nat, d: nat) -> Seq<nat> {
    if c == 0 {
        seq![d, 0]
    } else {
        seq![c, d]
    }
}

/// Three cells with the gaps closed.
spec fn pack3(b: nat, c: nat, d: nat) -> Seq<nat> {
    let r = pack2(c, d);
    if b == 0 {
        seq![r[0], r[1], 0]
    } else {
        seq![b, r[0], r[1]]
    }
}

/// The four cells with the gaps closed.
spec fn pack4(s: Seq<nat>) -> Seq<nat> {
    let r = pack3(s[1], s[2], s[3]);
    if s[0] == 0 {
        seq![r[0], r[1], r[2], 0]
    } else {
        seq![s[0], r[0], r[1], r[2]]
    }
}

/// Four cells without a gap after their merges, with the gaps closed again.
spec fn join4(u: Seq<nat>) -> Seq<nat> {
    if u[0] != 0 && u[0] == u[1] {
        if u[2] != 0 && u[2] == u[3] {
            seq![dbl(u[0]), dbl(u[2]), 0, 0]
        } else {
            seq![dbl(u[0]), u[2], u[3], 0]
        }
    } else if u[1] != 0 && u[1] == u[2] {
        seq![u[0], dbl(u[1]), u[3], 0]
    } else if u[2] != 0 && u[2] == u[3] {
        seq![u[0], u[1], dbl(u[2]), 0]
    } else {
        u
    }
}

/// What the merges of four cells without a gap score.
spec fn gain4(u: Seq<nat>) -> nat {
    if u[0] != 0 && u[0] == u[1] {
        if u[2] != 0 && u[2] == u[3] {
            dbl(u[0]) + dbl(u[2])
        } else {
            dbl(u[0])
        }
    } else if u[1] != 0 && u[1] == u[2] {
        dbl(u[1])
    } else if u[2] != 0 && u[2] == u[3] {
        dbl(u[2])
    } else {
        0
    }
}

/// How many merges four cells without a gap see.
spec fn merges4(u: Seq<nat>) -> int {
    if u[0] != 0 && u[0] == u[1] {
        if u[2] != 0 && u[2] == u[3] {
            2
        } else {
            1
        }
    } else if u[1] != 0 && u[1] == u[2] {
        1
    } else if u[2] != 0 && u[2] == u[3] {
        1
    } else {
        0
    }
}

/// The first `n` of the four cells are tiles, the others are empty.
spec fn leads(u: Seq<nat>, n: int) -> bool {
    &&& u.len() == 4
    &&& 0 <= n <= 4
    &&& (u[0] != 0 <==> n > 0)
    &&& (u[1] != 0 <==> n > 1)
    &&& (u[2] != 0 <==> n > 2)
    &&& (u[3] != 0 <==> n > 3)
}

proof fn lemma_tiles4(s: Seq<nat>)
    requires
        s.len() == 4,
    ensures
        tiles(s) == opt(s[0]) + opt(s[1]) + opt(s[2]) + opt(s[3]),
{
    reveal_with_fuel(Seq::filter, 5);
    let s3 = s.drop_last();
    let s2 = s3.drop_last();
    let s1 = s2.drop_last();
    assert(s1.drop_last().len() == 0);
    assert(tiles(s) =~= opt(s[0]) + opt(s[1]) + opt(s[2]) + opt(s[3]));
}

proof fn lemma_pack4(s: Seq<nat>)
    requires
        s.len() == 4,
    ensures
        leads(pack4(s), ones(s)),
        tiles(s) == pack4(s).take(ones(s)),
        packed(s) == pack4(s),
{
    lemma_tiles4(s);
    assert(tiles(s) =~= pack4(s).take(ones(s)));
    assert(packed(s) =~= pack4(s));
}

proof fn lemma_pack4_fixed(s: Seq<nat>, n: int)
    requires
        leads(s, n),
    ensures
        pack4(s) == s,
{
    assert(pack4(s) =~= s);
}

proof fn lemma_join4(u: Seq<nat>, n: int)
    requires
        leads(u, n),
    ensures
        padded(merged(u.take(n)), 4) == join4(u),
        merge_gain(u.take(n)) == gain4(u),
{
    let t = u.take(n);
    reveal_with_fuel(merged, 5);
    reveal_with_fuel(merge_gain, 5);
    if n == 0 {
        assert(t =~= Seq::empty());
    } else if n == 1 {
        assert(t =~= seq![u[0]]);
    } else if n == 2 {
        assert(t =~= seq![u[0], u[1]]);
        assert(t.skip(2) =~= Seq::empty());
        assert(t.skip(1) =~= seq![u[1]]);
    } else if n == 3 {
        assert(t =~= seq![u[0], u[1], u[2]]);
        assert(t.skip(2) =~= seq![u[2]]);
        assert(t.skip(1) =~= seq![u[1], u[2]]);
        assert(t.skip(1).skip(2) =~= Seq::empty());
        assert(t.skip(1).skip(1) =~= seq![u[2]]);
    } else {
        assert(t =~= seq![u[0], u[1], u[2], u[3]]);
        assert(t.skip(2) =~= seq![u[2], u[3]]);
        assert(t.skip(1) =~= seq![u[1], u[2], u[3]]);
        assert(t.skip(2).skip(2) =~= Seq::empty());
        assert(t.skip(2).skip(1) =~= seq![u[3]]);
        assert(t.skip(1).skip(2) =~= seq![u[3]]);
        assert(t.skip(1).skip(1) =~= seq![u[2], u[3]]);
        assert(t.skip(1).skip(1).skip(2) =~= Seq::empty());
        assert(t.skip(1).skip(1).skip(1) =~= seq![u[3]]);
    }
    assert(padded(merged(t), 4) =~= join4(u));
}

proof fn lemma_join4_shape(u: Seq<nat>, n: int)
    requires
        leads(u, n),
    ensures
        leads(join4(u), n - merges4(u)),
        merges4(u) == 0 <==> gain4(u) == 0,
        merges4(u) == 0 <==> join4(u) == u,
{
    if merges4(u) != 0 {
        if u[0] != 0 && u[0] == u[1] {
            assert(join4(u)[0] != u[0]);
        } else if u[1] != 0 && u[1] == u[2] {
            assert(join4(u)[1] != u[1]);
        } else {
            assert(join4(u)[2] != u[2]);
        }
    }
}

/// The line with its gaps closed, the line after a move and the score of the
/// move, cell by cell.
proof fn lemma_slid4(s: Seq<nat>)
    requires
        s.len() == 4,
    ensures
        packed(s) == pack4(s),
        slid(s) == join4(pack4(s)),
        gain(s) == gain4(pack4(s)),
{
    lemma_pack4(s);
    lemma_join4(pack4(s), ones(s));
}

proof fn lemma_fuse4(u: Seq<nat>, n: int)
    requires
        leads(u, n),
    ensures
        pack4(fused_to(u, 3)) == join4(u),
        fuse_gain_to(u, 3) == gain4(u),
        fused_to(u, 3).len() == 4,
{
    reveal_with_fuel(fused_to, 4);
    reveal_with_fuel(fuse_gain_to, 4);
    let f1 = fused(u, 1);
    let f2 = fused(f1, 2);
    let f3 = fused(f2, 3);
    assert(fused_to(u, 3) == f3);
    assert(pack4(f3) =~= join4(u));
}

/// The sum over four cells, written out.
pub proof fn lemma_total4(s: Seq<nat>, f: spec_fn(nat) -> int)
    requires
        s.len() == 4,
    ensures
        total(s, f) == f(s[0]) + f(s[1]) + f(s[2]) + f(s[3]),
{
    reveal_with_fuel(total, 5);
    let s3 = s.drop_last();
    let s2 = s3.drop_last();
    let s1 = s2.drop_last();
    assert(s1.drop_last().len() == 0);
}

/// Four sweeps close every gap of a line.
pub proof fn lemma_sweeps_pack(s: Seq<nat>)
    requires
        s.len() == 4,
    ensures
        swept(s, 4) == packed(s),
{
    lemma_tiles4(s);
    reveal_with_fuel(swept_to, 4);
    reveal_with_fuel(swept, 5);
    assert(swept(s, 4) =~= packed(s));
}

/// Closing the gaps, scanning for merges and closing the gaps again is the
/// move, and the scan scores what the move earns.
pub proof fn lemma_scan_merges(s: Seq<nat>)
    requires
        s.len() == 4,
    ensures
        fused_to(packed(s), 3).len() == 4,
        packed(fused_to(packed(s), 3)) == slid(s),
        fuse_gain_to(packed(s), 3) == gain(s),
{
    lemma_slid4(s);
    lemma_pack4(s);
    let u = pack4(s);
    lemma_fuse4(u, ones(s));
    lemma_pack4(fused_to(u, 3));
}

/// The merge scan has not touched the cells behind the one it looks at, and
/// what it has scored so far is part of what it scores in all.
pub proof fn lemma_scan_step(u: Seq<nat>, p: int)
    requires
        u.len() == 4,
        1 <= p <= 3,
    ensures
        fused_to(u, (p - 1) as nat).len() == 4,
        fused_to(u, (p - 1) as nat)[p] == u[p],
        fuse_gain_to(u, p as nat) <= fuse_gain_to(u, 3),
{
    reveal_with_fuel(fused_to, 4);
    reveal_with_fuel(fuse_gain_to, 4);
}

/// Closing the gaps brings no new value into a line: each cell is empty or
/// holds what some cell held.
pub proof fn lemma_packed_from(s: Seq<nat>)
    requires
        s.len() == 4,
    ensures
        forall|p: int|
            0 <= p < 4 ==> {
                let v = #[trigger] packed(s)[p];
                v == 0 || v == s[0] || v == s[1] || v == s[2] || v == s[3]
            },
{
    lemma_pack4(s);
}

/// Closing the gaps only reorders the cells: a sum that counts nothing for an
/// empty cell stays as it was.
pub proof fn lemma_packed_total(s: Seq<nat>, f: spec_fn(nat) -> int)
    requires
        s.len() == 4,
        f(0) == 0,
    ensures
        total(packed(s), f) == total(s, f),
{
    lemma_pack4(s);
    lemma_total4(s, f);
    lemma_total4(pack4(s), f);
}

/// A move leaves a line as it is exactly if the line has no gap to close and
/// nothing merges.
pub proof fn lemma_slid_fixed(s: Seq<nat>)
    requires
        s.len() == 4,
    ensures
        slid(s) == s <==> (packed(s) == s && gain(s) == 0),
        slid(s).len() == 4,
        packed(s).len() == 4,
{
    lemma_slid4(s);
    lemma_pack4(s);
    let u = pack4(s);
    lemma_join4_shape(u, ones(s));
    if slid(s) == s {
        lemma_pack4_fixed(s, ones(s) - merges4(u));
    }
}

/// A move makes no tile out of nothing, leaves the last cell empty where it
/// changes the line, and earns no more than the line holds.
pub proof fn lemma_slid_filled(s: Seq<nat>)
    requires
        s.len() == 4,
    ensures
        total(slid(s), filled()) <= total(s, filled()),
        slid(s) != s ==> slid(s)[3] == 0,
        gain(s) <= total(s, face()),
{
    lemma_slid4(s);
    lemma_pack4(s);
    let u = pack4(s);
    lemma_packed_total(s, filled());
    lemma_packed_total(s, face());
    lemma_total4(u, filled());
    lemma_total4(u, face());
    lemma_total4(join4(u), filled());
    lemma_join4_shape(u, ones(s));
    if slid(s) != s && slid(s)[3] != 0 {
        assert(merges4(u) == 0);
        assert(u[3] != 0);
        assert(u =~= s);
    }
}

/// Of the cells that hold `2 * t` or more after a move, each was such a cell
/// before, or was made of two cells that held `t` or more.
pub proof fn lemma_slid_reaches(s: Seq<nat>, t: nat)
    requires
        s.len() == 4,
        t >= 1,
    ensures
        2 * total(slid(s), reaches(2 * t)) <= total(s, reaches(2 * t)) + total(s, reaches(t)),
{
    lemma_slid4(s);
    lemma_pack4(s);
    let u = pack4(s);
    lemma_packed_total(s, reaches(2 * t));
    lemma_packed_total(s, reaches(t));
    lemma_total4(u, reaches(2 * t));
    lemma_total4(u, reaches(t));
    lemma_total4(join4(u), reaches(2 * t));
}

/// Two equal tiles among four cells, of which at most one holds the largest
/// tile, merge into a tile that is worth both of them and its own value.
proof fn lemma_join4_tiles(u: Seq<nat>, p: int)
    requires
        u.len() == 4,
        0 <= p < 3,
        is_tile(u[p]),
        u[p] != 0,
        u[p] == u[p + 1],
        reaches(131072)(u[0]) + reaches(131072)(u[1]) + reaches(131072)(u[2]) + reaches(131072)(
            u[3],
        ) <= 1,
    ensures
        is_tile(dbl(u[p])),
        worth(dbl(u[p])) == worth(u[p]) + worth(u[p + 1]) + dbl(u[p]),
{
    lemma_double_tile(u[p]);
}

/// With at most one cell at the largest tile, the merges of four tiles
/// without a gap give tiles that are worth what the four were worth and what
/// the merges scored.
proof fn lemma_join4_worth(u: Seq<nat>)
    requires
        u.len() == 4,
        is_tile(u[0]) && is_tile(u[1]) && is_tile(u[2]) && is_tile(u[3]),
        reaches(131072)(u[0]) + reaches(131072)(u[1]) + reaches(131072)(u[2]) + reaches(131072)(
            u[3],
        ) <= 1,
    ensures
        ({
            let r = join4(u);
            &&& is_tile(r[0]) && is_tile(r[1]) && is_tile(r[2]) && is_tile(r[3])
            &&& worth(r[0]) + worth(r[1]) + worth(r[2]) + worth(r[3]) == worth(u[0]) + worth(u[1])
                + worth(u[2]) + worth(u[3]) + gain4(u)
        }),
{
    assert(is_tile(0) && worth(0) == 0);
    if u[0] != 0 && u[0] == u[1] {
        lemma_join4_tiles(u, 0);
        if u[2] != 0 && u[2] == u[3] {
            lemma_join4_tiles(u, 2);
        }
    } else if u[1] != 0 && u[1] == u[2] {
        lemma_join4_tiles(u, 1);
    } else if u[2] != 0 && u[2] == u[3] {
        lemma_join4_tiles(u, 2);
    }
}

/// With at most one cell at the largest tile, a move of tiles gives tiles, and
/// the cells are worth what they were worth before and what the move earned.
pub proof fn lemma_slid_tiles(s: Seq<nat>)
    requires
        s.len() == 4,
        forall|q: int| 0 <= q < 4 ==> is_tile(#[trigger] s[q]),
        total(s, reaches(131072)) <= 1,
    ensures
        forall|p: int| 0 <= p < 4 ==> is_tile(#[trigger] slid(s)[p]),
        total(slid(s), worth_fn()) == total(s, worth_fn()) + gain(s),
{
    lemma_slid4(s);
    let u = pack4(s);
    let r = join4(u);
    lemma_packed_total(s, worth_fn());
    lemma_packed_total(s, reaches(131072));
    lemma_total4(u, worth_fn());
    lemma_total4(u, reaches(131072));
    lemma_total4(r, worth_fn());
    assert(is_tile(u[0]) && is_tile(u[1]) && is_tile(u[2]) && is_tile(u[3])) by {
        lemma_packed_from(s);
        assert(is_tile(s[0]) && is_tile(s[1]) && is_tile(s[2]) && is_tile(s[3]));
        assert(is_tile(0));
    }
    lemma_join4_worth(u);
}

/// A full line without two equal neighbours does not move.
pub proof fn lemma_slid_blocked(s: Seq<nat>)
    requires
        s.len() == 4,
        forall|q: int| 0 <= q < 4 ==> #[trigger] s[q] != 0,
        s[0] != s[1],
        s[1] != s[2],
        s[2] != s[3],
    ensures
        slid(s) == s,
{
    lemma_slid4(s);
    assert(s[0] != 0 && s[1] != 0 && s[2] != 0 && s[3] != 0);
    assert(pack4(s) =~= s);
}

} // verus!
