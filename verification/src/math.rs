//! The mathematical model of a Merkle tree over a sequence of leaf digests,
//! and the lemmas that relate windows of the leaf sequence to tree nodes.

use vstd::prelude::*;
use vstd::arithmetic::power2::pow2;
use vstd::arithmetic::power2::lemma_pow2_unfold;
use vstd::arithmetic::power2::lemma_pow2_pos;
use vstd::arithmetic::power2::lemma2_to64;

use crate::hash::spec_compress;

verus! {

/// Digest of the virtual tree node `lvl` levels above the leaves covering
/// the leaf window `[k * 2^lvl, (k + 1) * 2^lvl)`.
pub open spec fn spec_node(leaves: Seq<Seq<u32>>, lvl: nat, k: nat) -> Seq<u32>
    decreases lvl,
{
    if lvl == 0 {
        leaves[k as int]
    } else {
        spec_compress(
            spec_node(leaves, (lvl - 1) as nat, 2 * k),
            spec_node(leaves, (lvl - 1) as nat, 2 * k + 1),
        )
    }
}

/// Powers of two are monotone in the exponent.
pub proof fn lemma_pow2_le(e1: nat, e2: nat)
    requires
        e1 <= e2,
    ensures
        pow2(e1) <= pow2(e2),
{
    if e1 < e2 {
        vstd::arithmetic::power2::lemma_pow2_strictly_increases(e1, e2);
    }
}

/// `2^e` as a `usize`.
pub fn pow2_usize(e: usize) -> (r: usize)
    requires
        e < 31,
    ensures
        r == pow2(e as nat),
{
    proof {
        vstd::bits::lemma_usize_pow2_no_overflow(e as nat);
        vstd::bits::lemma_usize_shl_is_mul(1usize, e);
    }
    1usize << e
}

/// `2^e` as a `u64`.
pub fn pow2_u64(e: u64) -> (r: u64)
    requires
        e < 63,
    ensures
        r == pow2(e as nat),
{
    proof {
        vstd::bits::lemma_u64_pow2_no_overflow(e as nat);
        vstd::bits::lemma_u64_shl_is_mul(1u64, e);
    }
    1u64 << e
}

/// The exponent of a power of two.
pub fn exact_log2(n: usize) -> (r: usize)
    requires
        exists|e: nat| e < 31 && n == pow2(e),
    ensures
        r < 31,
        n == pow2(r as nat),
{
    let ghost e0 = choose|e: nat| e < 31 && n == pow2(e);
    let mut m = n;
    let mut r: usize = 0;
    while m > 1
        invariant
            r <= e0 < 31,
            m == pow2((e0 - r) as nat),
        decreases m,
    {
        proof {
            if e0 == r {
                assert(pow2(0) == 1) by {
                    lemma2_to64();
                }
            }
            lemma_pow2_unfold((e0 - r) as nat);
        }
        m = m / 2;
        r = r + 1;
    }
    proof {
        if e0 != r {
            lemma_pow2_pos((e0 - r) as nat);
            if e0 - r >= 1 {
                vstd::arithmetic::power2::lemma_pow2_strictly_increases(0, (e0 - r) as nat);
                lemma2_to64();
            }
        }
    }
    r
}

/// The smallest power of two at least `n`, with its exponent; `cap` bounds
/// the search and must itself be a power of two at least `n`.
pub fn ceil_pow2(n: usize, cap: usize) -> (r: (usize, usize))
    requires
        1 <= n <= cap,
        exists|e: nat| e < 31 && cap == pow2(e),
    ensures
        r.0 == pow2(r.1 as nat),
        n <= r.0 <= cap,
        r.1 == 0 || pow2((r.1 - 1) as nat) < n,
        r.1 < 31,
{
    let ghost ec = choose|e: nat| e < 31 && cap == pow2(e);
    let mut s: usize = 1;
    let mut h: usize = 0;
    proof {
        assert(pow2(0) == 1) by {
            lemma2_to64();
        }
    }
    while s < n
        invariant
            1 <= n <= cap,
            ec < 31 && cap == pow2(ec),
            1 <= s == pow2(h as nat),
            h == 0 || pow2((h - 1) as nat) < n,
            s <= cap,
            h <= ec,
        decreases cap - s,
    {
        proof {
            // s < n <= cap, so h < ec and the doubled value stays within cap.
            if h >= ec {
                if h > ec {
                    vstd::arithmetic::power2::lemma_pow2_strictly_increases(ec, h as nat);
                }
            }
            assert(h < ec);
            vstd::arithmetic::power2::lemma_pow2_strictly_increases(h as nat, ec);
            lemma_pow2_unfold((h + 1) as nat);
            if h + 1 < ec {
                vstd::arithmetic::power2::lemma_pow2_strictly_increases((h + 1) as nat, ec);
            }
        }
        s = s * 2;
        h = h + 1;
    }
    (s, h)
}

/// Division and remainder by one.
pub proof fn lemma_div_mod_one(k: nat)
    ensures
        k / 1 == k,
        k % 1 == 0,
{
    vstd::arithmetic::div_mod::lemma_fundamental_div_mod_converse(k as int, 1, k as int, 0);
}

/// How a node's two children at the level below fall in the doubled layer:
/// same block index, child positions twice the local position.
pub proof fn lemma_child_split(k: nat, per: nat)
    requires
        per >= 1,
    ensures
        (2 * k) / (2 * per) == k / per,
        (2 * k + 1) / (2 * per) == k / per,
        (2 * k) % (2 * per) == 2 * (k % per),
        (2 * k + 1) % (2 * per) == 2 * (k % per) + 1,
{
    vstd::arithmetic::div_mod::lemma_fundamental_div_mod(k as int, per as int);
    let q = k / per;
    let r = k % per;
    assert(2 * k == q * (2 * per) + 2 * r) by (nonlinear_arith)
        requires k == per * q + r;
    assert(0 <= 2 * (k % per) < 2 * per);
    vstd::arithmetic::div_mod::lemma_fundamental_div_mod_converse(
        (2 * k) as int,
        (2 * per) as int,
        (k / per) as int,
        (2 * (k % per)) as int,
    );
    vstd::arithmetic::div_mod::lemma_fundamental_div_mod_converse(
        (2 * k + 1) as int,
        (2 * per) as int,
        (k / per) as int,
        (2 * (k % per) + 1) as int,
    );
}

/// The quotient of a bounded value is bounded.
pub proof fn lemma_div_bound(k: nat, per: nat, m: nat)
    requires
        per >= 1,
        k < per * m,
    ensures
        k / per < m,
{
    vstd::arithmetic::div_mod::lemma_fundamental_div_mod(k as int, per as int);
    if k / per >= m {
        assert(per * (k / per) >= per * m) by (nonlinear_arith)
            requires per >= 1, k / per >= m;
    }
}

/// Splitting an index into a high and a low part commutes with shifting:
/// dividing by `2^l` keeps the high `hbits - l` part and shifts the low
/// part.
pub proof fn lemma_index_decompose(x: nat, l: nat, hbits: nat)
    requires
        l <= hbits,
    ensures
        (x / pow2(l)) / pow2((hbits - l) as nat) == x / pow2(hbits),
        (x / pow2(l)) % pow2((hbits - l) as nat) == (x % pow2(hbits)) / pow2(l),
{
    let pl = pow2(l);
    let ph = pow2(hbits);
    let pd = pow2((hbits - l) as nat);
    lemma_pow2_pos(l);
    lemma_pow2_pos(hbits);
    lemma_pow2_pos((hbits - l) as nat);
    vstd::arithmetic::power2::lemma_pow2_adds(l, (hbits - l) as nat);
    let q = x / ph;
    let r = x % ph;
    vstd::arithmetic::div_mod::lemma_fundamental_div_mod(x as int, ph as int);
    vstd::arithmetic::div_mod::lemma_fundamental_div_mod(r as int, pl as int);
    let rl = r / pl;
    let rr = r % pl;
    assert(x == (q * pd + rl) * pl + rr) by (nonlinear_arith)
        requires
            x == ph * q + r,
            ph == pl * pd,
            r == pl * rl + rr;
    vstd::arithmetic::div_mod::lemma_fundamental_div_mod_converse(
        x as int,
        pl as int,
        (q * pd + rl) as int,
        rr as int,
    );
    assert(rl < pd) by {
        lemma_div_bound(r, pl, pd);
    }
    vstd::arithmetic::div_mod::lemma_fundamental_div_mod_converse(
        (x / pl) as int,
        pd as int,
        q as int,
        rl as int,
    );
}

} // verus!
