//! Row accounting for the incremental Merkle update: the distinct ancestors
//! of a sorted set of touched leaves, level by level, and the closed form of
//! their total count through the bit length of XORs of consecutive indices.

use vstd::prelude::*;
use vstd::arithmetic::power2::pow2;
use vstd::arithmetic::power2::lemma_pow2_unfold;
use vstd::arithmetic::power2::lemma_pow2_pos;

verus! {

/// The sequence is strictly increasing.
pub open spec fn strictly_increasing(s: Seq<u64>) -> bool {
    forall|i: int, j: int| 0 <= i < j < s.len() ==> s[i] < s[j]
}

/// The distinct parent indices, one level up, of a sorted sequence of node
/// indices.
pub open spec fn spec_parents(s: Seq<u64>) -> Seq<u64>
    decreases s.len(),
{
    if s.len() == 0 {
        s
    } else {
        let rest = spec_parents(s.drop_last());
        let p = s.last() / 2;
        if rest.len() > 0 && rest.last() == p {
            rest
        } else {
            rest.push(p)
        }
    }
}

/// The distinct ancestor indices `l` levels up.
pub open spec fn spec_ancestors(s: Seq<u64>, l: nat) -> Seq<u64>
    decreases l,
{
    if l == 0 {
        s
    } else {
        spec_parents(spec_ancestors(s, (l - 1) as nat))
    }
}

/// Total number of distinct ancestors over levels `1 ..= l`.
pub open spec fn spec_tower_count(s: Seq<u64>, l: nat) -> nat
    decreases l,
{
    if l == 0 {
        0
    } else {
        spec_parents(s).len() + spec_tower_count(spec_parents(s), (l - 1) as nat)
    }
}

/// Floor of the base-2 logarithm; 0 below 2.
pub open spec fn spec_ilog2(n: nat) -> nat
    decreases n,
{
    if n < 2 {
        0
    } else {
        1 + spec_ilog2(n / 2)
    }
}

/// Sum over consecutive pairs of the position of their highest differing
/// bit: how far the root-to-leaf paths of neighbouring touched leaves
/// diverge.
pub open spec fn spec_divergence_sum(s: Seq<u64>) -> nat
    decreases s.len(),
{
    if s.len() <= 1 {
        0
    } else {
        spec_divergence_sum(s.drop_last()) + spec_ilog2((s[s.len() - 2] ^ s.last()) as nat)
    }
}

/// Required unpadded trace height for the touched leaves `s` of a tree of
/// height `t`: one dummy root path when nothing was touched, else one full
/// path plus the divergent path segments, two rows per node.
pub open spec fn spec_unpadded_height(t: nat, s: Seq<u64>) -> nat {
    if s.len() == 0 {
        2 * t
    } else {
        2 * (t + spec_divergence_sum(s))
    }
}

/// The parents of a non-empty sequence are non-empty and end at the last
/// element's parent.
pub proof fn lemma_parents_last(s: Seq<u64>)
    requires
        s.len() >= 1,
    ensures
        spec_parents(s).len() >= 1,
        spec_parents(s).last() == s.last() / 2,
    decreases s.len(),
{
    if s.len() > 1 {
        lemma_parents_last(s.drop_last());
    }
}

/// Parents of a strictly increasing sequence are strictly increasing.
pub proof fn lemma_parents_sorted(s: Seq<u64>)
    requires
        strictly_increasing(s),
    ensures
        strictly_increasing(spec_parents(s)),
        spec_parents(s).len() >= 1 ==> s.len() >= 1 && spec_parents(s).last() == s.last() / 2,
    decreases s.len(),
{
    if s.len() == 0 {
    } else {
        let s0 = s.drop_last();
        assert(strictly_increasing(s0));
        lemma_parents_sorted(s0);
        if s.len() >= 1 {
            lemma_parents_last(s);
        }
        if s0.len() >= 1 {
            lemma_parents_last(s0);
            // the last parent is at least every earlier parent
            assert(s0.last() < s.last());
            assert(s0.last() / 2 <= s.last() / 2) by {
                vstd::arithmetic::div_mod::lemma_div_is_ordered(
                    s0.last() as int,
                    s.last() as int,
                    2,
                );
            }
        }
    }
}

/// An index is a parent exactly of the elements one level below it.
pub proof fn lemma_parents_membership(s: Seq<u64>, v: u64)
    ensures
        spec_parents(s).contains(v) <==> (exists|j: int| 0 <= j < s.len() && s[j] / 2 == v),
    decreases s.len(),
{
    if s.len() == 0 {
    } else {
        let s0 = s.drop_last();
        lemma_parents_membership(s0, v);
        let rest = spec_parents(s0);
        let p = s.last() / 2;
        if rest.len() > 0 && rest.last() == p {
            assert(spec_parents(s) == rest);
            if rest.contains(v) {
                let j = choose|j: int| 0 <= j < s0.len() && s0[j] / 2 == v;
                assert(s[j] / 2 == v);
            }
            if exists|j: int| 0 <= j < s.len() && s[j] / 2 == v {
                let j = choose|j: int| 0 <= j < s.len() && s[j] / 2 == v;
                if j < s0.len() {
                    assert(s0[j] / 2 == v);
                } else {
                    assert(v == p);
                    assert(rest.last() == v);
                    assert(rest.contains(v));
                }
            }
        } else {
            assert(spec_parents(s) == rest.push(p));
            if rest.push(p).contains(v) {
                let i = choose|i: int| 0 <= i < rest.push(p).len() && rest.push(p)[i] == v;
                if i < rest.len() {
                    assert(rest.contains(v));
                    let j = choose|j: int| 0 <= j < s0.len() && s0[j] / 2 == v;
                    assert(s[j] / 2 == v);
                } else {
                    assert(v == p);
                    assert(s[s.len() - 1] / 2 == v);
                }
            }
            if exists|j: int| 0 <= j < s.len() && s[j] / 2 == v {
                let j = choose|j: int| 0 <= j < s.len() && s[j] / 2 == v;
                if j < s0.len() {
                    assert(s0[j] / 2 == v);
                    assert(rest.contains(v));
                    let i = choose|i: int| 0 <= i < rest.len() && rest[i] == v;
                    assert(rest.push(p)[i] == v);
                } else {
                    assert(v == p);
                    assert(rest.push(p).last() == v);
                }
            }
        }
    }
}

/// Peeling the tower from the top: the count up to level `l` is the count
/// up to `l - 1` plus the ancestors at level `l`.
pub proof fn lemma_tower_step(s: Seq<u64>, l: nat)
    requires
        l >= 1,
    ensures
        spec_tower_count(s, l) == spec_tower_count(s, (l - 1) as nat) + spec_ancestors(
            s,
            l,
        ).len(),
    decreases l,
{
    assert(spec_ancestors(s, 0nat) == s);
    if l == 1 {
        assert(spec_ancestors(s, 1nat) == spec_parents(spec_ancestors(s, 0nat)));
        assert(spec_tower_count(s, 0nat) == 0);
        assert(spec_tower_count(s, 1nat) == spec_parents(s).len() + spec_tower_count(
            spec_parents(s),
            0nat,
        ));
        assert(spec_tower_count(spec_parents(s), 0nat) == 0);
        assert(spec_tower_count(s, l) == spec_tower_count(s, (l - 1) as nat) + spec_ancestors(
            s,
            l,
        ).len());
    } else {
        lemma_tower_step(spec_parents(s), (l - 1) as nat);
        lemma_ancestors_shift(s, (l - 1) as nat);
        assert(spec_ancestors(spec_parents(s), (l - 1) as nat) == spec_ancestors(
            s,
            ((l - 1) + 1) as nat,
        ));
        assert(spec_ancestors(spec_parents(s), (l - 1) as nat) == spec_ancestors(s, l));
        assert(spec_tower_count(s, l) == spec_parents(s).len() + spec_tower_count(
            spec_parents(s),
            (l - 1) as nat,
        ));
        assert(spec_tower_count(s, (l - 1) as nat) == spec_parents(s).len() + spec_tower_count(
            spec_parents(s),
            (l - 2) as nat,
        ));
    }
}

/// Ancestors commute with taking parents first.
pub proof fn lemma_ancestors_shift(s: Seq<u64>, l: nat)
    ensures
        spec_ancestors(spec_parents(s), l) == spec_ancestors(s, (l + 1) as nat),
    decreases l,
{
    if l == 0 {
        assert(spec_ancestors(spec_parents(s), 0nat) == spec_parents(s));
        assert(spec_ancestors(s, 0nat) == s);
        assert(spec_ancestors(s, 1nat) == spec_parents(spec_ancestors(s, 0nat)));
    } else {
        lemma_ancestors_shift(s, (l - 1) as nat);
        assert(spec_ancestors(spec_parents(s), l) == spec_parents(
            spec_ancestors(spec_parents(s), (l - 1) as nat),
        ));
        assert(spec_ancestors(s, (l + 1) as nat) == spec_parents(
            spec_ancestors(s, ((l + 1) - 1) as nat),
        ));
    }
}

/// Casting a bounded natural through `u64` keeps its value.
pub proof fn lemma_cast_u64(x: nat)
    requires
        x <= u64::MAX,
    ensures
        ((x as u64) as nat) == x,
{
}

/// Iterated halving is division by a power of two.
pub proof fn lemma_half_step(x: u64, l: nat)
    ensures
        (x as nat / pow2(l)) / 2 == x as nat / pow2((l + 1) as nat),
    decreases l,
{
    lemma_pow2_pos(l);
    vstd::arithmetic::div_mod::lemma_div_denominator(x as int, pow2(l) as int, 2);
    vstd::arithmetic::power2::lemma_pow2_adds(l, 1);
    assert(pow2(1) == 2) by {
        vstd::arithmetic::power2::lemma2_to64();
    }
}

/// An index is an ancestor at level `l` exactly of the leaves `l` levels
/// below it.
pub proof fn lemma_ancestors_membership(s: Seq<u64>, v: u64, l: nat)
    ensures
        spec_ancestors(s, l).contains(v) <==> (exists|j: int|
            0 <= j < s.len() && s[j] as nat / pow2(l) == v),
    decreases l,
{
    if l == 0 {
        assert(pow2(0) == 1) by {
            vstd::arithmetic::power2::lemma2_to64();
        }
        assert forall|j: int| 0 <= j < s.len() implies s[j] as nat / pow2(0) == s[j] by {
            crate::math::lemma_div_mod_one(s[j] as nat);
        }
        if spec_ancestors(s, 0).contains(v) {
            let j = choose|j: int| 0 <= j < s.len() && s[j] == v;
            assert(s[j] as nat / pow2(0) == v);
        }
        if exists|j: int| 0 <= j < s.len() && s[j] as nat / pow2(0) == v {
            let j = choose|j: int| 0 <= j < s.len() && s[j] as nat / pow2(0) == v;
            assert(s[j] == v);
            assert(spec_ancestors(s, 0).contains(v));
        }
    } else {
        let prev = spec_ancestors(s, (l - 1) as nat);
        lemma_parents_membership(prev, v);
        if spec_parents(prev).contains(v) {
            let m = choose|m: int| 0 <= m < prev.len() && prev[m] / 2 == v;
            assert(prev.contains(prev[m]));
            lemma_ancestors_membership(s, prev[m], (l - 1) as nat);
            let j = choose|j: int| 0 <= j < s.len() && s[j] as nat / pow2((l - 1) as nat) == prev[m];
            lemma_half_step(s[j], (l - 1) as nat);
            assert(s[j] as nat / pow2(l) == v);
        }
        if exists|j: int| 0 <= j < s.len() && s[j] as nat / pow2(l) == v {
            let j = choose|j: int| 0 <= j < s.len() && s[j] as nat / pow2(l) == v;
            let w = (s[j] as nat / pow2((l - 1) as nat)) as u64;
            assert(s[j] as nat / pow2((l - 1) as nat) <= s[j]) by {
                lemma_pow2_pos((l - 1) as nat);
                vstd::arithmetic::div_mod::lemma_div_nonincreasing(
                    s[j] as int,
                    pow2((l - 1) as nat) as int,
                );
            }
            assert(s[j] as nat / pow2((l - 1) as nat) <= u64::MAX as nat);
            lemma_cast_u64(s[j] as nat / pow2((l - 1) as nat));
            assert(s[j] as nat / pow2((l - 1) as nat) == w as nat);
            lemma_ancestors_membership(s, w, (l - 1) as nat);
            assert(exists|j2: int| 0 <= j2 < s.len() && s[j2] as nat / pow2((l - 1) as nat) == w);
            assert(prev.contains(w));
            lemma_half_step(s[j], (l - 1) as nat);
            assert(w / 2 == v);
            let m = choose|m: int| 0 <= m < prev.len() && prev[m] == w;
            assert(prev[m] / 2 == v);
            assert(spec_parents(prev).contains(v));
        }
    }
}

/// Ancestor layers of a sorted leaf set are sorted and non-empty.
pub proof fn lemma_ancestors_sorted(s: Seq<u64>, l: nat)
    requires
        strictly_increasing(s),
        s.len() >= 1,
    ensures
        strictly_increasing(spec_ancestors(s, l)),
        spec_ancestors(s, l).len() >= 1,
    decreases l,
{
    if l > 0 {
        lemma_ancestors_sorted(s, (l - 1) as nat);
        lemma_parents_sorted(spec_ancestors(s, (l - 1) as nat));
        lemma_parents_last(spec_ancestors(s, (l - 1) as nat));
    }
}

/// The ancestor of a single index `l` levels up: iterated halving.
pub open spec fn spec_anc1(x: u64, l: nat) -> u64
    decreases l,
{
    if l == 0 {
        x
    } else {
        spec_anc1(x, (l - 1) as nat) / 2
    }
}

/// How many of the levels `1 ..= l` separate the ancestors of `x` and `y`.
pub open spec fn spec_diff_count(x: u64, y: u64, l: nat) -> nat
    decreases l,
{
    if l == 0 {
        0
    } else {
        spec_diff_count(x, y, (l - 1) as nat) + if spec_anc1(x, l) != spec_anc1(y, l) {
            1nat
        } else {
            0nat
        }
    }
}

/// Iterated halving is division by a power of two.
pub proof fn lemma_anc1_div(x: u64, l: nat)
    ensures
        spec_anc1(x, l) as nat == x as nat / pow2(l),
    decreases l,
{
    if l == 0 {
        crate::math::lemma_div_mod_one(x as nat);
        assert(pow2(0) == 1) by {
            vstd::arithmetic::power2::lemma2_to64();
        }
    } else {
        lemma_anc1_div(x, (l - 1) as nat);
        lemma_half_step(x, (l - 1) as nat);
    }
}

/// A single index has exactly one ancestor per level.
pub proof fn lemma_tower_singleton(s: Seq<u64>, t: nat)
    requires
        s.len() == 1,
    ensures
        spec_tower_count(s, t) == t,
    decreases t,
{
    if t > 0 {
        assert(s.drop_last().len() == 0);
        assert(spec_parents(s.drop_last()).len() == 0);
        assert(spec_parents(s) == spec_parents(s.drop_last()).push(s.last() / 2));
        assert(spec_parents(s).len() == 1);
        lemma_tower_singleton(spec_parents(s), (t - 1) as nat);
    }
}

/// The last ancestor at each level is the last leaf's ancestor.
pub proof fn lemma_ancestors_last(s: Seq<u64>, l: nat)
    requires
        s.len() >= 1,
    ensures
        spec_ancestors(s, l).len() >= 1,
        spec_ancestors(s, l).last() == spec_anc1(s.last(), l),
    decreases l,
{
    if l > 0 {
        lemma_ancestors_last(s, (l - 1) as nat);
        lemma_parents_last(spec_ancestors(s, (l - 1) as nat));
    }
}

/// Appending a new largest leaf adds its ancestor to a level exactly where
/// that ancestor differs from the previous last leaf's ancestor.
pub proof fn lemma_anc_push(s0: Seq<u64>, y: u64, l: nat)
    requires
        s0.len() >= 1,
        strictly_increasing(s0),
        y > s0.last(),
    ensures
        spec_ancestors(s0.push(y), l) == if spec_anc1(s0.last(), l) == spec_anc1(y, l) {
            spec_ancestors(s0, l)
        } else {
            spec_ancestors(s0, l).push(spec_anc1(y, l))
        },
    decreases l,
{
    lemma_ancestors_last(s0, l);
    if l == 0 {
        assert(spec_ancestors(s0.push(y), 0) == s0.push(y));
        assert(spec_anc1(s0.last(), 0) != spec_anc1(y, 0));
        assert(s0.push(y) =~= spec_ancestors(s0, 0).push(y));
    } else {
        lemma_anc_push(s0, y, (l - 1) as nat);
        lemma_ancestors_last(s0, (l - 1) as nat);
        let a_prev = spec_ancestors(s0, (l - 1) as nat);
        if spec_anc1(s0.last(), (l - 1) as nat) == spec_anc1(y, (l - 1) as nat) {
            // the paths already merged one level below
            assert(spec_ancestors(s0.push(y), l) == spec_parents(a_prev));
            assert(spec_anc1(s0.last(), l) == spec_anc1(y, l));
        } else {
            let py = spec_anc1(y, (l - 1) as nat);
            assert(spec_ancestors(s0.push(y), (l - 1) as nat) == a_prev.push(py));
            assert(a_prev.push(py).drop_last() =~= a_prev);
            assert(spec_ancestors(s0.push(y), l) == spec_parents(a_prev.push(py)));
            assert(spec_parents(a_prev.push(py)) == if spec_parents(a_prev).len() > 0
                && spec_parents(a_prev).last() == py / 2 {
                spec_parents(a_prev)
            } else {
                spec_parents(a_prev).push(py / 2)
            });
            lemma_parents_last(a_prev);
            assert(spec_parents(a_prev).last() == a_prev.last() / 2);
            assert(a_prev.last() == spec_anc1(s0.last(), (l - 1) as nat));
            assert(py / 2 == spec_anc1(y, l));
            assert(spec_parents(a_prev).last() == spec_anc1(s0.last(), l));
        }
    }
}

/// Appending a new largest leaf adds one row pair per level where its path
/// has not yet merged with the previous leaf's path.
pub proof fn lemma_tower_push(s0: Seq<u64>, y: u64, t: nat)
    requires
        s0.len() >= 1,
        strictly_increasing(s0),
        y > s0.last(),
    ensures
        spec_tower_count(s0.push(y), t) == spec_tower_count(s0, t) + spec_diff_count(
            s0.last(),
            y,
            t,
        ),
    decreases t,
{
    if t > 0 {
        lemma_tower_push(s0, y, (t - 1) as nat);
        lemma_tower_step(s0.push(y), t);
        lemma_tower_step(s0, t);
        lemma_anc_push(s0, y, t);
    }
}

/// The floor logarithm brackets its argument between two powers of two.
pub proof fn lemma_ilog2_bounds(n: nat)
    requires
        n >= 1,
    ensures
        pow2(spec_ilog2(n)) <= n < pow2((spec_ilog2(n) + 1) as nat),
    decreases n,
{
    if n < 2 {
        assert(pow2(0) == 1 && pow2(1) == 2) by {
            vstd::arithmetic::power2::lemma2_to64();
        }
    } else {
        lemma_ilog2_bounds(n / 2);
        let c = spec_ilog2(n / 2);
        lemma_pow2_unfold((c + 1) as nat);
        lemma_pow2_unfold((c + 2) as nat);
        vstd::arithmetic::div_mod::lemma_fundamental_div_mod(n as int, 2);
    }
}

/// Counting differing ancestors over levels `1 ..= l` when the highest
/// differing bit sits at position `b`.
proof fn lemma_diff_upto(x: u64, y: u64, b: u64, l: nat)
    requires
        x < y,
        b < 63,
        l < 64,
        (x ^ y) >= (1u64 << b),
        (x ^ y) < (1u64 << ((b + 1) as u64)),
    ensures
        spec_diff_count(x, y, l) == if l <= b {
            l
        } else {
            b as nat
        },
    decreases l,
{
    if l > 0 {
        lemma_diff_upto(x, y, b, (l - 1) as nat);
        let j = l as u64;
        lemma_anc1_div(x, l);
        lemma_anc1_div(y, l);
        vstd::bits::lemma_u64_shr_is_div(x, j);
        vstd::bits::lemma_u64_shr_is_div(y, j);
        if l > b {
            assert(x >> j == y >> j) by (bit_vector)
                requires
                    (x ^ y) < (1u64 << ((b + 1) as u64)),
                    b < 63,
                    j < 64,
                    j > b,
            ;
            assert(spec_anc1(x, l) == spec_anc1(y, l));
        } else {
            assert(x >> j != y >> j) by (bit_vector)
                requires
                    (x ^ y) >= (1u64 << b),
                    b < 63,
                    1 <= j <= b,
            ;
            assert(spec_anc1(x, l) != spec_anc1(y, l));
        }
    }
}

/// Between two distinct bounded indices, the number of levels where their
/// ancestors differ is the bit length of their XOR: the paths to the root
/// diverge exactly below the highest differing bit.
pub proof fn lemma_diff_count_is_ilog2(x: u64, y: u64, t: nat)
    requires
        x < y,
        t < 64,
        y < pow2(t),
    ensures
        spec_diff_count(x, y, t) == spec_ilog2((x ^ y) as nat),
{
    let tb = t as u64;
    vstd::bits::lemma_u64_pow2_no_overflow(t);
    vstd::bits::lemma_u64_shl_is_mul(1u64, tb);
    assert((x ^ y) >= 1 && (x ^ y) < (1u64 << tb)) by (bit_vector)
        requires
            x < y,
            y < (1u64 << tb),
            tb < 64,
    ;
    let z = (x ^ y) as nat;
    lemma_ilog2_bounds(z);
    let b = spec_ilog2(z);
    assert(b < t) by {
        if b >= t {
            crate::math::lemma_pow2_le(t, b);
        }
    }
    let bb = b as u64;
    vstd::bits::lemma_u64_pow2_no_overflow(b);
    vstd::bits::lemma_u64_shl_is_mul(1u64, bb);
    vstd::bits::lemma_u64_pow2_no_overflow((b + 1) as nat);
    vstd::bits::lemma_u64_shl_is_mul(1u64, (bb + 1) as u64);
    lemma_diff_upto(x, y, bb, t);
}

/// The total number of recomputed nodes over all levels equals the tree
/// height plus, for each pair of neighbouring touched leaves, the bit
/// length of the XOR of their indices: the closed form behind the
/// unpadded-height computation.
pub proof fn lemma_tower_count_formula(s: Seq<u64>, t: nat)
    requires
        s.len() >= 1,
        strictly_increasing(s),
        t < 64,
        forall|i: int| 0 <= i < s.len() ==> (#[trigger] s[i]) < pow2(t),
    ensures
        spec_tower_count(s, t) == t + spec_divergence_sum(s),
    decreases s.len(),
{
    if s.len() == 1 {
        lemma_tower_singleton(s, t);
    } else {
        let s0 = s.drop_last();
        let y = s.last();
        lemma_tower_count_formula(s0, t);
        assert(s =~= s0.push(y));
        lemma_tower_push(s0, y, t);
        lemma_diff_count_is_ilog2(s0.last(), y, t);
        assert(s[s.len() - 2] == s0.last());
    }
}

/// A prefix never diverges more than the whole sequence.
pub proof fn lemma_div_sum_prefix(s: Seq<u64>, i: int)
    requires
        0 <= i <= s.len(),
    ensures
        spec_divergence_sum(s.take(i)) <= spec_divergence_sum(s),
    decreases s.len() - i,
{
    if i == s.len() {
        assert(s.take(i) =~= s);
    } else {
        lemma_div_sum_prefix(s, i + 1);
        assert(s.take(i + 1).drop_last() =~= s.take(i));
        if i >= 1 {
            assert(spec_divergence_sum(s.take(i + 1)) == spec_divergence_sum(s.take(i))
                + spec_ilog2((s.take(i + 1)[i - 1] ^ s.take(i + 1)[i]) as nat));
        }
    }
}

/// Position of the highest set bit.
pub fn ilog2_u64(z: u64) -> (r: u64)
    requires
        z >= 1,
    ensures
        r == spec_ilog2(z as nat),
        r < 64,
{
    let mut m = z;
    let mut r: u64 = 0;
    proof {
        crate::math::lemma_div_mod_one(z as nat);
        assert(pow2(0) == 1) by {
            vstd::arithmetic::power2::lemma2_to64();
        }
    }
    while m >= 2
        invariant
            m >= 1,
            r < 64,
            m as nat == z as nat / pow2(r as nat),
            spec_ilog2(z as nat) == r + spec_ilog2(m as nat),
        decreases m,
    {
        proof {
            lemma_half_step(z, r as nat);
            lemma_pow2_pos(r as nat);
            vstd::arithmetic::div_mod::lemma_fundamental_div_mod(z as int, pow2(r as nat) as int);
            lemma_pow2_unfold((r + 1) as nat);
            assert(pow2((r + 1) as nat) <= z) by (nonlinear_arith)
                requires
                    z as int == pow2(r as nat) * (z as nat / pow2(r as nat)) + (z as nat % pow2(
                        r as nat,
                    )),
                    m as nat == z as nat / pow2(r as nat),
                    m >= 2,
                    pow2((r + 1) as nat) == 2 * pow2(r as nat),
                    z as nat % pow2(r as nat) >= 0,
                    pow2(r as nat) >= 1,
            ;
            if r + 1 >= 64 {
                crate::math::lemma_pow2_le(64, (r + 1) as nat);
                vstd::arithmetic::power2::lemma2_to64_rest();
            }
        }
        m = m / 2;
        r = r + 1;
    }
    r
}

} // verus!
