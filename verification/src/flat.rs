//! The flat in-order numbering of a binary tree, and the parent lookup the
//! generator relies on.
//!
//! Leaves occupy the even positions 0, 2, 4, ...; an internal node whose
//! subtree spans `pow2(d)` leaves sits at depth `d`.  The node at depth `d`
//! and offset `o` (counting the nodes of that depth left to right) has
//! position `o * pow2(d + 1) + pow2(d) - 1`, and the depth of a position is
//! the number of trailing one bits in its binary representation.  Two
//! positions are siblings under one parent exactly when the parent lookup
//! agrees on them.

use vstd::arithmetic::div_mod::lemma_fundamental_div_mod;
use vstd::arithmetic::div_mod::lemma_fundamental_div_mod_converse;
use vstd::arithmetic::power2::lemma2_to64;
use vstd::arithmetic::power2::lemma_pow2_adds;
use vstd::arithmetic::power2::lemma_pow2_pos;
use vstd::arithmetic::power2::lemma_pow2_unfold;
use vstd::arithmetic::power2::pow2;
use vstd::prelude::*;

verus! {

/// Number of trailing one bits in the binary representation of `i`; this is
/// the depth of the node at position `i` in the flat numbering.
pub open spec fn trailing_ones(i: nat) -> nat
    decreases i,
{
    if i % 2 == 0 {
        0
    } else {
        trailing_ones(i / 2) + 1
    }
}

/// Position of the node at `depth` and `offset` in the flat numbering.
pub open spec fn flat_index(depth: nat, offset: nat) -> nat {
    (offset * pow2(depth + 1) + pow2(depth) - 1) as nat
}

/// Offset of the node at position `i`: how many nodes of the same depth lie
/// to its left.
pub open spec fn flat_offset(i: nat) -> nat {
    i / pow2(trailing_ones(i) + 1)
}

/// Position of the parent of the node at position `i`.
pub open spec fn flat_parent(i: nat) -> nat {
    flat_index(trailing_ones(i) + 1, flat_offset(i) / 2)
}

/// Relies on `flat_tree::parent`: it returns
/// `index(depth(i) + 1, offset(i) >> 1)` where `depth(i)` counts the
/// trailing one bits of `i`, `offset(i) == i >> (depth(i) + 1)`, and
/// `index(d, o) == (o << (d + 1)) | ((1 << d) - 1)`, whose bitwise or adds
/// disjoint bits.  Below `0x3fff_ffff_ffff_ffff` the depth is at most 61,
/// so every shift amount stays under 64 and the result fits in a `u64`.
#[verifier::external_body]
pub(crate) fn parent_index(i: u64) -> (r: u64)
    requires
        i < 0x3fff_ffff_ffff_ffff,
    ensures
        r == flat_parent(i as nat),
{
    flat_tree::parent(i)
}

/// The node at depth `d` and offset `o` has `d` trailing one bits.
pub proof fn lemma_flat_index_depth(d: nat, o: nat)
    ensures
        trailing_ones(flat_index(d, o)) == d,
    decreases d,
{
    lemma_pow2_pos(d);
    if d == 0 {
        assert(pow2(1) == 2 && pow2(0) == 1) by {
            lemma2_to64();
        }
        assert(flat_index(0, o) == o * 2);
        assert((o * 2) % 2 == 0) by (nonlinear_arith);
    } else {
        let i = flat_index(d, o);
        lemma_pow2_unfold(d + 1);
        lemma_pow2_unfold(d);
        lemma_pow2_pos((d - 1) as nat);
        assert(o * pow2(d + 1) == 2 * (o * pow2(d))) by (nonlinear_arith)
            requires
                pow2(d + 1) == 2 * pow2(d),
        ;
        assert(i == 2 * (o * pow2(d) + pow2((d - 1) as nat)) - 1);
        let j = flat_index((d - 1) as nat, o);
        assert(i == 2 * j + 1);
        assert(i % 2 == 1 && i / 2 == j) by {
            lemma_fundamental_div_mod_converse(i as int, 2, j as int, 1);
        }
        lemma_flat_index_depth((d - 1) as nat, o);
    }
}

/// Dividing a position by `pow2(d + 1)` recovers its offset.
pub proof fn lemma_flat_index_div(d: nat, o: nat)
    ensures
        flat_index(d, o) / pow2(d + 1) == o,
        flat_index(d, o) % pow2(d + 1) == pow2(d) - 1,
{
    lemma_pow2_pos(d);
    lemma_pow2_unfold(d + 1);
    lemma_fundamental_div_mod_converse(
        flat_index(d, o) as int,
        pow2(d + 1) as int,
        o as int,
        pow2(d) - 1,
    );
}

/// The parent of the node at depth `d` and offset `o` is the node at depth
/// `d + 1` and offset `o / 2`.
pub proof fn lemma_flat_parent_index(d: nat, o: nat)
    ensures
        flat_parent(flat_index(d, o)) == flat_index(d + 1, o / 2),
{
    lemma_flat_index_depth(d, o);
    lemma_flat_index_div(d, o);
}

/// Distinct depth-offset pairs get distinct positions.
pub proof fn lemma_flat_index_injective(d1: nat, o1: nat, d2: nat, o2: nat)
    requires
        flat_index(d1, o1) == flat_index(d2, o2),
    ensures
        d1 == d2,
        o1 == o2,
{
    lemma_flat_index_depth(d1, o1);
    lemma_flat_index_depth(d2, o2);
    lemma_flat_index_div(d1, o1);
    lemma_flat_index_div(d2, o2);
}

/// A position is even exactly when it is a leaf position.
pub proof fn lemma_flat_index_parity(d: nat, o: nat)
    ensures
        (flat_index(d, o) % 2 == 0) <==> d == 0,
{
    lemma_flat_index_depth(d, o);
    if d == 0 {
        lemma2_to64();
        assert(flat_index(0, o) == o * 2);
        assert((o * 2) % 2 == 0) by (nonlinear_arith);
    }
}

/// A subtree of depth `d` whose leaves end before leaf `o + 1` has its root
/// position below twice that bound.
pub proof fn lemma_flat_index_bound(d: nat, o: nat)
    ensures
        flat_index(d, o) + 1 < (o + 1) * pow2(d + 1),
{
    lemma_pow2_pos(d);
    lemma_pow2_unfold(d + 1);
    assert((o + 1) * pow2(d + 1) == o * pow2(d + 1) + pow2(d + 1)) by (nonlinear_arith);
}

/// Two adjacent same-depth nodes whose left offset is even share a parent.
pub proof fn lemma_siblings(d: nat, o: nat)
    requires
        o % 2 == 0,
    ensures
        flat_parent(flat_index(d, o)) == flat_parent(flat_index(d, o + 1)),
{
    lemma_flat_parent_index(d, o);
    lemma_flat_parent_index(d, o + 1);
    assert(o / 2 == (o + 1) / 2);
}

/// What remains divisible when the modulus shrinks from `pow2(e2)` to
/// `pow2(e1)`.
pub proof fn lemma_pow2_mod_down(x: nat, e1: nat, e2: nat)
    requires
        e1 <= e2,
        x % pow2(e2) == 0,
    ensures
        x % pow2(e1) == 0,
{
    lemma_pow2_pos(e1);
    lemma_pow2_pos(e2);
    lemma_pow2_adds(e1, (e2 - e1) as nat);
    let q = x / pow2(e2);
    lemma_fundamental_div_mod(x as int, pow2(e2) as int);
    assert(x == q * pow2(e2));
    assert(x == (q * pow2((e2 - e1) as nat)) * pow2(e1)) by (nonlinear_arith)
        requires
            x == q * pow2(e2),
            pow2(e2) == pow2(e1) * pow2((e2 - e1) as nat),
    ;
    lemma_fundamental_div_mod_converse(
        x as int,
        pow2(e1) as int,
        (q * pow2((e2 - e1) as nat)) as int,
        0,
    );
}

/// Exact division: a multiple of `pow2(e)` divided by `pow2(e)` leaves no
/// remainder to account for.
pub proof fn lemma_pow2_div_exact(x: nat, y: nat, e: nat)
    requires
        x % pow2(e) == 0,
    ensures
        (x + y * pow2(e)) / pow2(e) == x / pow2(e) + y,
        (x + y * pow2(e)) % pow2(e) == 0,
{
    lemma_pow2_pos(e);
    let q = x / pow2(e);
    lemma_fundamental_div_mod(x as int, pow2(e) as int);
    assert(x == q * pow2(e));
    assert(x + y * pow2(e) == (q + y) * pow2(e)) by (nonlinear_arith)
        requires
            x == q * pow2(e),
    ;
    lemma_fundamental_div_mod_converse(
        (x + y * pow2(e)) as int,
        pow2(e) as int,
        (q + y) as int,
        0,
    );
}

/// Halving a division by `pow2(d)` is division by `pow2(d + 1)`.
pub proof fn lemma_pow2_div_halves(x: nat, d: nat)
    requires
        x % pow2(d + 1) == 0,
    ensures
        (x / pow2(d)) / 2 == x / pow2(d + 1),
        (x / pow2(d)) % 2 == 0,
{
    lemma_pow2_pos(d);
    lemma_pow2_pos(d + 1);
    lemma_pow2_unfold(d + 1);
    let q = x / pow2(d + 1);
    lemma_fundamental_div_mod(x as int, pow2(d + 1) as int);
    assert(x == q * pow2(d + 1));
    assert(x == (2 * q) * pow2(d)) by (nonlinear_arith)
        requires
            x == q * pow2(d + 1),
            pow2(d + 1) == 2 * pow2(d),
    ;
    lemma_fundamental_div_mod_converse(x as int, pow2(d) as int, (2 * q) as int, 0);
    lemma_fundamental_div_mod_converse((2 * q) as int, 2, q as int, 0);
}

} // verus!
