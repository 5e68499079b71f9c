//! The tree generator: the forest of subtree roots and the sibling-merge
//! loop that folds two completed siblings into a parent node.

use crate::flat::flat_index;
use crate::flat::flat_parent;
use crate::flat::lemma_flat_index_bound;
use crate::flat::lemma_flat_index_injective;
use crate::flat::lemma_flat_index_parity;
use crate::flat::lemma_flat_parent_index;
use crate::flat::lemma_pow2_div_exact;
use crate::flat::lemma_pow2_div_halves;
use crate::flat::lemma_pow2_mod_down;
use crate::flat::lemma_siblings;
use crate::flat::parent_index;
use crate::hash::HashError;
use crate::hash::Hasher;
use crate::node::node_views;
use crate::node::Node;
use crate::node::NodeView;
use vstd::arithmetic::div_mod::lemma_fundamental_div_mod_converse;
use vstd::arithmetic::power2::lemma2_to64;
use vstd::arithmetic::power2::lemma_pow2_adds;
use vstd::arithmetic::power2::lemma_pow2_pos;
use vstd::arithmetic::power2::lemma_pow2_unfold;
use vstd::arithmetic::power2::pow2;
use vstd::prelude::*;

verus! {

/// Appending more than this many blocks is not supported: below it, every
/// position handed to the parent lookup stays well inside `u64` range.
pub const MAX_BLOCKS: u64 = 0x1000_0000_0000_0000;

/// The range of leaves a forest root covers: `pow2(depth)` consecutive
/// leaves beginning at leaf `start`.
pub ghost struct Span {
    pub depth: nat,
    pub start: nat,
}

/// Sum of a sequence of lengths.
pub open spec fn seq_sum(s: Seq<nat>) -> nat
    decreases s.len(),
{
    if s.len() == 0 {
        0
    } else {
        seq_sum(s.drop_last()) + s.last()
    }
}

proof fn lemma_seq_sum_concat(a: Seq<nat>, b: Seq<nat>)
    ensures
        seq_sum(a + b) == seq_sum(a) + seq_sum(b),
    decreases b.len(),
{
    if b.len() == 0 {
        assert(a + b =~= a);
    } else {
        assert((a + b).drop_last() =~= a + b.drop_last());
        lemma_seq_sum_concat(a, b.drop_last());
    }
}

/// The slice of `s` from `a` up to `b` contributes that part of the total.
pub proof fn lemma_seq_sum_split(s: Seq<nat>, a: int, m: int, b: int)
    requires
        0 <= a <= m <= b <= s.len(),
    ensures
        seq_sum(s.subrange(a, b)) == seq_sum(s.subrange(a, m)) + seq_sum(s.subrange(m, b)),
{
    assert(s.subrange(a, b) =~= s.subrange(a, m) + s.subrange(m, b));
    lemma_seq_sum_concat(s.subrange(a, m), s.subrange(m, b));
}

/// No slice sums to more than the whole sequence.
pub proof fn lemma_seq_sum_subrange_le(s: Seq<nat>, a: int, b: int)
    requires
        0 <= a <= b <= s.len(),
    ensures
        seq_sum(s.subrange(a, b)) <= seq_sum(s),
{
    assert(s =~= s.subrange(0, s.len() as int));
    lemma_seq_sum_split(s, 0, a, s.len() as int);
    lemma_seq_sum_split(s, a, b, s.len() as int);
}

proof fn lemma_seq_sum_push(s: Seq<nat>, x: nat)
    ensures
        seq_sum(s.push(x)) == seq_sum(s) + x,
{
    assert(s.push(x).drop_last() =~= s);
}

proof fn lemma_seq_sum_one(s: Seq<nat>)
    requires
        s.len() == 1,
    ensures
        seq_sum(s) == s[0],
{
    assert(s.drop_last().len() == 0);
    assert(seq_sum(s.drop_last()) == 0);
}

proof fn lemma_subrange_push(s: Seq<nat>, x: nat, a: int, b: int)
    requires
        0 <= a <= b <= s.len(),
    ensures
        s.push(x).subrange(a, b) == s.subrange(a, b),
{
    assert(s.push(x).subrange(a, b) =~= s.subrange(a, b));
}

/// Number of one bits in the binary representation of `n`.
pub open spec fn popcount(n: nat) -> nat
    decreases n,
{
    if n == 0 {
        0
    } else {
        n % 2 + popcount(n / 2)
    }
}

/// The spans of a well-formed forest over `n` leaves: they tile the leaf
/// range `[0, n)` from left to right, their depths strictly decrease, and
/// each start is aligned one level above its own subtree.
pub open spec fn spans_ok(sp: Seq<Span>, n: nat) -> bool {
    &&& (sp.len() == 0 <==> n == 0)
    &&& (sp.len() > 0 ==> sp[0].start == 0)
    &&& (forall|j: int|
        1 <= j < sp.len() ==> (#[trigger] sp[j]).start == sp[j - 1].start + pow2(sp[j - 1].depth))
    &&& (sp.len() > 0 ==> sp.last().start + pow2(sp.last().depth) == n)
    &&& (forall|j: int| 1 <= j < sp.len() ==> sp[j - 1].depth > (#[trigger] sp[j]).depth)
    &&& (forall|j: int|
        0 <= j < sp.len() ==> (#[trigger] sp[j]).start % pow2(sp[j].depth + 1) == 0)
}

/// What a root node of the forest says about the span it covers: its
/// position and parent position follow the flat numbering, it carries data
/// exactly when it is a leaf, and its size is the total length of the
/// blocks it covers.
pub open spec fn root_ok(n: NodeView, s: Span, lens: Seq<nat>) -> bool {
    &&& s.start + pow2(s.depth) <= lens.len()
    &&& n.index == flat_index(s.depth, s.start / pow2(s.depth))
    &&& n.parent == flat_parent(n.index)
    &&& (n.data is Some <==> s.depth == 0)
    &&& n.size == seq_sum(lens.subrange(s.start as int, (s.start + pow2(s.depth)) as int))
}

proof fn lemma_prefix_shift<A>(s: Seq<A>, x: A, rest: Seq<A>)
    requires
        s.len() >= 1,
        s.last() == x,
    ensures
        s.drop_last() + (seq![x] + rest) == s + rest,
{
    assert(s.drop_last() + (seq![x] + rest) =~= s + rest);
}

proof fn lemma_split_last<A>(s: Seq<A>)
    requires
        s.len() >= 1,
    ensures
        s.drop_last() + seq![s.last()] == s,
{
    assert(s.drop_last() + seq![s.last()] =~= s);
}

proof fn lemma_node_views_push(s: Seq<Node>, x: Node)
    ensures
        node_views(s.push(x)) == node_views(s).push(x@),
        node_views(s.push(x)).drop_last() == node_views(s),
        node_views(s.push(x)).last() == x@,
{
    assert(node_views(s.push(x)) =~= node_views(s).push(x@));
    assert(node_views(s).push(x@).drop_last() =~= node_views(s));
}

/// Two adjacent roots merge exactly when their parents coincide; because
/// the left root's start is aligned one level above its depth, that happens
/// exactly when the left root sits at the chain node's own depth.
proof fn lemma_merge_sibling(dl: nat, ls: nat, cd: nat, cs: nat, b: nat, left: NodeView, cur: NodeView)
    requires
        ls % pow2(dl + 1) == 0,
        ls + pow2(dl) == cs,
        cs % pow2(cd) == 0,
        cs + pow2(cd) == b + 1,
        left.index == flat_index(dl, ls / pow2(dl)),
        left.parent == flat_parent(left.index),
        cur.index == flat_index(cd, cs / pow2(cd)),
        cur.parent == flat_parent(cur.index),
        dl >= cd,
    ensures
        (left.parent == cur.parent <==> dl == cd),
        dl == cd ==> {
            &&& ls % pow2(cd + 1) == 0
            &&& ls + pow2(cd + 1) == b + 1
            &&& left.parent == flat_index(cd + 1, ls / pow2(cd + 1))
            &&& left.parent + 1 < 2 * (b + 1)
        },
        dl > cd ==> cs % pow2(cd + 1) == 0,
{
    lemma_pow2_pos(cd);
    lemma_pow2_pos(dl);
    lemma_pow2_mod_down(ls, dl, dl + 1);
    lemma_pow2_div_exact(ls, 1, dl);
    lemma_pow2_div_halves(ls, dl);
    lemma_flat_parent_index(dl, ls / pow2(dl));
    lemma_flat_parent_index(cd, cs / pow2(cd));
    if dl == cd {
        let ol = ls / pow2(dl);
        assert(cs / pow2(cd) == ol + 1);
        lemma_siblings(cd, ol);
        assert(left.parent == cur.parent);
        assert((ls / pow2(dl)) / 2 == ls / pow2(cd + 1));
        lemma_flat_index_bound(cd + 1, ls / pow2(cd + 1));
        lemma_pow2_unfold(cd + 1);
        lemma_pow2_unfold(cd + 2);
        vstd::arithmetic::div_mod::lemma_fundamental_div_mod(ls as int, pow2(cd + 1) as int);
        assert((ls / pow2(cd + 1) + 1) * pow2(cd + 2) == 2 * (ls + pow2(cd + 1)))
            by (nonlinear_arith)
            requires
                ls == pow2(cd + 1) * (ls / pow2(cd + 1)),
                pow2(cd + 2) == 2 * pow2(cd + 1),
        ;
    } else {
        // parents of nodes at different depths sit at different depths
        // themselves, so they differ
        if left.parent == cur.parent {
            lemma_flat_index_injective(
                dl + 1,
                (ls / pow2(dl)) / 2,
                cd + 1,
                (cs / pow2(cd)) / 2,
            );
            assert(false);
        }
        lemma_pow2_mod_down(ls, cd + 1, dl + 1);
        lemma_pow2_adds((dl - (cd + 1)) as nat, cd + 1);
        lemma_pow2_div_exact(ls, pow2((dl - (cd + 1)) as nat), cd + 1);
        assert(ls + pow2((dl - (cd + 1)) as nat) * pow2(cd + 1) == cs);
    }
}

proof fn lemma_chain_step<H: Hasher>(h: H, r: Seq<NodeView>, k: int, cur: NodeView, pn: NodeView)
    requires
        1 <= k <= r.len(),
        r.take(k).last().parent == cur.parent,
        pn == merged_view(h, r[k - 1], cur),
    ensures
        chain(h, r.take(k), cur) == seq![cur] + chain(h, r.take(k - 1), pn),
        chain_ok(h, r.take(k), cur) == (h.parent_hash_ok(r[k - 1], cur) && chain_ok(
            h,
            r.take(k - 1),
            pn,
        )),
{
    assert(r.take(k).last() == r[k - 1]);
    assert(r.take(k).drop_last() =~= r.take(k - 1));
}

proof fn lemma_merge_size(lens0: Seq<nat>, dlen: nat, ls: int, cs: int, b: int)
    requires
        lens0.len() == b,
        0 <= ls <= cs <= b,
    ensures
        seq_sum(lens0.push(dlen).subrange(ls, cs)) == seq_sum(lens0.subrange(ls, cs)),
        seq_sum(lens0.push(dlen).subrange(ls, cs)) + seq_sum(
            lens0.push(dlen).subrange(cs, b + 1),
        ) == seq_sum(lens0.push(dlen).subrange(ls, b + 1)),
        seq_sum(lens0.push(dlen).subrange(ls, b + 1)) <= seq_sum(lens0) + dlen,
{
    lemma_subrange_push(lens0, dlen, ls, cs);
    lemma_seq_sum_split(lens0.push(dlen), ls, cs, b + 1);
    lemma_seq_sum_subrange_le(lens0.push(dlen), ls, b + 1);
    lemma_seq_sum_push(lens0, dlen);
}

/// The view of the parent node that folds two sibling roots together.
pub open spec fn merged_view<H: Hasher>(h: H, left: NodeView, cur: NodeView) -> NodeView {
    NodeView {
        index: left.parent,
        parent: flat_parent(left.parent),
        hash: h.parent_hash(left, cur),
        data: Option::None,
        size: left.size + cur.size,
    }
}

/// The nodes one append emits, bottom up: the fresh node `cur`, then every
/// parent formed while the rightmost two roots are siblings.
pub open spec fn chain<H: Hasher>(h: H, roots: Seq<NodeView>, cur: NodeView) -> Seq<NodeView>
    decreases roots.len(),
{
    if roots.len() > 0 && roots.last().parent == cur.parent {
        seq![cur] + chain(h, roots.drop_last(), merged_view(h, roots.last(), cur))
    } else {
        seq![cur]
    }
}

/// Whether every parent hash along that chain succeeds.
pub open spec fn chain_ok<H: Hasher>(h: H, roots: Seq<NodeView>, cur: NodeView) -> bool
    decreases roots.len(),
{
    if roots.len() > 0 && roots.last().parent == cur.parent {
        h.parent_hash_ok(roots.last(), cur) && chain_ok(
            h,
            roots.drop_last(),
            merged_view(h, roots.last(), cur),
        )
    } else {
        true
    }
}

/// The provisional leaf for block number `blocks`, before it is hashed.
pub open spec fn bare_leaf(blocks: nat, data: Seq<u8>) -> NodeView {
    NodeView {
        index: 2 * blocks,
        parent: flat_parent(2 * blocks),
        hash: Seq::empty(),
        data: Option::Some(data),
        size: data.len(),
    }
}

/// The finished leaf, once the injected leaf hash has been filled in.
pub open spec fn hashed_leaf<H: Hasher>(
    h: H,
    roots: Seq<NodeView>,
    blocks: nat,
    data: Seq<u8>,
) -> NodeView {
    NodeView { hash: h.leaf_hash(bare_leaf(blocks, data), roots), ..bare_leaf(blocks, data) }
}

/// Every node one append emits, as a function of the visible state, the
/// hasher, and the block alone.
pub open spec fn append_out<H: Hasher>(
    h: H,
    roots: Seq<NodeView>,
    blocks: nat,
    data: Seq<u8>,
) -> Seq<NodeView> {
    chain(h, roots, hashed_leaf(h, roots, blocks, data))
}

/// Whether the append succeeds: the leaf hash and every parent hash along
/// the merge chain must produce a digest.
pub open spec fn append_ok<H: Hasher>(
    h: H,
    roots: Seq<NodeView>,
    blocks: nat,
    data: Seq<u8>,
) -> bool {
    &&& h.leaf_hash_ok(bare_leaf(blocks, data), roots)
    &&& chain_ok(h, roots, hashed_leaf(h, roots, blocks, data))
}

/// The streaming tree generator.  It owns the forest of current subtree
/// roots, left to right, and the count of blocks appended so far; every
/// mutation goes through `next`.
pub struct Generator<H> {
    /// The current forest roots, left to right by position.  Read-only for
    /// callers: `next` alone maintains the forest.
    pub roots: Vec<Node>,
    /// How many blocks have been appended so far.
    pub blocks: u64,
    /// The injected hash functions.
    pub hasher: H,
    /// Length of every block appended so far, oldest first.
    pub block_lens: Ghost<Seq<nat>>,
    /// The leaf range each root covers.
    pub spans: Ghost<Seq<Span>>,
}

impl<H: Hasher> Generator<H> {
    /// Total bytes appended so far.
    pub open spec fn total_bytes(&self) -> nat {
        seq_sum(self.block_lens@)
    }

    /// The generator's invariant: the spans tile the appended leaves, and
    /// each root describes its span.
    pub open spec fn wf(&self) -> bool {
        &&& self.block_lens@.len() == self.blocks
        &&& self.spans@.len() == self.roots@.len()
        &&& spans_ok(self.spans@, self.blocks as nat)
        &&& (forall|j: int|
            0 <= j < self.roots@.len() ==> root_ok(
                (#[trigger] self.roots@[j])@,
                self.spans@[j],
                self.block_lens@,
            ))
    }

    /// A fresh generator: no blocks, no roots.
    pub fn new(hasher: H) -> (g: Generator<H>)
        ensures
            g.wf(),
            g.roots@.len() == 0,
            g.blocks == 0,
            g.block_lens@ == Seq::<nat>::empty(),
            g.hasher == hasher,
    {
        Generator {
            roots: Vec::new(),
            blocks: 0,
            hasher,
            block_lens: Ghost(Seq::empty()),
            spans: Ghost(Seq::empty()),
        }
    }

    /// Append one block.  The block becomes a leaf at position
    /// `2 * blocks`; then, while the rightmost two roots are siblings, they
    /// are folded into a freshly hashed parent.  Every node created is
    /// returned bottom up, the leaf first.  If an injected hash function
    /// fails, the error is returned and the generator is left exactly as it
    /// was: no partial merge is ever applied.
    #[verifier::rlimit(100)]
    pub fn next(&mut self, data: Vec<u8>) -> (r: Result<Vec<Node>, HashError>)
        requires
            old(self).wf(),
            old(self).blocks < MAX_BLOCKS,
            old(self).total_bytes() + data@.len() <= usize::MAX,
        ensures
            final(self).wf(),
            final(self).hasher == old(self).hasher,
            (r is Ok <==> append_ok(
                old(self).hasher,
                node_views(old(self).roots@),
                old(self).blocks as nat,
                data@,
            )),
            (r matches Ok(ns) ==> {
                let out = append_out(
                    old(self).hasher,
                    node_views(old(self).roots@),
                    old(self).blocks as nat,
                    data@,
                );
                &&& node_views(ns@) == out
                &&& 1 <= out.len() <= old(self).roots@.len() + 1
                &&& final(self).blocks == old(self).blocks + 1
                &&& final(self).block_lens@ == old(self).block_lens@.push(data@.len())
                &&& node_views(final(self).roots@) == node_views(old(self).roots@).take(
                    old(self).roots@.len() + 1 - out.len(),
                ).push(out.last())
            }),
            (r is Err ==> *final(self) == *old(self)),
    {
        let ghost g0 = *self;
        let ghost lens0 = g0.block_lens@;
        let ghost d0 = data@;
        let ghost dlen = data@.len();
        let ghost lens1 = lens0.push(dlen);
        let ghost r0 = node_views(g0.roots@);
        let ghost h0 = g0.hasher;
        let ghost b = g0.blocks as nat;

        let index: u64 = 2 * self.blocks;
        let pidx: u64 = parent_index(index);
        let size: usize = data.len();
        let mut leaf = Node { index, parent: pidx, hash: Vec::new(), data: Some(data), size };
        proof {
            assert(leaf@.hash =~= Seq::<u8>::empty());
            assert(leaf@ == bare_leaf(b, d0));
        }
        let h = match self.hasher.hash_leaf(&leaf, &self.roots) {
            Ok(h) => h,
            Err(e) => {
                return Err(e);
            },
        };
        leaf.hash = h;
        let ghost n0 = leaf@;
        proof {
            assert(n0 == hashed_leaf(h0, r0, b, d0));
        }
        let mut nodes: Vec<Node> = Vec::new();
        nodes.push(leaf);
        let mut k: usize = self.roots.len();
        let ghost mut cd: nat = 0;
        let ghost mut cs: nat = b;
        proof {
            lemma2_to64();
            lemma_seq_sum_push(lens0, dlen);
            assert(r0.take(k as int) =~= r0);
            assert(Seq::<NodeView>::empty() + chain(h0, r0, n0) =~= chain(h0, r0, n0));
            assert(node_views(nodes@).drop_last() =~= Seq::<NodeView>::empty());
            lemma_seq_sum_one(lens1.subrange(b as int, (b + 1) as int));
        }
        loop
            invariant
                *self == g0,
                g0.wf(),
                g0.blocks < MAX_BLOCKS,
                b == g0.blocks as nat,
                r0 == node_views(g0.roots@),
                h0 == g0.hasher,
                lens0 == g0.block_lens@,
                d0 == data@,
                dlen == d0.len(),
                lens1 == g0.block_lens@.push(dlen),
                n0 == hashed_leaf(h0, r0, b, d0),
                h0.leaf_hash_ok(bare_leaf(b, d0), r0),
                seq_sum(lens1) <= usize::MAX,
                k <= g0.roots@.len(),
                nodes@.len() >= 1,
                nodes@.len() + k == g0.roots@.len() + 1,
                chain(h0, r0, n0) == node_views(nodes@).drop_last() + chain(
                    h0,
                    r0.take(k as int),
                    nodes@.last()@,
                ),
                chain_ok(h0, r0, n0) == chain_ok(h0, r0.take(k as int), nodes@.last()@),
                cs % pow2(cd) == 0,
                cs + pow2(cd) == b + 1,
                nodes@.last()@.index == flat_index(cd, cs / pow2(cd)),
                nodes@.last()@.parent == flat_parent(nodes@.last()@.index),
                (nodes@.last()@.data is Some <==> cd == 0),
                nodes@.last()@.size == seq_sum(lens1.subrange(cs as int, (b + 1) as int)),
                (k > 0 ==> g0.spans@[k - 1].start + pow2(g0.spans@[k - 1].depth) == cs),
                (k > 0 ==> g0.spans@[k - 1].depth >= cd),
                (k == 0 ==> cs == 0),
            ensures
                *self == g0,
                k <= g0.roots@.len(),
                nodes@.len() >= 1,
                nodes@.len() + k == g0.roots@.len() + 1,
                chain(h0, r0, n0) == node_views(nodes@),
                chain_ok(h0, r0, n0),
                cs % pow2(cd + 1) == 0,
                cs + pow2(cd) == b + 1,
                nodes@.last()@.index == flat_index(cd, cs / pow2(cd)),
                nodes@.last()@.parent == flat_parent(nodes@.last()@.index),
                (nodes@.last()@.data is Some <==> cd == 0),
                nodes@.last()@.size == seq_sum(lens1.subrange(cs as int, (b + 1) as int)),
                (k > 0 ==> g0.spans@[k - 1].start + pow2(g0.spans@[k - 1].depth) == cs),
                (k > 0 ==> g0.spans@[k - 1].depth >= cd + 1),
                (k == 0 ==> cs == 0),
            decreases k,
        {
            proof {
                lemma_pow2_pos(cd);
            }
            if k == 0 {
                proof {
                    lemma2_to64();
                    assert(r0.take(0) =~= Seq::<NodeView>::empty());
                    assert(chain(h0, r0.take(0), nodes@.last()@) == seq![nodes@.last()@]);
                    assert(chain_ok(h0, r0.take(0), nodes@.last()@));
                    lemma_split_last(node_views(nodes@));
                    assert(node_views(nodes@).last() == nodes@.last()@);
                    lemma_pow2_pos(cd + 1);
                }
                break;
            }
            let li = k - 1;
            let lp = self.roots[li].parent;
            let ci = nodes.len() - 1;
            let cp = nodes[ci].parent;
            let ghost left = g0.roots@[li as int]@;
            let ghost cur = nodes@.last()@;
            let ghost dl = g0.spans@[li as int].depth;
            let ghost ls = g0.spans@[li as int].start;
            proof {
                assert((li as int) < g0.roots@.len());
                assert(root_ok(g0.roots@[li as int]@, g0.spans@[li as int], g0.block_lens@));
                assert(spans_ok(g0.spans@, b));
                assert(ls % pow2(dl + 1) == 0);
                assert(nodes@[ci as int] == nodes@.last());
                assert(r0.take(k as int)[k - 1] == r0[k - 1]);
                assert(r0.take(k as int).last() == left);
                assert(r0.take(k as int).len() == k);
                lemma_merge_sibling(dl, ls, cd, cs, b, left, cur);
            }
            if lp != cp {
                proof {
                    // not siblings: the last standing root sits strictly
                    // above the chain node, and the chain node's start is
                    // aligned one level above its depth
                    assert(left.parent != cur.parent);
                    assert(chain(h0, r0.take(k as int), cur) == seq![cur]);
                    assert(chain_ok(h0, r0.take(k as int), cur));
                    lemma_split_last(node_views(nodes@));
                    assert(node_views(nodes@).last() == cur);
                }
                break;
            }
            let ph = match self.hasher.hash_parent(&self.roots[li], &nodes[ci]) {
                Ok(h) => h,
                Err(e) => {
                    proof {
                        assert(!h0.parent_hash_ok(left, cur));
                        assert(!chain_ok(h0, r0.take(k as int), cur));
                    }
                    return Err(e);
                },
            };
            proof {
                lemma_merge_size(lens0, dlen, ls as int, cs as int, b as int);
                lemma_seq_sum_push(lens0, dlen);
            }
            let pi = parent_index(lp);
            let sz = self.roots[li].size + nodes[ci].size;
            let pn = Node { index: lp, parent: pi, hash: ph, data: None, size: sz };
            let ghost nds = nodes@;
            nodes.push(pn);
            proof {
                assert(pn@ == merged_view(h0, left, cur));
                lemma_chain_step(h0, r0, k as int, cur, pn@);
                lemma_node_views_push(nds, pn);
                assert(node_views(nds).last() == cur);
                lemma_prefix_shift(node_views(nds), cur, chain(h0, r0.take(li as int), pn@));
                cs = ls;
                cd = cd + 1;
                if li > 0 {
                    assert(g0.spans@[li - 1].start + pow2(g0.spans@[li - 1].depth) == ls);
                    assert(g0.spans@[li - 1].depth > dl);
                }
            }
            k = li;
        }
        self.roots.truncate(k);
        let li2 = nodes.len() - 1;
        let last = nodes[li2].clone();
        self.roots.push(last);
        self.blocks = self.blocks + 1;
        self.block_lens = Ghost(lens1);
        self.spans = Ghost(g0.spans@.take(k as int).push(Span { depth: cd, start: cs }));
        proof {
            let spc = self.spans@;
            let out = append_out(h0, r0, b, d0);
            assert(out == node_views(nodes@));
            assert(self.roots@ == g0.roots@.subrange(0, k as int).push(last));
            assert(node_views(self.roots@) =~= node_views(g0.roots@).take(k as int).push(
                out.last(),
            ));
            assert(spc.len() == k + 1);
            lemma_pow2_pos(cd);
            if k > 0 {
                assert(spans_ok(g0.spans@, b));
                assert(g0.spans@[0].start == 0);
            }
            // the invariant holds of the committed forest
            assert forall|j: int| 1 <= j < spc.len() implies (#[trigger] spc[j]).start == spc[j
                - 1].start + pow2(spc[j - 1].depth) by {
                if j < k {
                    assert(spans_ok(g0.spans@, b));
                }
            }
            assert forall|j: int| 1 <= j < spc.len() implies spc[j - 1].depth > (
            #[trigger] spc[j]).depth by {
                if j < k {
                    assert(spans_ok(g0.spans@, b));
                }
            }
            assert forall|j: int| 0 <= j < spc.len() implies (#[trigger] spc[j]).start % pow2(
                spc[j].depth + 1,
            ) == 0 by {
                if j < k {
                    assert(spans_ok(g0.spans@, b));
                }
            }
            assert forall|j: int| 0 <= j < self.roots@.len() implies root_ok(
                (#[trigger] self.roots@[j])@,
                spc[j],
                lens1,
            ) by {
                if j < k {
                    assert(root_ok(g0.roots@[j]@, g0.spans@[j], lens0));
                    lemma_subrange_push(
                        lens0,
                        dlen,
                        g0.spans@[j].start as int,
                        (g0.spans@[j].start + pow2(g0.spans@[j].depth)) as int,
                    );
                } else {
                    assert(self.roots@[j]@ == nodes@.last()@);
                }
            }
            assert(self.wf());
        }
        Ok(nodes)
    }
}

/// Adding `pow2(e)` to a multiple of `pow2(e + 1)` sets exactly one more
/// bit.
proof fn lemma_popcount_add_pow2(m: nat, e: nat)
    requires
        m % pow2(e + 1) == 0,
    ensures
        popcount(m + pow2(e)) == popcount(m) + 1,
    decreases e,
{
    lemma_pow2_pos(e);
    lemma_pow2_pos(e + 1);
    lemma2_to64();
    if e == 0 {
        assert(pow2(1) == 2);
        assert(m % 2 == 0);
        assert((m + 1) % 2 == 1 && (m + 1) / 2 == m / 2);
        assert(popcount(m) == popcount(m / 2));
    } else {
        lemma_pow2_unfold(e + 1);
        lemma_pow2_unfold(e);
        let q = m / pow2(e + 1);
        vstd::arithmetic::div_mod::lemma_fundamental_div_mod(m as int, pow2(e + 1) as int);
        assert(m == q * pow2(e + 1)) by (nonlinear_arith)
            requires
                m == pow2(e + 1) * q,
        ;
        assert(m == (q * pow2(e)) * 2 + 0) by (nonlinear_arith)
            requires
                m == q * pow2(e + 1),
                pow2(e + 1) == 2 * pow2(e),
        ;
        lemma_fundamental_div_mod_converse(m as int, 2, (q * pow2(e)) as int, 0);
        lemma_fundamental_div_mod_converse(
            (q * pow2(e)) as int,
            pow2(e) as int,
            q as int,
            0,
        );
        assert(m + pow2(e) == (m / 2 + pow2((e - 1) as nat)) * 2 + 0);
        lemma_fundamental_div_mod_converse(
            (m + pow2(e)) as int,
            2,
            (m / 2 + pow2((e - 1) as nat)) as int,
            0,
        );
        lemma_popcount_add_pow2(m / 2, (e - 1) as nat);
        assert(popcount(m) == popcount(m / 2));
        assert(popcount(m + pow2(e)) == popcount(m / 2 + pow2((e - 1) as nat)));
    }
}

/// A forest tiling `n` leaves with strictly descending, aligned subtree
/// depths holds exactly one root per one bit of `n`.
proof fn lemma_spans_popcount(sp: Seq<Span>, n: nat)
    requires
        spans_ok(sp, n),
    ensures
        sp.len() == popcount(n),
    decreases sp.len(),
{
    if sp.len() == 0 {
    } else {
        let e = sp.last().depth;
        let s = sp.last().start;
        assert(s % pow2(e + 1) == 0);
        lemma_popcount_add_pow2(s, e);
        let sp2 = sp.drop_last();
        if sp2.len() > 0 {
            assert(sp2.last() == sp[sp.len() - 2]);
            assert(sp[sp.len() - 1].start == sp[sp.len() - 2].start + pow2(
                sp[sp.len() - 2].depth,
            ));
            lemma_pow2_pos(sp2.last().depth);
        }
        assert forall|j: int|
            1 <= j < sp2.len() implies (#[trigger] sp2[j]).start == sp2[j - 1].start + pow2(
            sp2[j - 1].depth,
        ) by {
            assert(sp2[j] == sp[j] && sp2[j - 1] == sp[j - 1]);
        }
        assert forall|j: int| 1 <= j < sp2.len() implies sp2[j - 1].depth > (
        #[trigger] sp2[j]).depth by {
            assert(sp2[j] == sp[j] && sp2[j - 1] == sp[j - 1]);
        }
        assert forall|j: int|
            0 <= j < sp2.len() implies (#[trigger] sp2[j]).start % pow2(sp2[j].depth + 1)
            == 0 by {
            assert(sp2[j] == sp[j]);
        }
        assert(spans_ok(sp2, s));
        lemma_spans_popcount(sp2, s);
    }
}

proof fn lemma_popcount_pos(n: nat)
    requires
        n > 0,
    ensures
        popcount(n) > 0,
    decreases n,
{
    if n % 2 == 0 {
        lemma_popcount_pos(n / 2);
    }
}

/// Law: after any number of appends, the forest holds exactly as many
/// roots as the block count has one bits in binary; in particular it is
/// never empty once a block has been appended.
pub proof fn lemma_roots_popcount<H: Hasher>(g: Generator<H>)
    requires
        g.wf(),
    ensures
        g.roots@.len() == popcount(g.blocks as nat),
        g.blocks > 0 ==> g.roots@.len() > 0,
{
    lemma_spans_popcount(g.spans@, g.blocks as nat);
    if g.blocks > 0 {
        lemma_popcount_pos(g.blocks as nat);
    }
}

/// Law: when the forest has collapsed to a single root, the block count is
/// a power of two and that root's size is the total length of every block
/// appended so far.
pub proof fn lemma_single_root_size<H: Hasher>(g: Generator<H>)
    requires
        g.wf(),
        g.roots@.len() == 1,
    ensures
        g.blocks == pow2(g.spans@[0].depth),
        g.roots@[0]@.size == seq_sum(g.block_lens@),
{
    assert(root_ok(g.roots@[0]@, g.spans@[0], g.block_lens@));
    assert(g.spans@[0].start == 0);
    assert(g.block_lens@.subrange(0, g.blocks as int) =~= g.block_lens@);
}

/// Law: no two adjacent roots of a well-formed forest share a parent; the
/// merge loop leaves no sibling pair standing.
pub proof fn lemma_no_adjacent_siblings<H: Hasher>(g: Generator<H>)
    requires
        g.wf(),
    ensures
        forall|j: int|
            1 <= j < g.roots@.len() ==> (#[trigger] g.roots@[j])@.parent != g.roots@[j
                - 1]@.parent,
{
    assert forall|j: int|
        1 <= j < g.roots@.len() implies (#[trigger] g.roots@[j])@.parent != g.roots@[j
        - 1]@.parent by {
        let sl = g.spans@[j - 1];
        let sr = g.spans@[j];
        assert(root_ok(g.roots@[j - 1]@, sl, g.block_lens@));
        assert(root_ok(g.roots@[j]@, sr, g.block_lens@));
        lemma_flat_parent_index(sl.depth, sl.start / pow2(sl.depth));
        lemma_flat_parent_index(sr.depth, sr.start / pow2(sr.depth));
        assert(sl.depth > sr.depth);
        if g.roots@[j]@.parent == g.roots@[j - 1]@.parent {
            lemma_flat_index_injective(
                sl.depth + 1,
                (sl.start / pow2(sl.depth)) / 2,
                sr.depth + 1,
                (sr.start / pow2(sr.depth)) / 2,
            );
            assert(false);
        }
    }
}

/// Law: a root carries block data exactly when its position is even, that
/// is, exactly when it is a leaf.
pub proof fn lemma_root_data_iff_even<H: Hasher>(g: Generator<H>)
    requires
        g.wf(),
    ensures
        forall|j: int|
            0 <= j < g.roots@.len() ==> ((#[trigger] g.roots@[j])@.data is Some
                <==> g.roots@[j]@.index % 2 == 0),
{
    assert forall|j: int|
        0 <= j < g.roots@.len() implies ((#[trigger] g.roots@[j])@.data is Some
        <==> g.roots@[j]@.index % 2 == 0) by {
        assert(root_ok(g.roots@[j]@, g.spans@[j], g.block_lens@));
        lemma_flat_index_parity(g.spans@[j].depth, g.spans@[j].start / pow2(g.spans@[j].depth));
    }
}

/// Law: appending is referentially transparent.  Two generators whose
/// visible states agree, driven by the same hasher, produce the identical
/// node sequence and the identical outcome for the same block, so
/// replaying one ordered sequence of blocks from a fresh generator always
/// replays the identical node stream.
pub proof fn lemma_append_replay<H: Hasher>(g1: Generator<H>, g2: Generator<H>, data: Seq<u8>)
    requires
        node_views(g1.roots@) == node_views(g2.roots@),
        g1.blocks == g2.blocks,
        g1.hasher == g2.hasher,
    ensures
        append_out(g1.hasher, node_views(g1.roots@), g1.blocks as nat, data) == append_out(
            g2.hasher,
            node_views(g2.roots@),
            g2.blocks as nat,
            data,
        ),
        append_ok(g1.hasher, node_views(g1.roots@), g1.blocks as nat, data) == append_ok(
            g2.hasher,
            node_views(g2.roots@),
            g2.blocks as nat,
            data,
        ),
{
}

proof fn lemma_chain_len<H: Hasher>(h: H, roots: Seq<NodeView>, cur: NodeView)
    ensures
        chain(h, roots, cur).len() >= 1,
        chain(h, roots, cur)[0] == cur,
    decreases roots.len(),
{
    if roots.len() > 0 && roots.last().parent == cur.parent {
        lemma_chain_len(h, roots.drop_last(), merged_view(h, roots.last(), cur));
    }
}

/// Law: an append folds roots into parents exactly when parent positions
/// coincide.  In particular it emits more than its leaf exactly when the
/// rightmost standing root and the fresh leaf share a parent position;
/// every further fold in `chain` repeats the same test one level up.
pub proof fn lemma_merge_iff<H: Hasher>(h: H, roots: Seq<NodeView>, blocks: nat, data: Seq<u8>)
    ensures
        append_out(h, roots, blocks, data).len() > 1 <==> (roots.len() > 0
            && roots.last().parent == hashed_leaf(h, roots, blocks, data).parent),
{
    let hl = hashed_leaf(h, roots, blocks, data);
    if roots.len() > 0 && roots.last().parent == hl.parent {
        let merged = merged_view(h, roots.last(), hl);
        assert(append_out(h, roots, blocks, data) == seq![hl] + chain(
            h,
            roots.drop_last(),
            merged,
        ));
        lemma_chain_len(h, roots.drop_last(), merged);
    } else {
        assert(append_out(h, roots, blocks, data) == seq![hl]);
    }
}

/// Law: every append emits its fresh leaf first: a node at position twice
/// the block's zero-based number, carrying the block itself.
pub proof fn lemma_leaf_position<H: Hasher>(h: H, roots: Seq<NodeView>, blocks: nat, data: Seq<u8>)
    ensures
        append_out(h, roots, blocks, data).len() >= 1,
        append_out(h, roots, blocks, data)[0].index == 2 * blocks,
        append_out(h, roots, blocks, data)[0].data == Option::Some(data),
        append_out(h, roots, blocks, data)[0].size == data.len(),
{
    let hl = hashed_leaf(h, roots, blocks, data);
    if roots.len() > 0 && roots.last().parent == hl.parent {
        assert(append_out(h, roots, blocks, data) == seq![hl] + chain(
            h,
            roots.drop_last(),
            merged_view(h, roots.last(), hl),
        ));
    } else {
        assert(append_out(h, roots, blocks, data) == seq![hl]);
    }
}

} // verus!
