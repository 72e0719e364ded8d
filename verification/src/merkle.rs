//! The commitment tree: a binary Merkle tree of fixed depth whose unused leaves are zero.

use crate::bytes::be_value;
use crate::field::{modulus, FieldElement};
use crate::poseidon::{
    lemma_poseidon_below_modulus, poseidon, poseidon_constants, poseidon_pair, PoseidonConstants,
};
use vstd::arithmetic::div_mod::{
    lemma_div_denominator, lemma_fundamental_div_mod, lemma_fundamental_div_mod_converse,
};
use vstd::arithmetic::power2::{
    lemma2_to64, lemma_pow2_adds, lemma_pow2_pos, lemma_pow2_unfold, pow2,
};
use vstd::bits::lemma_u64_shr_is_div;
use vstd::prelude::*;

verus! {

/// The number of levels above the leaves.
pub const TREE_DEPTH: usize = 32;

/// The number of leaves that the tree can hold.
pub const TREE_CAPACITY: u64 = 0x1_0000_0000;

/// One immutable, complete Merkle node. `level` 0 is a leaf; level 32 is the root of a full tree.
/// Partial right-edge nodes have no key: they are reconstructed from complete nodes and the roots
/// of empty subtrees.
#[derive(Clone, Copy, Debug, PartialEq, Eq, Hash, PartialOrd, Ord, Structural)]
pub struct MerkleNodeKey {
    pub level: u8,
    pub index: u64,
}

#[derive(Clone, Copy, Debug, PartialEq, Eq)]
pub struct MerkleNode {
    pub key: MerkleNodeKey,
    /// Most significant byte first, as the chain writes it.
    pub hash_be: [u8; 32],
}

/// The node above two nodes of `level`.
pub open spec fn compressed(level: nat, left: nat, right: nat) -> nat {
    poseidon(level, left, right)
}

/// The root of a subtree of height `level` that holds no leaf.
pub open spec fn empty_root(level: nat) -> nat
    decreases level,
{
    if level == 0 {
        0
    } else {
        let below = (level - 1) as nat;
        compressed(below, empty_root(below), empty_root(below))
    }
}

/// The leaf at a position, zero where none has been appended.
pub open spec fn leaf_at(leaves: Seq<nat>, position: int) -> nat {
    if 0 <= position < leaves.len() {
        leaves[position]
    } else {
        0
    }
}

/// The node of the tree of `leaves` at `level`, the `index`-th from the left.
pub open spec fn subtree(leaves: Seq<nat>, level: nat, index: nat) -> nat
    decreases level,
{
    if level == 0 {
        leaf_at(leaves, index as int)
    } else {
        let below = (level - 1) as nat;
        compressed(below, subtree(leaves, below, 2 * index), subtree(leaves, below, 2 * index + 1))
    }
}

/// The root of the tree of `leaves`.
pub open spec fn tree_root(leaves: Seq<nat>) -> nat {
    subtree(leaves, TREE_DEPTH as nat, 0)
}

/// Whether the node at `level` and `index` covers leaves of the first `count` only.
pub open spec fn is_complete(level: nat, index: nat, count: nat) -> bool {
    (index + 1) * pow2(level) <= count
}

/// Whether the node at `level` and `index` covers none of the first `count` leaves.
pub open spec fn is_vacant(level: nat, index: nat, count: nat) -> bool {
    index * pow2(level) >= count
}

/// The range of leaves that a node covers is that of its two children.
pub proof fn lemma_children(level: nat, index: nat)
    requires
        level > 0,
    ensures
        (2 * index) * pow2((level - 1) as nat) == index * pow2(level),
        (2 * index + 1) * pow2((level - 1) as nat) == index * pow2(level) + pow2(
            (level - 1) as nat,
        ),
        (2 * index + 2) * pow2((level - 1) as nat) == (index + 1) * pow2(level),
        (index + 1) * pow2(level) == index * pow2(level) + pow2(level),
        pow2(level) == 2 * pow2((level - 1) as nat),
        pow2((level - 1) as nat) > 0,
{
    lemma_pow2_unfold(level);
    lemma_pow2_pos((level - 1) as nat);
    let half = pow2((level - 1) as nat);
    assert((2 * index) * half == index * (2 * half)) by (nonlinear_arith);
    assert((2 * index + 1) * half == index * (2 * half) + half) by (nonlinear_arith);
    assert((2 * index + 2) * half == (index + 1) * (2 * half)) by (nonlinear_arith);
    assert((index + 1) * (2 * half) == index * (2 * half) + 2 * half) by (nonlinear_arith);
}

/// A node that covers no leaf is the root of an empty subtree.
pub proof fn lemma_vacant_subtree(leaves: Seq<nat>, level: nat, index: nat)
    requires
        is_vacant(level, index, leaves.len()),
    ensures
        subtree(leaves, level, index) == empty_root(level),
    decreases level,
{
    if level == 0 {
        lemma2_to64();
    } else {
        let below = (level - 1) as nat;
        lemma_children(level, index);
        lemma_vacant_subtree(leaves, below, 2 * index);
        lemma_vacant_subtree(leaves, below, 2 * index + 1);
    }
}

/// A node depends on the leaves that it covers only.
pub proof fn lemma_subtree_of_covered_leaves(a: Seq<nat>, b: Seq<nat>, level: nat, index: nat)
    requires
        forall|i: int|
            index * pow2(level) <= i < (index + 1) * pow2(level) ==> #[trigger] leaf_at(a, i)
                == leaf_at(b, i),
    ensures
        subtree(a, level, index) == subtree(b, level, index),
    decreases level,
{
    if level == 0 {
        lemma2_to64();
        assert(leaf_at(a, index as int) == leaf_at(b, index as int));
    } else {
        let below = (level - 1) as nat;
        lemma_children(level, index);
        lemma_subtree_of_covered_leaves(a, b, below, 2 * index);
        lemma_subtree_of_covered_leaves(a, b, below, 2 * index + 1);
    }
}

/// Every node of a tree of field elements is a field element.
pub proof fn lemma_subtree_below_modulus(leaves: Seq<nat>, level: nat, index: nat)
    requires
        forall|i: int| 0 <= i < leaves.len() ==> #[trigger] leaves[i] < modulus(),
    ensures
        subtree(leaves, level, index) < modulus(),
{
    if level > 0 {
        let below = (level - 1) as nat;
        lemma_poseidon_below_modulus(
            below,
            subtree(leaves, below, 2 * index),
            subtree(leaves, below, 2 * index + 1),
        );
    }
}

/// A complete node never changes: appending more leaves leaves it as it is.
pub proof fn law_complete_node_is_immutable(
    leaves: Seq<nat>,
    more: Seq<nat>,
    level: nat,
    index: nat,
)
    requires
        is_complete(level, index, leaves.len()),
    ensures
        subtree(leaves + more, level, index) == subtree(leaves, level, index),
{
    assert forall|i: int| index * pow2(level) <= i < (index + 1) * pow2(level) implies leaf_at(
        leaves + more,
        i,
    ) == leaf_at(leaves, i) by {
        assert(index * pow2(level) >= 0) by (nonlinear_arith);
    }
    lemma_subtree_of_covered_leaves(leaves + more, leaves, level, index);
}

/// Whether the bit of `value` at `level` is set.
pub open spec fn bit(value: nat, level: nat) -> bool {
    (value / pow2(level)) % 2 == 1
}

/// The ancestor at `level` of the leaf at `position`, seen from one level further up: it is the
/// left or the right child of the next ancestor, as the bit of `position` says.
pub proof fn lemma_ancestor(position: nat, level: nat)
    ensures
        position / pow2(level + 1) == (position / pow2(level)) / 2,
        bit(position, level) ==> position / pow2(level) == 2 * (position / pow2(level + 1)) + 1,
        !bit(position, level) ==> position / pow2(level) == 2 * (position / pow2(level + 1)),
        (position / pow2(level)) * pow2(level) <= position < (position / pow2(level) + 1) * pow2(
            level,
        ),
{
    lemma_pow2_pos(level);
    lemma_pow2_unfold(level + 1);
    lemma_div_denominator(position as int, pow2(level) as int, 2);
    assert(pow2(level + 1) == pow2(level) * 2);
    let quotient = position / pow2(level);
    lemma_fundamental_div_mod(position as int, pow2(level) as int);
    let power = pow2(level);
    let rest = position % power;
    assert(quotient * power <= position < (quotient + 1) * power) by (nonlinear_arith)
        requires
            position == power * quotient + rest,
            rest < power,
    ;
}

/// The ancestor at `level` of a leaf appended at position `index` to a tree whose left siblings
/// along the way are `filled`: a zero bit of `index` puts the node left of an empty subtree, a one
/// bit puts it right of the left sibling.
pub open spec fn path_node(filled: Seq<nat>, index: nat, leaf: nat, level: nat) -> nat
    decreases level,
{
    if level == 0 {
        leaf
    } else {
        let below = (level - 1) as nat;
        let node = path_node(filled, index, leaf, below);
        if bit(index, below) {
            compressed(below, filled[below as int], node)
        } else {
            compressed(below, node, empty_root(below))
        }
    }
}

/// What the frontier slot of `level` holds once `leaves` have been appended: the left child on the
/// path of the last leaf, and zero before the first leaf.
pub open spec fn filled_slot(leaves: Seq<nat>, level: nat) -> nat {
    if leaves.len() == 0 {
        0
    } else {
        subtree(leaves, level, 2 * (((leaves.len() - 1) as nat) / pow2(level + 1)))
    }
}

/// The frontier of the tree of `leaves`.
pub open spec fn frontier_of(leaves: Seq<nat>) -> Seq<nat> {
    Seq::new(TREE_DEPTH as nat, |level: int| filled_slot(leaves, level as nat))
}

/// Where the bit of the leaf count is set, the frontier holds the complete left sibling of the
/// next leaf's ancestor.
pub proof fn lemma_filled_slot_of_set_bit(leaves: Seq<nat>, level: nat)
    requires
        bit(leaves.len(), level),
    ensures
        filled_slot(leaves, level) == subtree(
            leaves,
            level,
            2 * (leaves.len() / pow2(level + 1)),
        ),
        is_complete(level, 2 * (leaves.len() / pow2(level + 1)), leaves.len()),
{
    let count = leaves.len();
    let parent = count / pow2(level + 1);
    lemma_ancestor(count, level);
    lemma_pow2_pos(level);
    lemma_pow2_unfold(level + 1);
    let power = pow2(level);
    assert((2 * parent + 1) * power <= count);
    if count == 0 {
        assert((2 * parent + 1) * power > 0) by (nonlinear_arith)
            requires
                power > 0,
        ;
    }
    lemma_fundamental_div_mod(count as int, (2 * power) as int);
    let rest = count % (2 * power);
    assert(rest >= power) by (nonlinear_arith)
        requires
            (2 * parent + 1) * power <= count,
            count == (2 * power) * parent + rest,
    ;
    lemma_fundamental_div_mod_converse(
        count - 1,
        (2 * power) as int,
        parent as int,
        (rest - 1) as int,
    );
}

/// The ancestors of an appended leaf, computed from the frontier, are those of the longer tree.
pub proof fn lemma_path_node_is_subtree(leaves: Seq<nat>, leaf: nat, level: nat)
    requires
        level <= TREE_DEPTH,
    ensures
        path_node(frontier_of(leaves), leaves.len(), leaf, level) == subtree(
            leaves.push(leaf),
            level,
            leaves.len() / pow2(level),
        ),
    decreases level,
{
    let count = leaves.len();
    let longer = leaves.push(leaf);
    if level == 0 {
        lemma2_to64();
        assert(count / 1 == count);
    } else {
        let below = (level - 1) as nat;
        lemma_path_node_is_subtree(leaves, leaf, below);
        lemma_ancestor(count, below);
        lemma_children(level, count / pow2(level));
        let parent = count / pow2(level);
        if bit(count, below) {
            lemma_filled_slot_of_set_bit(leaves, below);
            law_complete_node_is_immutable(leaves, seq![leaf], below, 2 * parent);
            assert(leaves + seq![leaf] =~= longer);
        } else {
            assert(2 * parent + 1 == count / pow2(below) + 1);
            lemma_vacant_subtree(longer, below, 2 * parent + 1);
        }
    }
}

/// The ancestors of an appended leaf depend on the slots at the one bits of its position only.
pub proof fn lemma_path_node_of_set_bits(
    a: Seq<nat>,
    b: Seq<nat>,
    index: nat,
    leaf: nat,
    level: nat,
)
    requires
        forall|l: int|
            0 <= l < level && bit(index, l as nat) ==> #[trigger] a[l] == #[trigger] b[l],
    ensures
        path_node(a, index, leaf, level) == path_node(b, index, leaf, level),
    decreases level,
{
    if level > 0 {
        let below = (level - 1) as nat;
        lemma_path_node_of_set_bits(a, b, index, leaf, below);
        if bit(index, below) {
            assert(a[below as int] == b[below as int]);
        }
    }
}

/// Every ancestor of a field element is a field element.
pub proof fn lemma_path_node_below_modulus(filled: Seq<nat>, index: nat, leaf: nat, level: nat)
    requires
        leaf < modulus(),
    ensures
        path_node(filled, index, leaf, level) < modulus(),
{
    if level > 0 {
        let below = (level - 1) as nat;
        let node = path_node(filled, index, leaf, below);
        lemma_poseidon_below_modulus(below, filled[below as int], node);
        lemma_poseidon_below_modulus(below, node, empty_root(below));
    }
}

/// The slots after an append: the path node where the bit of the position is zero, what was there
/// where it is one.
pub open spec fn filled_after(filled: Seq<nat>, index: nat, leaf: nat) -> Seq<nat> {
    Seq::new(
        TREE_DEPTH as nat,
        |level: int|
            if bit(index, level as nat) {
                filled[level]
            } else {
                path_node(filled, index, leaf, level as nat)
            },
    )
}

/// Appending to the frontier of a tree gives the frontier of the tree with the leaf appended.
pub proof fn lemma_frontier_of_push(leaves: Seq<nat>, leaf: nat)
    ensures
        filled_after(frontier_of(leaves), leaves.len(), leaf) == frontier_of(leaves.push(leaf)),
{
    let longer = leaves.push(leaf);
    let after = filled_after(frontier_of(leaves), leaves.len(), leaf);
    assert forall|level: int| 0 <= level < TREE_DEPTH implies after[level] == frontier_of(
        longer,
    )[level] by {
        let level = level as nat;
        let parent = leaves.len() / pow2(level + 1);
        lemma_ancestor(leaves.len(), level);
        if bit(leaves.len(), level) {
            lemma_filled_slot_of_set_bit(leaves, level);
            law_complete_node_is_immutable(leaves, seq![leaf], level, 2 * parent);
            assert(leaves + seq![leaf] =~= longer);
        } else {
            lemma_path_node_is_subtree(leaves, leaf, level);
        }
    }
    assert(after =~= frontier_of(longer));
}

/// The root of a tree whose frontier is `filled` and which holds `count` leaves.
pub open spec fn root_of_frontier(filled: Seq<nat>, count: nat) -> nat {
    path_node(filled, count, 0, TREE_DEPTH as nat)
}

/// The frontier of a tree that is not full determines its root.
pub proof fn law_frontier_determines_root(leaves: Seq<nat>)
    requires
        leaves.len() < TREE_CAPACITY,
    ensures
        root_of_frontier(frontier_of(leaves), leaves.len()) == tree_root(leaves),
{
    let level = TREE_DEPTH as nat;
    lemma_path_node_is_subtree(leaves, 0, level);
    lemma2_to64();
    assert(leaves.len() / pow2(level) == 0) by (nonlinear_arith)
        requires
            leaves.len() < pow2(level),
    ;
    assert forall|i: int| 0 * pow2(level) <= i < 1 * pow2(level) implies #[trigger] leaf_at(
        leaves.push(0),
        i,
    ) == leaf_at(leaves, i) by {}
    lemma_subtree_of_covered_leaves(leaves.push(0), leaves, level, 0);
}

/// Below the lowest zero bit of `index` the path of the next position leads through empty
/// subtrees; above it, through the ancestors of the leaf appended at `index`.
proof fn lemma_next_path(filled: Seq<nat>, index: nat, leaf: nat, level: nat)
    requires
        level <= TREE_DEPTH,
    ensures
        ({
            let node = path_node(filled_after(filled, index, leaf), index + 1, 0, level);
            let here = index / pow2(level);
            let next = (index + 1) / pow2(level);
            ||| next == here + 1 && node == empty_root(level)
            ||| next == here && node == path_node(filled, index, leaf, level)
        }),
    decreases level,
{
    if level == 0 {
        lemma2_to64();
    } else {
        let below = (level - 1) as nat;
        lemma_next_path(filled, index, leaf, below);
        lemma_ancestor(index, below);
        lemma_ancestor(index + 1, below);
    }
}

/// The slots and the count after an append determine the root that the append computes.
pub proof fn lemma_root_after(filled: Seq<nat>, index: nat, leaf: nat)
    requires
        index + 1 < TREE_CAPACITY,
    ensures
        root_of_frontier(filled_after(filled, index, leaf), index + 1) == path_node(
            filled,
            index,
            leaf,
            TREE_DEPTH as nat,
        ),
{
    let power = pow2(TREE_DEPTH as nat);
    lemma2_to64();
    lemma_next_path(filled, index, leaf, TREE_DEPTH as nat);
    assert((index + 1) / power == 0) by (nonlinear_arith)
        requires
            index + 1 < power,
    ;
}

/// The number of levels, leaves and root counted.
pub const LEVELS: usize = 33;

/// The node above two nodes of `level`. It generates the constants of the hash anew: to build a
/// tree, keep a [`TreeHasher`].
pub fn merkle_compress(level: u8, left: FieldElement, right: FieldElement) -> (r: FieldElement)
    ensures
        r@ == compressed(level as nat, left@, right@),
        r@ == poseidon(level as nat, left@, right@),
{
    poseidon_pair(level as u64, left, right)
}

/// What every hash of the tree needs: the constants of the hash, and the roots of the empty
/// subtrees of every height, which are its view.
#[derive(Debug)]
pub struct TreeHasher {
    constants: PoseidonConstants,
    empty_roots: [FieldElement; LEVELS],
}

impl View for TreeHasher {
    type V = Seq<nat>;

    closed spec fn view(&self) -> Seq<nat> {
        self.empty_roots@.map_values(|root: FieldElement| root@)
    }
}

impl TreeHasher {
    /// There is the root of an empty subtree of each height.
    #[verifier::type_invariant]
    spec fn holds_empty_roots(self) -> bool {
        forall|level: int|
            0 <= level < LEVELS ==> (#[trigger] self.empty_roots@[level])@ == empty_root(
                level as nat,
            )
    }

    pub fn new() -> (r: TreeHasher)
        ensures
            r@ == Seq::new(LEVELS as nat, |level: int| empty_root(level as nat)),
    {
        let constants = poseidon_constants();
        let zero = FieldElement::from_u64(0);
        let mut empty_roots: [FieldElement; LEVELS] = [zero; LEVELS];
        empty_roots[0] = zero;
        let mut level: usize = 0;
        while level < TREE_DEPTH
            invariant
                level <= TREE_DEPTH,
                forall|l: int|
                    0 <= l <= level ==> (#[trigger] empty_roots@[l])@ == empty_root(l as nat),
            decreases TREE_DEPTH - level,
        {
            let below = empty_roots[level];
            empty_roots[level + 1] = constants.pair(level as u64, below, below);
            level = level + 1;
        }
        let r = TreeHasher { constants, empty_roots };
        assert(r@ =~= Seq::new(LEVELS as nat, |level: int| empty_root(level as nat)));
        r
    }

    /// The node above two nodes of `level`.
    pub fn compress(&self, level: usize, left: FieldElement, right: FieldElement) -> (r:
        FieldElement)
        ensures
            r@ == compressed(level as nat, left@, right@),
            r@ == poseidon(level as nat, left@, right@),
    {
        self.constants.pair(level as u64, left, right)
    }

    /// The hash of two field elements under a domain.
    pub fn pair(&self, domain: u64, left: FieldElement, right: FieldElement) -> (r: FieldElement)
        ensures
            r@ == poseidon(domain as nat, left@, right@),
    {
        self.constants.pair(domain, left, right)
    }

    /// The root of an empty subtree of height `level`.
    pub fn empty_root(&self, level: usize) -> (r: FieldElement)
        requires
            level < LEVELS,
        ensures
            r@ == empty_root(level as nat),
    {
        proof {
            use_type_invariant(self);
        }
        self.empty_roots[level]
    }
}

/// The ancestor at `level` of the leaf at `index`.
pub(crate) fn ancestor(index: u64, level: usize) -> (r: u64)
    requires
        level < 64,
    ensures
        r == index as nat / pow2(level as nat),
{
    proof {
        lemma_u64_shr_is_div(index, level as u64);
    }
    index >> level
}

/// Whether the bit of `index` at `level` is set.
pub(crate) fn has_bit(index: u64, level: usize) -> (r: bool)
    requires
        level < 64,
    ensures
        r == bit(index as nat, level as nat),
{
    let shifted = ancestor(index, level);
    assert(shifted & 1 == shifted % 2) by (bit_vector);
    (shifted & 1) == 1
}

/// The number of consecutive levels, from `level` up to the root, at which the bit of `index` is
/// set.
pub open spec fn ones_from(index: nat, level: nat) -> nat
    decreases TREE_DEPTH - level,
{
    if level < TREE_DEPTH && bit(index, level) {
        1 + ones_from(index, level + 1)
    } else {
        0
    }
}

/// The number of trailing one bits of `index`, at most one per level of the tree.
pub open spec fn trailing_ones(index: nat) -> nat {
    ones_from(index, 0)
}

/// Whether `nodes` are the nodes that appending `leaf` at `index` completes, from the leaf up: the
/// leaf itself, and one ancestor for each trailing one bit of `index`.
pub open spec fn are_new_nodes(
    nodes: Seq<MerkleNode>,
    filled: Seq<nat>,
    index: nat,
    leaf: nat,
) -> bool {
    &&& nodes.len() == 1 + trailing_ones(index)
    &&& forall|k: int|
        0 <= k < nodes.len() ==> {
            &&& (#[trigger] nodes[k]).key.level == k
            &&& nodes[k].key.index == index / pow2(k as nat)
            &&& be_value(nodes[k].hash_be@) == path_node(filled, index, leaf, k as nat)
        }
}

/// An append hands out exactly the nodes that it completes: those that are complete with the leaf
/// appended at `index` and were not before. Over all appends, every complete node is handed out
/// once.
pub proof fn law_append_hands_out_completed_nodes(index: nat, level: nat, node: nat)
    requires
        index < TREE_CAPACITY,
        level <= TREE_DEPTH,
    ensures
        is_complete(level, node, index + 1) && !is_complete(level, node, index) <==> level
            <= trailing_ones(index) && node == index / pow2(level),
{
    lemma2_to64();
    assert(index / 1 == index);
    lemma_trailing_ones(index, level, 0);
    lemma_ancestor(index, level);
    lemma_pow2_pos(level);
    let power = pow2(level);
    let here = index / power;
    if level <= trailing_ones(index) && node == here {
        assert((here + 1) * power == index + 1);
    }
    if (node + 1) * power == index + 1 {
        assert(node == here) by (nonlinear_arith)
            requires
                (node + 1) * power == index + 1,
                here * power <= index,
                index < (here + 1) * power,
                power > 0,
        ;
    }
}

/// Adding one to `index` carries through its trailing one bits, and no further.
pub proof fn lemma_carry(index: nat, level: nat)
    requires
        level <= TREE_DEPTH,
    ensures
        level <= trailing_ones(index) ==> (index + 1) / pow2(level) == index / pow2(level) + 1,
        level > trailing_ones(index) ==> (index + 1) / pow2(level) == index / pow2(level),
{
    lemma2_to64();
    assert(index / 1 == index);
    lemma_trailing_ones(index, level, 0);
    lemma_ancestor(index, level);
    lemma_pow2_pos(level);
    let power = pow2(level);
    let here = index / power;
    if level <= trailing_ones(index) {
        lemma_fundamental_div_mod_converse((index + 1) as int, power as int, (here + 1) as int, 0);
    } else {
        assert(here * power + (index + 1 - here * power) == index + 1);
        assert(index + 1 - here * power < power) by (nonlinear_arith)
            requires
                index + 1 != (here + 1) * power,
                index < (here + 1) * power,
        ;
        lemma_fundamental_div_mod_converse(
            (index + 1) as int,
            power as int,
            here as int,
            index + 1 - here * power,
        );
    }
}

/// The trailing one bits of `index` end at a zero bit, unless they reach the root.
pub proof fn lemma_ones_end(index: nat, level: nat, from: nat)
    requires
        from <= level <= TREE_DEPTH,
    ensures
        level < from + ones_from(index, from) ==> bit(index, level),
        level == from + ones_from(index, from) && level < TREE_DEPTH ==> !bit(index, level),
        from + ones_from(index, from) <= TREE_DEPTH,
    decreases TREE_DEPTH - from,
{
    if from < TREE_DEPTH && bit(index, from) {
        if from < level {
            lemma_ones_end(index, level, from + 1);
        } else {
            lemma_ones_end(index, TREE_DEPTH as nat, from + 1);
        }
    }
}

/// A position that is not the last one of a full tree has a zero bit.
pub proof fn lemma_zero_bit(index: nat)
    requires
        index + 1 < TREE_CAPACITY,
    ensures
        trailing_ones(index) < TREE_DEPTH,
{
    lemma_ones_end(index, TREE_DEPTH as nat, 0);
    lemma_carry(index, TREE_DEPTH as nat);
    lemma2_to64();
    let power = pow2(TREE_DEPTH as nat);
    assert((index + 1) / power == 0) by (nonlinear_arith)
        requires
            index + 1 < power,
    ;
}

/// The last position of a full tree has no zero bit.
pub proof fn lemma_last_position(index: nat)
    requires
        index + 1 == TREE_CAPACITY,
    ensures
        trailing_ones(index) == TREE_DEPTH,
{
    lemma_ones_end(index, TREE_DEPTH as nat, 0);
    lemma2_to64();
    assert(index / 1 == index);
    lemma_trailing_ones(index, TREE_DEPTH as nat, 0);
    let power = pow2(TREE_DEPTH as nat);
    assert(index / power == 0) by (nonlinear_arith)
        requires
            index < power,
    ;
}

/// The trailing one bits of `index` reach up to `level` exactly where the ancestor at `level`
/// ends with the leaf at `index`.
proof fn lemma_trailing_ones(index: nat, level: nat, from: nat)
    requires
        from <= level <= TREE_DEPTH,
        (index / pow2(from) + 1) * pow2(from) == index + 1,
    ensures
        level <= from + ones_from(index, from) <==> (index / pow2(level) + 1) * pow2(level) == index
            + 1,
    decreases level - from,
{
    if from < level {
        lemma_ancestor(index, from);
        lemma_pow2_unfold(from + 1);
        let here = index / pow2(from);
        let power = pow2(from);
        lemma_pow2_pos(from);
        if bit(index, from) {
            let parent = index / pow2(from + 1);
            assert((parent + 1) * (2 * power) == (here + 1) * power) by (nonlinear_arith)
                requires
                    here == 2 * parent + 1,
            ;
            lemma_trailing_ones(index, level, from + 1);
        } else {
            let gap = (level - from) as nat;
            lemma_pow2_adds(from, gap);
            lemma_pow2_unfold(gap);
            let blocks = pow2((gap - 1) as nat);
            let node = index / pow2(level);
            if (node + 1) * pow2(level) == index + 1 {
                assert(here + 1 == 2 * ((node + 1) * blocks)) by (nonlinear_arith)
                    requires
                        (here + 1) * power == (node + 1) * (power * (2 * blocks)),
                        power > 0,
                ;
            }
        }
    }
}

/// The node above two nodes is the Poseidon hash of their level and of both of them, on every level
/// and for all values.
pub proof fn law_node_is_hash(level: nat, left: nat, right: nat)
    ensures
        compressed(level, left, right) == poseidon(level, left, right),
{
}

/// The nodes of a tree, from its leaves up: a node of the lowest level is the leaf in its place, or
/// zero where there is none, a node above it is the Poseidon hash of its level and its two
/// children, and the root is the node of level 32.
pub proof fn law_tree_nodes(leaves: Seq<nat>, level: nat, index: nat)
    ensures
        index < leaves.len() ==> subtree(leaves, 0, index) == leaves[index as int],
        index >= leaves.len() ==> subtree(leaves, 0, index) == 0,
        subtree(leaves, level + 1, index) == poseidon(
            level,
            subtree(leaves, level, 2 * index),
            subtree(leaves, level, 2 * index + 1),
        ),
        tree_root(leaves) == subtree(leaves, 32, 0),
{
}

/// The root of an empty subtree is the hash of two empty subtrees, down to a zero leaf.
pub proof fn law_empty_roots(level: nat)
    ensures
        empty_root(0) == 0,
        empty_root(level + 1) == poseidon(level, empty_root(level), empty_root(level)),
{
}

/// The bits of a number are its remainders on halving it.
pub proof fn law_bits(value: nat, level: nat)
    ensures
        bit(value, 0) <==> value % 2 == 1,
        bit(value, level + 1) <==> bit(value / 2, level),
{
    lemma2_to64();
    assert(value / 1 == value);
    lemma_pow2_unfold(level + 1);
    lemma_pow2_pos(level);
    lemma_div_denominator(value as int, 2, pow2(level) as int);
    assert(pow2(level + 1) == 2 * pow2(level));
}

/// A node is complete exactly if every leaf position under it is among the first `count`, and
/// vacant exactly if none is.
pub proof fn law_complete_and_vacant(level: nat, index: nat, count: nat)
    ensures
        is_complete(level, index, count) <==> forall|position: nat|
            #[trigger] (position / pow2(level)) == index ==> position < count,
        is_vacant(level, index, count) <==> forall|position: nat|
            #[trigger] (position / pow2(level)) == index ==> position >= count,
{
    let power = pow2(level);
    lemma_pow2_pos(level);
    assert((index + 1) * power == index * power + power) by (nonlinear_arith);
    let first = index * power;
    let last = (index * power + (power - 1)) as nat;
    lemma_fundamental_div_mod_converse(first as int, power as int, index as int, 0);
    lemma_fundamental_div_mod_converse(last as int, power as int, index as int, power - 1);
    assert(first / power == index && last / power == index);
    assert forall|position: nat| #[trigger] (position / power) == index implies first <= position
        <= last by {
        lemma_fundamental_div_mod(position as int, power as int);
        assert(power * index == index * power) by (nonlinear_arith);
    }
}

/// The path of a leaf goes up from the leaf itself: where the bit of its position is set, the slot
/// of the level is on its left, and where it is not, an empty subtree is on its right. The root of
/// a frontier is the end of the path of the next leaf, which is zero as yet.
pub proof fn law_path(filled: Seq<nat>, index: nat, leaf: nat, level: nat)
    ensures
        path_node(filled, index, leaf, 0) == leaf,
        bit(index, level) ==> path_node(filled, index, leaf, level + 1) == poseidon(
            level,
            filled[level as int],
            path_node(filled, index, leaf, level),
        ),
        !bit(index, level) ==> path_node(filled, index, leaf, level + 1) == poseidon(
            level,
            path_node(filled, index, leaf, level),
            empty_root(level),
        ),
        root_of_frontier(filled, index) == path_node(filled, index, 0, 32),
{
}

/// A slot of the frontier of a tree holds the left child, on its level, of the lowest node that is
/// above it and above the last leaf; before there is a leaf, it holds zero.
pub proof fn law_frontier_slot(leaves: Seq<nat>, level: nat, index: nat)
    requires
        level < 32,
        leaves.len() > 0,
        index % 2 == 0,
        index / 2 == ((leaves.len() - 1) as nat / pow2(level)) / 2,
    ensures
        frontier_of(leaves).len() == 32,
        frontier_of(leaves)[level as int] == subtree(leaves, level, index),
        frontier_of(seq![])[level as int] == 0,
{
    lemma_ancestor((leaves.len() - 1) as nat, level);
}

/// An append puts the node of its path into the slots of the levels at which the bit of the
/// position is not set, and leaves the others alone.
pub proof fn law_slots_after(filled: Seq<nat>, index: nat, leaf: nat, level: nat)
    requires
        level < 32,
    ensures
        filled_after(filled, index, leaf).len() == 32,
        bit(index, level) ==> filled_after(filled, index, leaf)[level as int]
            == filled[level as int],
        !bit(index, level) ==> filled_after(filled, index, leaf)[level as int] == path_node(
            filled,
            index,
            leaf,
            level,
        ),
{
}

/// What an append hands out are nodes of the tree with the leaf appended, one per level from the
/// leaf up, and every node that the leaf completes is among them.
pub proof fn law_handed_out_nodes(
    nodes: Seq<MerkleNode>,
    leaves: Seq<nat>,
    leaf: nat,
    level: nat,
    index: nat,
)
    requires
        leaves.len() < TREE_CAPACITY,
        are_new_nodes(nodes, frontier_of(leaves), leaves.len(), leaf),
        level <= 32,
    ensures
        nodes.len() >= 1,
        level < nodes.len() ==> nodes[level as int].key.level == level
            && nodes[level as int].key.index == leaves.len() / pow2(level) && be_value(
            nodes[level as int].hash_be@,
        ) == subtree(leaves.push(leaf), level, leaves.len() / pow2(level)),
        is_complete(level, index, leaves.len() + 1) && !is_complete(level, index, leaves.len())
            <==> level < nodes.len() && nodes[level as int].key.index == index,
{
    law_append_hands_out_completed_nodes(leaves.len(), level, index);
    if level < nodes.len() {
        lemma_path_node_is_subtree(leaves, leaf, level);
    }
}

/// What an append to any frontier hands out are the nodes of the path of the leaf, from the leaf up
/// to the lowest level at which the bit of the position is not set.
pub proof fn law_handed_out_path(
    nodes: Seq<MerkleNode>,
    filled: Seq<nat>,
    index: nat,
    leaf: nat,
    level: nat,
)
    requires
        are_new_nodes(nodes, filled, index, leaf),
        level <= 32,
    ensures
        nodes.len() >= 1,
        level < nodes.len() ==> nodes[level as int].key.level == level
            && nodes[level as int].key.index == index / pow2(level) && be_value(
            nodes[level as int].hash_be@,
        ) == path_node(filled, index, leaf, level),
        level + 1 < nodes.len() ==> bit(index, level),
        level + 1 == nodes.len() && level < 32 ==> !bit(index, level),
        nodes.len() <= 33,
{
    lemma_ones_end(index, level, 0);
}

} // verus!
