//! Streaming construction of a frontier from all leaves of a tree.
//!
//! Each leaf but the last costs one hash on average. The last one goes through the frontier's own
//! insertion, so that every slot comes out as it would have by appending leaf after leaf.

use crate::bytes::be_value;
use crate::error::TreeError;
use crate::field::{fr_from_be, fr_to_be, modulus, FieldElement};
use crate::frontier::{appended, be_values, tree_frontier, values, CompactFrontier, FrontierView};
use crate::merkle::{
    ancestor, are_new_nodes, bit, filled_after, filled_slot, frontier_of, has_bit, is_complete,
    law_complete_node_is_immutable, lemma_ancestor, lemma_carry, lemma_filled_slot_of_set_bit,
    lemma_last_position, lemma_ones_end, lemma_path_node_is_subtree, lemma_path_node_of_set_bits,
    lemma_zero_bit, ones_from, path_node, root_of_frontier, subtree, trailing_ones, MerkleNode,
    MerkleNodeKey, TreeHasher, TREE_CAPACITY, TREE_DEPTH,
};
use std::sync::Arc;
use vstd::arithmetic::power2::{lemma2_to64, pow2};
use vstd::prelude::*;

verus! {

/// What a builder stands for: the complete node that waits at each level for its right sibling, and
/// the number of leaves pushed.
#[verifier::ext_equal]
pub struct BuilderView {
    pub stack: Seq<Option<nat>>,
    pub count: nat,
}

/// The builder into which `leaves` have been pushed: the complete nodes are those at the one bits
/// of the count.
pub open spec fn tree_builder(leaves: Seq<nat>) -> BuilderView {
    BuilderView {
        stack: Seq::new(
            TREE_DEPTH as nat,
            |level: int|
                if bit(leaves.len(), level as nat) {
                    Some(filled_slot(leaves, level as nat))
                } else {
                    None
                },
        ),
        count: leaves.len(),
    }
}

/// The waiting nodes as frontier slots, zero where none waits.
pub open spec fn waiting(stack: Seq<Option<nat>>) -> Seq<nat> {
    stack.map_values(
        |entry: Option<nat>|
            match entry {
                Some(node) => node,
                None => 0,
            },
    )
}

/// A builder with one more leaf: the leaf takes up the waiting nodes at the trailing one bits of
/// the count, and the node that comes of it waits at the lowest zero bit.
pub open spec fn pushed(builder: BuilderView, leaf: nat) -> BuilderView {
    let top = trailing_ones(builder.count);
    BuilderView {
        stack: Seq::new(
            TREE_DEPTH as nat,
            |level: int|
                if level < top {
                    None
                } else if level == top {
                    Some(path_node(waiting(builder.stack), builder.count, leaf, top))
                } else {
                    builder.stack[level]
                },
        ),
        count: builder.count + 1,
    }
}

/// The frontier that the waiting nodes and the count make up.
pub open spec fn builder_frontier(builder: BuilderView) -> FrontierView {
    FrontierView {
        filled: waiting(builder.stack),
        next_index: builder.count,
        root: root_of_frontier(waiting(builder.stack), builder.count),
    }
}

/// Whether no node waits at any level.
pub open spec fn is_drained(stack: Seq<Option<nat>>) -> bool {
    forall|level: int| 0 <= level < stack.len() ==> (#[trigger] stack[level]) is None
}

/// Whether a node waits at a level exactly where the bit of the count is set.
pub open spec fn is_complete_stack(builder: BuilderView) -> bool {
    forall|level: int|
        0 <= level < TREE_DEPTH ==> ((#[trigger] builder.stack[level]) is Some <==> bit(
            builder.count,
            level as nat,
        ))
}

/// The builder after a push that would have filled the tree: the push takes up every waiting node
/// and fails.
pub open spec fn drained(builder: BuilderView) -> BuilderView {
    BuilderView { stack: Seq::new(TREE_DEPTH as nat, |level: int| None), count: builder.count }
}

pub open spec fn entry_value(entry: Option<FieldElement>) -> Option<nat> {
    match entry {
        Some(node) => Some(node@),
        None => None,
    }
}

pub open spec fn entry_values(stack: Seq<Option<FieldElement>>) -> Seq<Option<nat>> {
    stack.map_values(|entry: Option<FieldElement>| entry_value(entry))
}

/// Builds a frontier from leaves that arrive one by one, in memory of one node per level.
#[derive(Debug)]
pub struct StreamingFrontierBuilder {
    stack: [Option<FieldElement>; TREE_DEPTH],
    count: u64,
    hasher: Arc<TreeHasher>,
}

impl View for StreamingFrontierBuilder {
    type V = BuilderView;

    closed spec fn view(&self) -> BuilderView {
        BuilderView { stack: entry_values(self.stack@), count: self.count as nat }
    }
}

/// Pushing a leaf into the builder of a tree gives the builder of the tree with the leaf appended.
pub proof fn law_push_follows_tree(leaves: Seq<nat>, leaf: nat)
    requires
        leaves.len() + 1 < TREE_CAPACITY,
    ensures
        pushed(tree_builder(leaves), leaf) == tree_builder(leaves.push(leaf)),
{
    let count = leaves.len();
    let longer = leaves.push(leaf);
    let top = trailing_ones(count);
    let slots = waiting(tree_builder(leaves).stack);
    lemma_zero_bit(count);
    lemma_ones_end(count, top, 0);
    assert forall|level: int| 0 <= level < TREE_DEPTH implies pushed(
        tree_builder(leaves),
        leaf,
    ).stack[level] == tree_builder(longer).stack[level] by {
        let level = level as nat;
        lemma_carry(count, level);
        lemma_ancestor(count, level);
        lemma_ancestor(count + 1, level);
        lemma_ones_end(count, level, 0);
        if level == top {
            lemma_path_node_of_set_bits(slots, frontier_of(leaves), count, leaf, top);
            lemma_path_node_is_subtree(leaves, leaf, top);
        } else if level > top && bit(count, level) {
            lemma_filled_slot_of_set_bit(leaves, level);
            law_complete_node_is_immutable(
                leaves,
                seq![leaf],
                level,
                2 * (count / pow2(level + 1)),
            );
            assert(leaves + seq![leaf] =~= longer);
        }
    }
    assert(pushed(tree_builder(leaves), leaf) =~= tree_builder(longer));
}

/// Finishing the builder of a tree with a last leaf gives the very frontier that appending all
/// leaves one by one gives, stale slots and all.
pub proof fn law_finish_follows_tree(leaves: Seq<nat>, leaf: nat)
    requires
        leaves.len() < TREE_CAPACITY,
    ensures
        appended(builder_frontier(tree_builder(leaves)), leaf) == tree_frontier(leaves.push(leaf)),
{
    let count = leaves.len();
    let slots = waiting(tree_builder(leaves).stack);
    let full = frontier_of(leaves);
    assert forall|level: nat| level <= TREE_DEPTH implies path_node(slots, count, leaf, level)
        == #[trigger] path_node(full, count, leaf, level) by {
        lemma_path_node_of_set_bits(slots, full, count, leaf, level);
    }
    assert(filled_after(slots, count, leaf) =~= filled_after(full, count, leaf));
    crate::frontier::law_append_follows_tree(leaves, leaf);
}

/// The builder hands out the very nodes that appending to the frontier of the same tree does.
pub proof fn law_builder_hands_out_same_nodes(
    leaves: Seq<nat>,
    leaf: nat,
    nodes: Seq<MerkleNode>,
)
    ensures
        are_new_nodes(nodes, waiting(tree_builder(leaves).stack), leaves.len(), leaf)
            <==> are_new_nodes(nodes, frontier_of(leaves), leaves.len(), leaf),
{
    let count = leaves.len();
    let slots = waiting(tree_builder(leaves).stack);
    let full = frontier_of(leaves);
    lemma_ones_end(count, TREE_DEPTH as nat, 0);
    assert forall|level: nat| level <= trailing_ones(count) implies path_node(
        slots,
        count,
        leaf,
        level,
    ) == #[trigger] path_node(full, count, leaf, level) by {
        lemma_path_node_of_set_bits(slots, full, count, leaf, level);
    }
    if are_new_nodes(nodes, slots, count, leaf) {
        assert(are_new_nodes(nodes, full, count, leaf));
    }
    if are_new_nodes(nodes, full, count, leaf) {
        assert forall|k: int| 0 <= k < nodes.len() implies be_value(
            (#[trigger] nodes[k]).hash_be@,
        ) == path_node(slots, count, leaf, k as nat) by {
            assert(path_node(full, count, leaf, k as nat) == path_node(
                slots,
                count,
                leaf,
                k as nat,
            ));
        }
        assert(are_new_nodes(nodes, slots, count, leaf));
    }
}

impl StreamingFrontierBuilder {
    /// A node waits at every one bit of the count and nowhere else, except that none is left once
    /// a push has failed for want of room.
    #[verifier::type_invariant]
    spec fn is_whole_or_drained(self) -> bool {
        &&& self.count < TREE_CAPACITY
        &&& is_complete_stack(self@) || (self.count + 1 == TREE_CAPACITY && is_drained(
            self@.stack,
        ))
    }

    /// A builder of the tree without leaves.
    pub fn new() -> (r: StreamingFrontierBuilder)
        ensures
            r@ == tree_builder(seq![]),
    {
        let mut stack: [Option<FieldElement>; TREE_DEPTH] = [None; TREE_DEPTH];
        let mut level: usize = 0;
        while level < TREE_DEPTH
            invariant
                level <= TREE_DEPTH,
                forall|l: int| 0 <= l < level ==> stack@[l] is None,
            decreases TREE_DEPTH - level,
        {
            stack[level] = None;
            level = level + 1;
        }
        proof {
            let none: Seq<nat> = seq![];
            assert forall|level: int| 0 <= level < TREE_DEPTH implies #[trigger] entry_values(
                stack@,
            )[level] == tree_builder(none).stack[level] by {
                let power = pow2(level as nat);
                vstd::arithmetic::power2::lemma_pow2_pos(level as nat);
                assert(0nat / power == 0) by (nonlinear_arith)
                    requires
                        power > 0,
                ;
                assert(!bit(none.len(), level as nat));
                assert(stack@[level] is None);
            }
            assert(entry_values(stack@) =~= tree_builder(none).stack);
        }
        StreamingFrontierBuilder { stack, count: 0, hasher: Arc::new(TreeHasher::new()) }
    }

    /// Pushes a leaf that is not the last one, and returns every node that became complete: the
    /// leaf, and one ancestor for each trailing one bit of its position.
    pub fn push_nonfinal_be(&mut self, leaf_be: [u8; 32]) -> (r: Result<
        Vec<MerkleNode>,
        TreeError,
    >)
        ensures
            be_value(leaf_be@) >= modulus() ==> r == Err::<Vec<MerkleNode>, _>(
                TreeError::NonCanonical,
            ) && final(self)@ == old(self)@,
            be_value(leaf_be@) < modulus() && !is_complete_stack(old(self)@) ==> r == Err::<
                Vec<MerkleNode>,
                _,
            >(TreeError::StackIncomplete { level: 0 }) && final(self)@ == old(self)@,
            be_value(leaf_be@) < modulus() && is_complete_stack(old(self)@) && old(self)@.count + 1
                == TREE_CAPACITY ==> {
                &&& r == Err::<Vec<MerkleNode>, _>(TreeError::TreeFull)
                &&& final(self)@ == drained(old(self)@)
            },
            be_value(leaf_be@) < modulus() && is_complete_stack(old(self)@) && old(self)@.count + 1
                < TREE_CAPACITY ==> {
                &&& r is Ok
                &&& final(self)@ == pushed(old(self)@, be_value(leaf_be@))
                &&& is_complete_stack(final(self)@)
                &&& r->Ok_0@[0].hash_be == leaf_be
                &&& are_new_nodes(
                    r->Ok_0@,
                    waiting(old(self)@.stack),
                    old(self)@.count,
                    be_value(leaf_be@),
                )
            },
    {
        proof {
            use_type_invariant(&*self);
        }
        let mut node = match fr_from_be(leaf_be) {
            Ok(leaf) => leaf,
            Err(error) => return Err(error),
        };
        let index = self.count;
        let ghost leaf = node@;
        let ghost before = self@;
        let ghost slots = waiting(self@.stack);
        let ghost start = self.stack@;
        let mut stack: [Option<FieldElement>; TREE_DEPTH] = self.stack;
        let mut archived: Vec<MerkleNode> = Vec::new();
        archived.push(MerkleNode { key: MerkleNodeKey { level: 0, index }, hash_be: leaf_be });
        proof {
            lemma2_to64();
            if index + 1 < TREE_CAPACITY {
                lemma_zero_bit(index as nat);
            } else {
                lemma_last_position(index as nat);
            }
        }
        let mut level: usize = 0;
        while level < TREE_DEPTH && has_bit(index, level)
            invariant
                level <= TREE_DEPTH,
                before == old(self)@,
                *self == *old(self),
                self@ == before,
                index == self.count,
                start == self.stack@,
                start.len() == TREE_DEPTH,
                slots == waiting(before.stack),
                before.stack == entry_values(start),
                before.count == index,
                index < TREE_CAPACITY,
                leaf == be_value(leaf_be@),
                leaf < modulus(),
                is_complete_stack(before) || (index + 1 == TREE_CAPACITY && is_drained(
                    before.stack,
                )),
                level > 0 ==> is_complete_stack(before),
                node@ == path_node(slots, index as nat, leaf, level as nat),
                level + ones_from(index as nat, level as nat) == trailing_ones(index as nat),
                forall|l: int| 0 <= l < level ==> stack@[l] is None,
                forall|l: int| level <= l < TREE_DEPTH ==> stack@[l] == start[l],
                archived@.len() == level + 1,
                archived@[0].hash_be == leaf_be,
                forall|k: int|
                    0 <= k < archived@.len() ==> {
                        &&& (#[trigger] archived@[k]).key.level == k
                        &&& archived@[k].key.index == index as nat / pow2(k as nat)
                        &&& be_value(archived@[k].hash_be@) == path_node(
                            slots,
                            index as nat,
                            leaf,
                            k as nat,
                        )
                    },
            decreases TREE_DEPTH - level,
        {
            assert(before.stack[level as int] == entry_value(start[level as int]));
            let left = match stack[level] {
                Some(left) => left,
                None => {
                    return Err(TreeError::StackIncomplete { level });
                },
            };
            assert(slots[level as int] == left@);
            stack[level] = None;
            node = self.hasher.compress(level, left, node);
            archived.push(
                MerkleNode {
                    key: MerkleNodeKey {
                        level: (level + 1) as u8,
                        index: ancestor(index, level + 1),
                    },
                    hash_be: fr_to_be(node),
                },
            );
            level = level + 1;
        }
        if level == TREE_DEPTH {
            proof {
                assert(entry_values(stack@) =~= drained(before).stack);
                if index + 1 < TREE_CAPACITY {
                    lemma_zero_bit(index as nat);
                }
            }
            *self =
            StreamingFrontierBuilder { stack, count: index, hasher: self.hasher.clone() };
            return Err(TreeError::TreeFull);
        }
        stack[level] = Some(node);
        proof {
            if index + 1 == TREE_CAPACITY {
                lemma_last_position(index as nat);
            }
            assert(entry_values(stack@) =~= pushed(before, leaf).stack);
            lemma_stack_stays_complete(before, leaf);
        }
        *self =
        StreamingFrontierBuilder { stack, count: index + 1, hasher: self.hasher.clone() };
        Ok(archived)
    }
}

impl StreamingFrontierBuilder {
    /// The frontier of the tree with a last leaf appended, and every node that became complete with
    /// that leaf.
    pub fn finish_with_last_be(&self, leaf_be: [u8; 32]) -> (r: Result<
        (CompactFrontier, Vec<MerkleNode>),
        TreeError,
    >)
        ensures
            !is_complete_stack(self@) ==> r == Err::<(CompactFrontier, Vec<MerkleNode>), _>(
                TreeError::StackIncomplete { level: 0 },
            ),
            is_complete_stack(self@) && be_value(leaf_be@) >= modulus() ==> r == Err::<
                (CompactFrontier, Vec<MerkleNode>),
                _,
            >(TreeError::NonCanonical),
            is_complete_stack(self@) && be_value(leaf_be@) < modulus() ==> {
                &&& r is Ok
                &&& r->Ok_0.0@ == appended(builder_frontier(self@), be_value(leaf_be@))
                &&& r->Ok_0.1@[0].hash_be == leaf_be
                &&& are_new_nodes(
                    r->Ok_0.1@,
                    waiting(self@.stack),
                    self@.count,
                    be_value(leaf_be@),
                )
            },
    {
        proof {
            use_type_invariant(self);
            if self.count + 1 == TREE_CAPACITY {
                lemma_last_position(self.count as nat);
                lemma_ones_end(self.count as nat, 0, 0);
            }
        }
        let zero = FieldElement::from_u64(0);
        let mut filled: [FieldElement; TREE_DEPTH] = [zero; TREE_DEPTH];
        let mut level: usize = 0;
        while level < TREE_DEPTH
            invariant
                level <= TREE_DEPTH,
                self.count < TREE_CAPACITY,
                zero@ == 0,
                is_complete_stack(self@) || (self.count + 1 == TREE_CAPACITY && is_drained(
                    self@.stack,
                ) && bit(self.count as nat, 0)),
                level > 0 ==> is_complete_stack(self@),
                forall|l: int|
                    0 <= l < level ==> (#[trigger] filled@[l])@ == waiting(self@.stack)[l],
                forall|l: int| level <= l < TREE_DEPTH ==> filled@[l] == zero,
            decreases TREE_DEPTH - level,
        {
            assert(self@.stack[level as int] == entry_value(self.stack@[level as int]));
            if has_bit(self.count, level) {
                filled[level] =
                match self.stack[level] {
                    Some(node) => node,
                    None => return Err(TreeError::StackIncomplete { level }),
                };
            }
            level = level + 1;
        }
        assert(values(filled@) =~= waiting(self@.stack));
        let mut frontier = CompactFrontier::from_slots(self.hasher.clone(), filled, self.count);
        match frontier.append_be(leaf_be) {
            Ok(nodes) => Ok((frontier, nodes)),
            Err(error) => Err(error),
        }
    }
}

impl Default for StreamingFrontierBuilder {
    fn default() -> (r: StreamingFrontierBuilder)
        ensures
            r@ == tree_builder(seq![]),
    {
        StreamingFrontierBuilder::new()
    }
}

impl Clone for StreamingFrontierBuilder {
    fn clone(&self) -> (r: StreamingFrontierBuilder)
        ensures
            r@ == self@,
    {
        proof {
            use_type_invariant(self);
        }
        StreamingFrontierBuilder {
            stack: self.stack,
            count: self.count,
            hasher: self.hasher.clone(),
        }
    }
}

/// What is wrong with the leaf at `position` among leaves that are to fill a tree from the left: it
/// is no field element, or it takes the last place of the tree and is not the last leaf.
pub open spec fn leaf_refusal(leaves: Seq<[u8; 32]>, position: int) -> Option<TreeError> {
    if be_value(leaves[position]@) >= modulus() {
        Some(TreeError::NonCanonical)
    } else if TREE_CAPACITY <= position + 1 < leaves.len() {
        Some(TreeError::TreeFull)
    } else {
        None
    }
}

/// Whether nothing is wrong with the first `count` leaves.
pub open spec fn leaves_accepted(leaves: Seq<[u8; 32]>, count: int) -> bool {
    forall|i: int| 0 <= i < count ==> #[trigger] leaf_refusal(leaves, i) is None
}

/// The frontier of the tree of `leaves`.
pub fn frontier_from_leaves(leaves: &[[u8; 32]]) -> (r: Result<CompactFrontier, TreeError>)
    ensures
        if leaves_accepted(leaves@, leaves@.len() as int) {
            r is Ok && r->Ok_0@ == tree_frontier(be_values(leaves@))
        } else {
            exists|i: int|
                0 <= i < leaves@.len() && leaves_accepted(leaves@, i) && (
                #[trigger] leaf_refusal(leaves@, i) matches Some(error) && r == Err::<
                    CompactFrontier,
                    _,
                >(error))
        },
        r is Ok <==> leaves@.len() <= TREE_CAPACITY && forall|i: int|
            0 <= i < leaves@.len() ==> be_value(#[trigger] leaves@[i]@) < modulus(),
{
    if leaves.len() == 0 {
        assert(be_values(leaves@) =~= seq![]);
        return Ok(CompactFrontier::new());
    }
    let last: usize = leaves.len() - 1;
    let ghost numbers = be_values(leaves@);
    let mut builder = StreamingFrontierBuilder::new();
    proof {
        assert(numbers.take(0) =~= seq![]);
        assert(is_complete_stack(tree_builder(seq![])));
    }
    let mut i: usize = 0;
    while i < last
        invariant
            i <= last,
            last + 1 == leaves@.len(),
            numbers == be_values(leaves@),
            leaves_accepted(leaves@, i as int),
            i < TREE_CAPACITY,
            builder@ == tree_builder(numbers.take(i as int)),
        decreases last - i,
    {
        assert(is_complete_stack(builder@));
        proof {
            assert(numbers.take(i as int).len() == i);
            assert(numbers.take(i + 1) =~= numbers.take(i as int).push(numbers[i as int]));
        }
        match builder.push_nonfinal_be(leaves[i]) {
            Ok(_) => {},
            Err(error) => {
                assert(leaf_refusal(leaves@, i as int) is Some);
                return Err(error);
            },
        }
        proof {
            law_push_follows_tree(numbers.take(i as int), numbers[i as int]);
            assert(leaf_refusal(leaves@, i as int) is None);
        }
        i = i + 1;
    }
    proof {
        assert(is_complete_stack(builder@));
        assert(numbers.take(last as int).len() == last);
        assert(numbers =~= numbers.take(last as int).push(numbers[last as int]));
        law_finish_follows_tree(numbers.take(last as int), numbers[last as int]);
    }
    match builder.finish_with_last_be(leaves[last]) {
        Ok((frontier, _)) => {
            assert(leaf_refusal(leaves@, last as int) is None);
            assert forall|k: int| 0 <= k < leaves@.len() implies be_value(
                #[trigger] leaves@[k]@,
            ) < modulus() by {
                assert(leaf_refusal(leaves@, k) is None);
            }
            Ok(frontier)
        },
        Err(error) => {
            assert(leaf_refusal(leaves@, last as int) is Some);
            Err(error)
        },
    }
}

/// A push leaves a node waiting at every one bit of the new count and nowhere else.
proof fn lemma_stack_stays_complete(builder: BuilderView, leaf: nat)
    requires
        is_complete_stack(builder),
        builder.count + 1 < TREE_CAPACITY,
    ensures
        is_complete_stack(pushed(builder, leaf)),
{
    let after = pushed(builder, leaf);
    let count = builder.count;
    assert forall|level: int| 0 <= level < TREE_DEPTH implies ((
    #[trigger] after.stack[level]) is Some <==> bit(after.count, level as nat)) by {
        lemma_carry(count, level as nat);
        lemma_ones_end(count, level as nat, 0);
        assert(builder.stack[level] is Some <==> bit(count, level as nat));
        lemma_ancestor(count, level as nat);
        lemma_ancestor(count + 1, level as nat);
    }
}

/// The builder of a tree is whole: a node waits where the bit of the count is set, and that node is
/// complete.
pub proof fn law_tree_builder_is_whole(leaves: Seq<nat>, level: nat)
    requires
        level < 32,
    ensures
        is_complete_stack(tree_builder(leaves)),
        tree_builder(leaves).count == leaves.len(),
        tree_builder(leaves).stack[level as int] is Some <==> bit(leaves.len(), level),
        tree_builder(leaves).stack[level as int] matches Some(node) ==> node == subtree(
            leaves,
            level,
            2 * (leaves.len() / pow2(level + 1)),
        ) && is_complete(level, 2 * (leaves.len() / pow2(level + 1)), leaves.len()),
{
    if bit(leaves.len(), level) {
        lemma_filled_slot_of_set_bit(leaves, level);
    }
}

/// A leaf is refused if it is no field element, and otherwise if it takes the last place of the
/// tree while there are more leaves to come; nothing else is wrong with a leaf.
pub proof fn law_leaf_refusal(leaves: Seq<[u8; 32]>, position: int)
    requires
        0 <= position < leaves.len(),
    ensures
        be_value(leaves[position]@) >= modulus() <==> leaf_refusal(leaves, position) == Some(
            TreeError::NonCanonical,
        ),
        be_value(leaves[position]@) < modulus() && position >= 0xffff_ffff && position + 1
            < leaves.len() <==> leaf_refusal(leaves, position) == Some(TreeError::TreeFull),
        leaf_refusal(leaves, position) is None <==> be_value(leaves[position]@) < modulus() && (
        position < 0xffff_ffff || position + 1 == leaves.len()),
        leaves_accepted(leaves, position + 1) <==> leaves_accepted(leaves, position)
            && leaf_refusal(leaves, position) is None,
        leaves_accepted(leaves, 0),
{
    if leaves_accepted(leaves, position + 1) {
        assert(leaf_refusal(leaves, position) is None);
    }
}

} // verus!
