//! Bounded-memory state of the commitment tree: the append frontier.
//!
//! Only one slot per level is kept. Complete nodes are handed out as they come about, to be
//! archived elsewhere, and partial nodes of the right edge are never stored.

use crate::bytes::{be_value, le_value, lemma_value_injective};
use crate::error::TreeError;
use crate::field::{fr_from_be, fr_to_be, modulus, FieldElement};
use crate::merkle::{
    ancestor, are_new_nodes, bit, empty_root, filled_after, frontier_of, has_bit,
    lemma_frontier_of_push, lemma_path_node_below_modulus, lemma_path_node_is_subtree,
    lemma_root_after, ones_from, path_node, root_of_frontier, subtree, tree_root, MerkleNode,
    MerkleNodeKey, TreeHasher, TREE_CAPACITY, TREE_DEPTH,
};
use crate::poseidon::poseidon;
use std::sync::Arc;
use vstd::arithmetic::power2::{lemma2_to64, pow2};
use vstd::prelude::*;

verus! {

/// The domain of the hash that commits to a frontier.
pub const DOMAIN_FRONTIER: u64 = 3006;

/// What a frontier stands for: one slot per level, the number of leaves appended, and the root.
#[verifier::ext_equal]
pub struct FrontierView {
    pub filled: Seq<nat>,
    pub next_index: nat,
    pub root: nat,
}

/// The frontier of the tree that holds `leaves`.
pub open spec fn tree_frontier(leaves: Seq<nat>) -> FrontierView {
    FrontierView {
        filled: frontier_of(leaves),
        next_index: leaves.len(),
        root: tree_root(leaves),
    }
}

/// A frontier with one more leaf.
pub open spec fn appended(frontier: FrontierView, leaf: nat) -> FrontierView {
    FrontierView {
        filled: filled_after(frontier.filled, frontier.next_index, leaf),
        next_index: frontier.next_index + 1,
        root: path_node(frontier.filled, frontier.next_index, leaf, TREE_DEPTH as nat),
    }
}

/// Whether the slots are one per level, hold field elements, and, as long as there is room for
/// another leaf, determine the root.
pub open spec fn is_consistent(frontier: FrontierView) -> bool {
    &&& frontier.filled.len() == TREE_DEPTH
    &&& forall|level: int| 0 <= level < TREE_DEPTH ==> #[trigger] frontier.filled[level] < modulus()
    &&& frontier.root < modulus()
    &&& frontier.next_index <= TREE_CAPACITY
    &&& frontier.next_index < TREE_CAPACITY ==> frontier.root == root_of_frontier(
        frontier.filled,
        frontier.next_index,
    )
}

/// The frontier that stored slots, a stored leaf count and a stored root make up, or what is wrong
/// with them.
pub open spec fn restored(filled_be: Seq<[u8; 32]>, next_index: u64, root_be: [u8; 32]) -> Result<
    FrontierView,
    TreeError,
> {
    let filled = be_values(filled_be);
    if filled_be.len() != TREE_DEPTH {
        Err(TreeError::SlotCount { found: filled_be.len() as usize })
    } else if next_index >= TREE_CAPACITY {
        Err(TreeError::CountExceedsCapacity)
    } else if exists|level: int| 0 <= level < TREE_DEPTH && #[trigger] filled[level] >= modulus() {
        Err(TreeError::NonCanonical)
    } else if root_of_frontier(filled, next_index as nat) != be_value(root_be@) {
        Err(TreeError::RootMismatch)
    } else {
        Ok(FrontierView { filled, next_index: next_index as nat, root: be_value(root_be@) })
    }
}

/// The numbers that the slots stand for.
pub open spec fn values(slots: Seq<FieldElement>) -> Seq<nat> {
    slots.map_values(|slot: FieldElement| slot@)
}

/// The numbers that 32-byte words spell, most significant byte first.
pub open spec fn be_values(words: Seq<[u8; 32]>) -> Seq<nat> {
    words.map_values(|word: [u8; 32]| be_value(word@))
}

/// What a hash chain over the first `count` slots gives, starting from zero.
pub open spec fn commitment(filled: Seq<nat>, count: nat) -> nat
    decreases count,
{
    if count == 0 {
        0
    } else {
        poseidon(
            DOMAIN_FRONTIER as nat,
            commitment(filled, (count - 1) as nat),
            filled[count - 1],
        )
    }
}

/// The commitment to a frontier.
pub open spec fn frontier_commitment(filled: Seq<nat>) -> nat {
    commitment(filled, TREE_DEPTH as nat)
}

/// The append frontier of a commitment tree.
#[derive(Debug)]
pub struct CompactFrontier {
    filled: [FieldElement; TREE_DEPTH],
    next_index: u64,
    root: FieldElement,
    hasher: Arc<TreeHasher>,
}

impl View for CompactFrontier {
    type V = FrontierView;

    closed spec fn view(&self) -> FrontierView {
        FrontierView {
            filled: values(self.filled@),
            next_index: self.next_index as nat,
            root: self.root@,
        }
    }
}

/// Whether two words are the same 32 bytes.
pub(crate) fn same_word(a: &[u8; 32], b: &[u8; 32]) -> (r: bool)
    ensures
        r == (a@ == b@),
        r == (be_value(a@) == be_value(b@)),
{
    let mut i: usize = 0;
    while i < 32
        invariant
            i <= 32,
            forall|k: int| 0 <= k < i ==> a@[k] == b@[k],
        decreases 32 - i,
    {
        if a[i] != b[i] {
            proof {
                lemma_value_injective(a@, b@);
            }
            return false;
        }
        i = i + 1;
    }
    assert(a@ =~= b@);
    true
}

/// The root of a tree whose frontier is `filled` and which holds `count` leaves.
pub(crate) fn root_from_filled(
    hasher: &TreeHasher,
    filled: &[FieldElement; TREE_DEPTH],
    count: u64,
) -> (r: FieldElement)
    ensures
        r@ == root_of_frontier(values(filled@), count as nat),
{
    let mut node = FieldElement::from_u64(0);
    let mut level: usize = 0;
    while level < TREE_DEPTH
        invariant
            level <= TREE_DEPTH,
            node@ == path_node(values(filled@), count as nat, 0, level as nat),
        decreases TREE_DEPTH - level,
    {
        node = if has_bit(count, level) {
            hasher.compress(level, filled[level], node)
        } else {
            hasher.compress(level, node, hasher.empty_root(level))
        };
        level = level + 1;
    }
    node
}

/// The frontier of a tree that holds no leaf: every slot is zero, and so the path of the first
/// leaf position leads up through empty subtrees.
proof fn lemma_empty_path(level: nat)
    requires
        level <= TREE_DEPTH,
    ensures
        path_node(frontier_of(seq![]), 0, 0, level) == empty_root(level),
    decreases level,
{
    if level > 0 {
        lemma_empty_path((level - 1) as nat);
        vstd::arithmetic::power2::lemma_pow2_pos((level - 1) as nat);
        assert(0nat / pow2((level - 1) as nat) == 0) by (nonlinear_arith)
            requires
                pow2((level - 1) as nat) > 0,
        ;
    }
}

/// A tree that holds no leaf is the empty subtree of full height.
pub proof fn law_empty_tree(leaves: Seq<nat>)
    requires
        leaves.len() == 0,
    ensures
        tree_frontier(leaves).filled == Seq::new(TREE_DEPTH as nat, |level: int| 0nat),
        tree_frontier(leaves).next_index == 0,
        tree_frontier(leaves).root == empty_root(TREE_DEPTH as nat),
{
    crate::merkle::lemma_vacant_subtree(leaves, TREE_DEPTH as nat, 0);
}

/// Appending a leaf to the frontier of a tree gives the frontier of the tree with that leaf
/// appended: its root is the root of the Merkle tree of all leaves so far.
pub proof fn law_append_follows_tree(leaves: Seq<nat>, leaf: nat)
    requires
        leaves.len() < TREE_CAPACITY,
    ensures
        appended(tree_frontier(leaves), leaf) == tree_frontier(leaves.push(leaf)),
{
    lemma_frontier_of_push(leaves, leaf);
    lemma_path_node_is_subtree(leaves, leaf, TREE_DEPTH as nat);
    lemma2_to64();
    assert(leaves.len() / pow2(TREE_DEPTH as nat) == 0) by (nonlinear_arith)
        requires
            leaves.len() < pow2(TREE_DEPTH as nat),
    ;
}

/// A consistent frontier with room for another leaf is restored from what it wrote of itself.
pub proof fn law_restore_round_trip(
    frontier: FrontierView,
    filled_be: Seq<[u8; 32]>,
    next_index: u64,
    root_be: [u8; 32],
)
    requires
        is_consistent(frontier),
        frontier.next_index < TREE_CAPACITY,
        be_values(filled_be) == frontier.filled,
        next_index == frontier.next_index,
        be_value(root_be@) == frontier.root,
    ensures
        restored(filled_be, next_index, root_be) == Ok::<FrontierView, TreeError>(frontier),
{
    assert(filled_be.len() == be_values(filled_be).len());
}

/// Whatever is appended, and to whatever frontier, consistency stays.
pub proof fn law_append_keeps_consistency(frontier: FrontierView, leaf: nat)
    requires
        is_consistent(frontier),
        frontier.next_index < TREE_CAPACITY,
        leaf < modulus(),
    ensures
        is_consistent(appended(frontier, leaf)),
{
    let after = appended(frontier, leaf);
    let index = frontier.next_index;
    assert forall|level: int| 0 <= level < TREE_DEPTH implies #[trigger] after.filled[level]
        < modulus() by {
        lemma_path_node_below_modulus(frontier.filled, index, leaf, level as nat);
    }
    lemma_path_node_below_modulus(frontier.filled, index, leaf, TREE_DEPTH as nat);
    if index + 1 < TREE_CAPACITY {
        lemma_root_after(frontier.filled, index, leaf);
    }
}

/// An append leaves the slots alone at the levels where the bit of the position is set, and so
/// never loses a complete left sibling that a later leaf needs.
pub proof fn law_append_keeps_left_siblings(frontier: FrontierView, leaf: nat, level: int)
    requires
        0 <= level < TREE_DEPTH,
        bit(frontier.next_index, level as nat),
    ensures
        appended(frontier, leaf).filled[level] == frontier.filled[level],
{
}

impl CompactFrontier {
    /// The root goes with the slots: it is the one that they determine, as long as there is room
    /// for another leaf.
    #[verifier::type_invariant]
    spec fn root_follows_slots(self) -> bool {
        &&& self.next_index <= TREE_CAPACITY
        &&& self.next_index < TREE_CAPACITY ==> self.root@ == root_of_frontier(
            values(self.filled@),
            self.next_index as nat,
        )
    }

    /// The frontier of the empty tree, over a hasher that others may share.
    pub(crate) fn with_hasher(hasher: Arc<TreeHasher>) -> (r: CompactFrontier)
        ensures
            r@ == tree_frontier(seq![]),
            r.spec_hasher() == hasher,
    {
        let zero = FieldElement::from_u64(0);
        let filled: [FieldElement; TREE_DEPTH] = [zero; TREE_DEPTH];
        let root = hasher.empty_root(TREE_DEPTH);
        proof {
            law_empty_tree(seq![]);
            assert(values(filled@) =~= frontier_of(seq![]));
            lemma_empty_path(TREE_DEPTH as nat);
        }
        CompactFrontier { filled, next_index: 0, root, hasher }
    }

    /// The hasher that the frontier computes its nodes with.
    pub(crate) closed spec fn spec_hasher(self) -> Arc<TreeHasher> {
        self.hasher
    }

    /// The frontier that slots and a leaf count make up.
    pub(crate) fn from_slots(
        hasher: Arc<TreeHasher>,
        filled: [FieldElement; TREE_DEPTH],
        next_index: u64,
    ) -> (r: CompactFrontier)
        requires
            next_index < TREE_CAPACITY,
        ensures
            r@ == (FrontierView {
                filled: values(filled@),
                next_index: next_index as nat,
                root: root_of_frontier(values(filled@), next_index as nat),
            }),
    {
        let root = root_from_filled(&hasher, &filled, next_index);
        CompactFrontier { filled, next_index, root, hasher }
    }

    /// The frontier of the empty tree.
    pub fn new() -> (r: CompactFrontier)
        ensures
            r@ == tree_frontier(seq![]),
    {
        CompactFrontier::with_hasher(Arc::new(TreeHasher::new()))
    }

    /// The frontier that stored slots, a stored leaf count and a stored root make up, provided that
    /// they belong together.
    pub fn from_parts_be(
        filled_be: &[[u8; 32]],
        next_index: u64,
        expected_root_be: [u8; 32],
    ) -> (r: Result<CompactFrontier, TreeError>)
        ensures
            match restored(filled_be@, next_index, expected_root_be) {
                Ok(frontier) => r is Ok && r->Ok_0@ == frontier,
                Err(error) => r == Err::<CompactFrontier, _>(error),
            },
    {
        if filled_be.len() != TREE_DEPTH {
            return Err(TreeError::SlotCount { found: filled_be.len() });
        }
        if next_index >= TREE_CAPACITY {
            return Err(TreeError::CountExceedsCapacity);
        }
        let zero = FieldElement::from_u64(0);
        let mut filled: [FieldElement; TREE_DEPTH] = [zero; TREE_DEPTH];
        let mut level: usize = 0;
        while level < TREE_DEPTH
            invariant
                level <= TREE_DEPTH,
                filled_be@.len() == TREE_DEPTH,
                next_index < TREE_CAPACITY,
                forall|l: int|
                    0 <= l < level ==> (#[trigger] filled@[l])@ == be_values(filled_be@)[l]
                        && be_values(filled_be@)[l] < modulus(),
            decreases TREE_DEPTH - level,
        {
            filled[level] =
            match fr_from_be(filled_be[level]) {
                Ok(slot) => slot,
                Err(error) => {
                    assert(be_values(filled_be@)[level as int] >= modulus());
                    return Err(error);
                },
            };
            level = level + 1;
        }
        assert(values(filled@) =~= be_values(filled_be@));
        assert forall|l: int| 0 <= l < TREE_DEPTH implies #[trigger] be_values(filled_be@)[l]
            < modulus() by {
            assert(filled@[l]@ == be_values(filled_be@)[l]);
        }
        let hasher = Arc::new(TreeHasher::new());
        let root = root_from_filled(&hasher, &filled, next_index);
        if !same_word(&fr_to_be(root), &expected_root_be) {
            return Err(TreeError::RootMismatch);
        }
        Ok(CompactFrontier { filled, next_index, root, hasher })
    }

    /// The number of leaves appended so far, which is the position of the next one.
    pub fn next_index(&self) -> (r: u64)
        ensures
            r == self@.next_index,
            r <= TREE_CAPACITY,
    {
        proof {
            use_type_invariant(self);
        }
        self.next_index
    }

    pub(crate) fn root(&self) -> (r: FieldElement)
        ensures
            r@ == self@.root,
    {
        self.root
    }

    pub(crate) fn slot(&self, level: usize) -> (r: FieldElement)
        requires
            level < TREE_DEPTH,
        ensures
            r@ == self@.filled[level as int],
            self@.filled.len() == TREE_DEPTH,
    {
        self.filled[level]
    }

    /// The root, most significant byte first.
    pub fn root_be(&self) -> (r: [u8; 32])
        ensures
            be_value(r@) == self@.root,
            be_value(r@) < modulus(),
    {
        fr_to_be(self.root)
    }

    /// The root, least significant byte first.
    pub fn root_le(&self) -> (r: [u8; 32])
        ensures
            le_value(r@) == self@.root,
            le_value(r@) < modulus(),
    {
        self.root.to_repr()
    }

    /// The slots from the leaves up, each most significant byte first.
    pub fn filled_be(&self) -> (r: Vec<[u8; 32]>)
        ensures
            be_values(r@) == self@.filled,
            is_consistent(self@),
    {
        proof {
            use_type_invariant(self);
            use_type_invariant(&self.root);
        }
        let mut r: Vec<[u8; 32]> = Vec::new();
        let mut level: usize = 0;
        while level < TREE_DEPTH
            invariant
                level <= TREE_DEPTH,
                r@.len() == level,
                forall|i: int|
                    0 <= i < level ==> be_value(#[trigger] r@[i]@) == self.filled@[i]@,
                forall|i: int| 0 <= i < level ==> be_value(#[trigger] r@[i]@) < modulus(),
            decreases TREE_DEPTH - level,
        {
            r.push(fr_to_be(self.filled[level]));
            level = level + 1;
        }
        assert(be_values(r@) =~= self@.filled);
        assert forall|l: int| 0 <= l < TREE_DEPTH implies #[trigger] self@.filled[l]
            < modulus() by {
            assert(be_value(r@[l]@) < modulus());
        }
        r
    }

    /// The commitment to the slots.
    pub fn frontier_commit(&self) -> (r: FieldElement)
        ensures
            r@ == frontier_commitment(self@.filled),
    {
        let mut acc = FieldElement::from_u64(0);
        let mut level: usize = 0;
        while level < TREE_DEPTH
            invariant
                level <= TREE_DEPTH,
                acc@ == commitment(self@.filled, level as nat),
            decreases TREE_DEPTH - level,
        {
            acc = self.hasher.pair(DOMAIN_FRONTIER, acc, self.filled[level]);
            level = level + 1;
        }
        acc
    }

    /// Appends one leaf, and returns every node that became complete: the leaf, and one ancestor
    /// for each trailing one bit of its position.
    pub fn append_be(&mut self, leaf_be: [u8; 32]) -> (r: Result<Vec<MerkleNode>, TreeError>)
        ensures
            be_value(leaf_be@) >= modulus() ==> r == Err::<Vec<MerkleNode>, _>(
                TreeError::NonCanonical,
            ),
            be_value(leaf_be@) < modulus() && old(self)@.next_index >= TREE_CAPACITY ==> r == Err::<
                Vec<MerkleNode>,
                _,
            >(TreeError::TreeFull),
            r is Err ==> final(self)@ == old(self)@,
            be_value(leaf_be@) < modulus() && old(self)@.next_index < TREE_CAPACITY ==> {
                &&& r is Ok
                &&& final(self)@ == appended(old(self)@, be_value(leaf_be@))
                &&& r->Ok_0@[0].hash_be == leaf_be
                &&& are_new_nodes(
                    r->Ok_0@,
                    old(self)@.filled,
                    old(self)@.next_index,
                    be_value(leaf_be@),
                )
            },
    {
        let leaf = match fr_from_be(leaf_be) {
            Ok(leaf) => leaf,
            Err(error) => return Err(error),
        };
        let index = self.next_index;
        if index >= TREE_CAPACITY {
            return Err(TreeError::TreeFull);
        }
        let ghost slots = values(self.filled@);
        let ghost start = self.filled@;
        let mut filled: [FieldElement; TREE_DEPTH] = self.filled;
        let mut complete = true;
        let mut node = leaf;
        let mut archived: Vec<MerkleNode> = Vec::new();
        archived.push(MerkleNode { key: MerkleNodeKey { level: 0, index }, hash_be: leaf_be });
        proof {
            lemma2_to64();
        }
        let mut level: usize = 0;
        while level < TREE_DEPTH
            invariant
                level <= TREE_DEPTH,
                slots == values(start),
                start.len() == TREE_DEPTH,
                node@ == path_node(slots, index as nat, leaf@, level as nat),
                forall|l: int| level <= l < TREE_DEPTH ==> filled@[l] == start[l],
                forall|l: int|
                    0 <= l < level ==> (#[trigger] filled@[l])@ == filled_after(
                        slots,
                        index as nat,
                        leaf@,
                    )[l],
                complete ==> archived@.len() == level + 1 && level + ones_from(
                    index as nat,
                    level as nat,
                ) == ones_from(index as nat, 0),
                !complete ==> archived@.len() == ones_from(index as nat, 0) + 1,
                archived@[0].hash_be == leaf_be,
                forall|k: int|
                    0 <= k < archived@.len() ==> {
                        &&& (#[trigger] archived@[k]).key.level == k
                        &&& archived@[k].key.index == index as nat / pow2(k as nat)
                        &&& be_value(archived@[k].hash_be@) == path_node(
                            slots,
                            index as nat,
                            leaf@,
                            k as nat,
                        )
                    },
            decreases TREE_DEPTH - level,
        {
            if !has_bit(index, level) {
                filled[level] = node;
                node = self.hasher.compress(level, node, self.hasher.empty_root(level));
                complete = false;
            } else {
                node = self.hasher.compress(level, filled[level], node);
                if complete {
                    archived.push(
                        MerkleNode {
                            key: MerkleNodeKey {
                                level: (level + 1) as u8,
                                index: ancestor(index, level + 1),
                            },
                            hash_be: fr_to_be(node),
                        },
                    );
                }
            }
            level = level + 1;
        }
        assert(values(filled@) =~= filled_after(slots, index as nat, leaf@));
        proof {
            if index + 1 < TREE_CAPACITY {
                lemma_root_after(slots, index as nat, leaf@);
            }
        }
        *self =
        CompactFrontier { filled, next_index: index + 1, root: node, hasher: self.hasher.clone() };
        Ok(archived)
    }
}

impl Default for CompactFrontier {
    fn default() -> (r: CompactFrontier)
        ensures
            r@ == tree_frontier(seq![]),
    {
        CompactFrontier::new()
    }
}

impl Clone for CompactFrontier {
    fn clone(&self) -> (r: CompactFrontier)
        ensures
            r@ == self@,
    {
        proof {
            use_type_invariant(self);
        }
        CompactFrontier {
            filled: self.filled,
            next_index: self.next_index,
            root: self.root,
            hasher: self.hasher.clone(),
        }
    }
}

/// Words stand for numbers in the order in which they come.
pub proof fn law_be_values(words: Seq<[u8; 32]>, slots: Seq<FieldElement>, i: int)
    requires
        0 <= i < words.len(),
        words.len() == slots.len(),
    ensures
        be_values(words).len() == words.len(),
        be_values(words)[i] == be_value(words[i]@),
        values(slots).len() == slots.len(),
        values(slots)[i] == slots[i]@,
{
}

/// The frontier of a tree counts its leaves, has its root, and has in each slot what the tree says.
pub proof fn law_tree_frontier(leaves: Seq<nat>)
    ensures
        tree_frontier(leaves).next_index == leaves.len(),
        tree_frontier(leaves).root == subtree(leaves, 32, 0),
        tree_frontier(leaves).filled == frontier_of(leaves),
{
}

/// An append counts one leaf more; its root is the end of the path of the leaf, and any slot is
/// changed only to what that path goes through on the level of the slot.
pub proof fn law_append(frontier: FrontierView, leaf: nat, level: nat)
    requires
        level < 32,
    ensures
        appended(frontier, leaf).next_index == frontier.next_index + 1,
        appended(frontier, leaf).root == path_node(
            frontier.filled,
            frontier.next_index,
            leaf,
            32,
        ),
        appended(frontier, leaf).filled.len() == 32,
        appended(frontier, leaf).filled[level as int] == if bit(frontier.next_index, level) {
            frontier.filled[level as int]
        } else {
            path_node(frontier.filled, frontier.next_index, leaf, level)
        },
{
}

/// What was stored is restored as it was stored, and only if it belongs together: 32 slots that are
/// field elements, fewer leaves than the tree can hold, and the root that they determine.
pub proof fn law_restored(filled_be: Seq<[u8; 32]>, next_index: u64, root_be: [u8; 32])
    ensures
        restored(filled_be, next_index, root_be) is Ok <==> {
            &&& filled_be.len() == 32
            &&& next_index < 0x1_0000_0000
            &&& forall|i: int| 0 <= i < 32 ==> be_value(#[trigger] filled_be[i]@) < modulus()
            &&& be_value(root_be@) == root_of_frontier(be_values(filled_be), next_index as nat)
        },
        restored(filled_be, next_index, root_be) matches Ok(frontier) ==> {
            &&& frontier.filled.len() == 32
            &&& forall|i: int|
                0 <= i < 32 ==> #[trigger] frontier.filled[i] == be_value(filled_be[i]@)
            &&& frontier.next_index == next_index
            &&& frontier.root == be_value(root_be@)
        },
        restored(filled_be, next_index, root_be) matches Err(TreeError::SlotCount { found })
            ==> found == filled_be.len() as usize,
        filled_be.len() != 32 ==> restored(filled_be, next_index, root_be) matches Err(
            TreeError::SlotCount { found: _ },
        ),
        filled_be.len() == 32 && next_index >= 0x1_0000_0000 ==> restored(
            filled_be,
            next_index,
            root_be,
        ) == Err::<FrontierView, _>(TreeError::CountExceedsCapacity),
        filled_be.len() == 32 && next_index < 0x1_0000_0000 && (exists|i: int|
            0 <= i < 32 && be_value(#[trigger] filled_be[i]@) >= modulus()) ==> restored(
            filled_be,
            next_index,
            root_be,
        ) == Err::<FrontierView, _>(TreeError::NonCanonical),
        filled_be.len() == 32 && next_index < 0x1_0000_0000 && (forall|i: int|
            0 <= i < 32 ==> be_value(#[trigger] filled_be[i]@) < modulus()) && be_value(root_be@)
            != root_of_frontier(be_values(filled_be), next_index as nat) ==> restored(
            filled_be,
            next_index,
            root_be,
        ) == Err::<FrontierView, _>(TreeError::RootMismatch),
{
    let filled = be_values(filled_be);
    assert forall|i: int| 0 <= i < filled_be.len() implies #[trigger] filled[i] == be_value(
        filled_be[i]@,
    ) by {}
    if filled_be.len() == 32 && exists|i: int|
        0 <= i < 32 && be_value(#[trigger] filled_be[i]@) >= modulus() {
        let i = choose|i: int| 0 <= i < 32 && be_value(#[trigger] filled_be[i]@) >= modulus();
        assert(filled[i] >= modulus());
    }
}

/// The commitment to a frontier chains its slots, the lowest first: it starts from zero, and each
/// slot is hashed together with what came before under the domain 3006.
pub proof fn law_commitment_chain(filled: Seq<nat>, chain: Seq<nat>)
    requires
        chain.len() == 33,
        chain[0] == 0,
        forall|i: int|
            0 <= i < 32 ==> chain[i + 1] == poseidon(3006, #[trigger] chain[i], filled[i]),
    ensures
        frontier_commitment(filled) == chain[32],
{
    lemma_chain(filled, chain, 32);
}

proof fn lemma_chain(filled: Seq<nat>, chain: Seq<nat>, count: nat)
    requires
        count <= 32,
        chain.len() == 33,
        chain[0] == 0,
        forall|i: int|
            0 <= i < 32 ==> chain[i + 1] == poseidon(3006, #[trigger] chain[i], filled[i]),
    ensures
        commitment(filled, count) == chain[count as int],
    decreases count,
{
    if count > 0 {
        lemma_chain(filled, chain, (count - 1) as nat);
    }
}

} // verus!
