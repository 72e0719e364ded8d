//! Merkle witnesses, reconstructed from archived complete nodes.

use crate::bytes::{
    be_value, le_bytes, le_value, lemma_le_bytes_of_value, lemma_le_value_of_bytes,
    word_at,
};
use crate::error::TreeError;
use crate::field::{canonical, fr_from_be, fr_to_be, lemma_modulus_fits, modulus, FieldElement};
use crate::merkle::{
    ancestor, are_new_nodes, bit, compressed, empty_root, frontier_of, has_bit, is_complete,
    is_vacant, law_append_hands_out_completed_nodes, law_complete_node_is_immutable, leaf_at,
    lemma_ancestor, lemma_children, lemma_path_node_is_subtree, lemma_subtree_below_modulus,
    lemma_vacant_subtree, subtree, trailing_ones, tree_root, MerkleNode, MerkleNodeKey, TreeHasher,
    TREE_CAPACITY, TREE_DEPTH,
};
use crate::poseidon::poseidon;
use crate::text::{
    hex_0x, hex_bytes, hex_decode, hex_text, is_hex, law_hex_round_trip, trim_0x, with_0x,
    without_0x,
};
use std::collections::HashMap;
use vstd::arithmetic::power2::{lemma2_to64, lemma2_to64_rest, lemma_pow2_pos, pow2};
use vstd::bits::{lemma_u64_pow2_no_overflow, lemma_u64_shl_is_mul};
use vstd::prelude::*;

verus! {

/// The key of a node.
pub open spec fn key_of(level: nat, index: nat) -> MerkleNodeKey {
    MerkleNodeKey { level: level as u8, index: index as u64 }
}

/// The largest complete nodes that cover those of the first `count` leaves that lie under the node
/// at `level` and `index`.
pub open spec fn complete_cover(level: nat, index: nat, count: nat) -> Set<MerkleNodeKey>
    decreases level,
{
    if is_vacant(level, index, count) {
        Set::empty()
    } else if is_complete(level, index, count) {
        Set::empty().insert(key_of(level, index))
    } else if level == 0 {
        Set::empty()
    } else {
        let below = (level - 1) as nat;
        complete_cover(below, 2 * index, count).union(complete_cover(below, 2 * index + 1, count))
    }
}

/// The node next to the ancestor at `level` of the leaf at `position`, under the same parent.
pub open spec fn sibling_index(position: nat, level: nat) -> nat {
    let here = position / pow2(level);
    if here % 2 == 0 {
        here + 1
    } else {
        (here - 1) as nat
    }
}

/// The nodes from which the siblings of the leaf at `position` on the lowest `levels` levels are
/// made up.
pub open spec fn cover_of_siblings(position: nat, count: nat, levels: nat) -> Set<MerkleNodeKey>
    decreases levels,
{
    if levels == 0 {
        Set::empty()
    } else {
        let level = (levels - 1) as nat;
        cover_of_siblings(position, count, level).union(
            complete_cover(level, sibling_index(position, level), count),
        )
    }
}

/// The order of keys: by level, then by index.
pub open spec fn key_before(a: MerkleNodeKey, b: MerkleNodeKey) -> bool {
    a.level < b.level || (a.level == b.level && a.index < b.index)
}

/// Whether the keys stand in ascending order, none twice.
pub open spec fn ascending(keys: Seq<MerkleNodeKey>) -> bool {
    forall|i: int, j: int|
        0 <= i < j < keys.len() ==> key_before(#[trigger] keys[i], #[trigger] keys[j])
}

/// Puts a key in its place among keys in ascending order, unless it is there.
fn insert_key(keys: &mut Vec<MerkleNodeKey>, key: MerkleNodeKey)
    requires
        ascending(old(keys)@),
    ensures
        ascending(final(keys)@),
        final(keys)@.to_set() == old(keys)@.to_set().insert(key),
{
    let ghost before = keys@;
    let mut place: usize = 0;
    while place < keys.len() && (keys[place].level < key.level || (keys[place].level == key.level
        && keys[place].index < key.index))
        invariant
            keys@ == before,
            place <= keys@.len(),
            forall|i: int| 0 <= i < place ==> key_before(#[trigger] keys@[i], key),
        decreases keys.len() - place,
    {
        place = place + 1;
    }
    if place < keys.len() && keys[place].level == key.level && keys[place].index == key.index {
        assert(before.contains(before[place as int]));
        assert(before.to_set() =~= before.to_set().insert(key));
        return;
    }
    assert forall|i: int| place <= i < before.len() implies key_before(
        key,
        #[trigger] before[i],
    ) by {
        assert(key_before(key, before[place as int]));
        if i > place {
            assert(key_before(before[place as int], before[i]));
        }
    }
    keys.insert(place, key);
    let ghost after = keys@;
    assert(after == before.insert(place as int, key));
    assert forall|i: int, j: int| 0 <= i < j < after.len() implies key_before(
        #[trigger] after[i],
        #[trigger] after[j],
    ) by {
        let a = if i < place { i } else { i - 1 };
        let b = if j < place { j } else { j - 1 };
        assert(i == place || after[i] == before[a]);
        assert(j == place || after[j] == before[b]);
    }
    assert forall|k: MerkleNodeKey| after.contains(k) <==> before.contains(k) || k == key by {
        if before.contains(k) {
            let i = choose|i: int| 0 <= i < before.len() && before[i] == k;
            if i < place {
                assert(after[i] == k);
            } else {
                assert(after[i + 1] == k);
            }
        }
        assert(after[place as int] == key);
        if after.contains(k) && k != key {
            let i = choose|i: int| 0 <= i < after.len() && after[i] == k;
            if i < place {
                assert(before[i] == k);
            } else {
                assert(before[i - 1] == k);
            }
        }
    }
    assert(after.to_set() =~= before.to_set().insert(key));
}

/// The first leaf under a node, and the first leaf right of it.
fn leaf_range(level: u8, index: u64) -> (r: (u128, u128))
    requires
        level <= TREE_DEPTH,
    ensures
        r.0 == index * pow2(level as nat),
        r.1 == (index + 1) * pow2(level as nat),
{
    proof {
        lemma_u64_pow2_no_overflow(level as nat);
        lemma_u64_shl_is_mul(1, level as u64);
        lemma_pow2_pos(level as nat);
        let power = pow2(level as nat);
        assert((index + 1) * power == index * power + power) by (nonlinear_arith);
        assert(index * power <= 0xffff_ffff_ffff_ffff * 0xffff_ffff_ffff_ffff) by (nonlinear_arith)
            requires
                power <= 0xffff_ffff_ffff_ffff,
                index <= 0xffff_ffff_ffff_ffff,
                index >= 0,
                power >= 0,
        ;
    }
    let width: u64 = 1u64 << level;
    let start: u128 = (index as u128) * (width as u128);
    (start, start + width as u128)
}

/// Adds to `keys` the largest complete nodes under the node at `level` and `index`.
fn collect_complete_cover(level: u8, index: u64, count: u64, keys: &mut Vec<MerkleNodeKey>)
    requires
        level <= TREE_DEPTH,
        (index + 1) * pow2(level as nat) <= 0x1_0000_0000_0000_0000,
        ascending(old(keys)@),
    ensures
        ascending(final(keys)@),
        final(keys)@.to_set() == old(keys)@.to_set().union(
            complete_cover(level as nat, index as nat, count as nat),
        ),
    decreases level,
{
    let ghost before = keys@.to_set();
    let (start, end) = leaf_range(level, index);
    if start >= count as u128 {
        assert(before.union(Set::empty()) =~= before);
        return;
    }
    if end <= count as u128 {
        insert_key(keys, MerkleNodeKey { level, index });
        assert(before.union(Set::empty().insert(MerkleNodeKey { level, index })) =~= before.insert(
            MerkleNodeKey { level, index },
        ));
        return;
    }
    assert(level > 0) by {
        lemma2_to64();
        if level == 0 {
            let power = pow2(level as nat);
            assert(index * power == index && (index + 1) * power == index + 1) by (nonlinear_arith)
                requires
                    power == 1,
            ;
        }
    }
    proof {
        lemma_children(level as nat, index as nat);
        let power = pow2((level - 1) as nat);
        assert(2 * index + 2 <= 0x1_0000_0000_0000_0000) by (nonlinear_arith)
            requires
                (2 * index + 2) * power <= 0x1_0000_0000_0000_0000,
                power > 0,
        ;
    }
    collect_complete_cover(level - 1, index * 2, count, keys);
    collect_complete_cover(level - 1, index * 2 + 1, count, keys);
    assert(keys@.to_set() =~= before.union(
        complete_cover(level as nat, index as nat, count as nat),
    ));
}

/// The index of the sibling of the ancestor at `level` of the leaf at `position`.
fn sibling_at(position: u64, level: usize) -> (r: u64)
    requires
        level < TREE_DEPTH,
    ensures
        r == sibling_index(position as nat, level as nat),
        (r + 1) * pow2(level as nat) <= 0x1_0000_0000_0000_0000,
{
    let here = ancestor(position, level);
    assert(here % 2 == 0 ==> here ^ 1 == here + 1) by (bit_vector);
    assert(here % 2 == 1 ==> here ^ 1 == here - 1) by (bit_vector);
    proof {
        lemma_sibling_in_range(position as nat, level as nat);
    }
    here ^ 1
}

/// A position below two to the 64 has its siblings within that range.
proof fn lemma_sibling_in_range(position: nat, level: nat)
    requires
        position < 0x1_0000_0000_0000_0000,
        level < TREE_DEPTH,
    ensures
        (sibling_index(position, level) + 1) * pow2(level) <= 0x1_0000_0000_0000_0000,
{
    // The parent of both siblings ends at a multiple of its width, which divides the range.
    let above = level + 1;
    let parent = position / pow2(above);
    lemma_ancestor(position, level);
    lemma_ancestor(position, above);
    lemma_children(above, parent);
    let rest = (64 - above) as nat;
    lemma_pow2_pos(above);
    lemma_pow2_pos(level);
    vstd::arithmetic::power2::lemma_pow2_adds(above, rest);
    lemma2_to64_rest();
    let width = pow2(above);
    let blocks = pow2(rest);
    assert(parent + 1 <= blocks) by (nonlinear_arith)
        requires
            parent * width <= position,
            position < width * blocks,
    ;
    assert((parent + 1) * width <= width * blocks) by (nonlinear_arith)
        requires
            parent + 1 <= blocks,
    ;
    let sibling = sibling_index(position, level);
    let power = pow2(level);
    assert((sibling + 1) * power <= (2 * parent + 2) * power) by (nonlinear_arith)
        requires
            sibling <= 2 * parent + 1,
    ;
}

/// The keys, in ascending order, of the complete nodes from which the witness of the leaf at
/// `position` in the tree of the first `confirmed_count` leaves is made up.
pub fn required_witness_nodes(position: u64, confirmed_count: u64) -> (r: Result<
    Vec<MerkleNodeKey>,
    TreeError,
>)
    ensures
        position >= confirmed_count ==> r == Err::<Vec<MerkleNodeKey>, _>(
            TreeError::PositionOutsidePrefix,
        ),
        position < confirmed_count ==> {
            &&& r is Ok
            &&& ascending(r->Ok_0@)
            &&& r->Ok_0@.to_set() == cover_of_siblings(
                position as nat,
                confirmed_count as nat,
                TREE_DEPTH as nat,
            )
        },
{
    if position >= confirmed_count {
        return Err(TreeError::PositionOutsidePrefix);
    }
    let mut keys: Vec<MerkleNodeKey> = Vec::new();
    assert(keys@.to_set() =~= Set::empty());
    let mut level: usize = 0;
    while level < TREE_DEPTH
        invariant
            level <= TREE_DEPTH,
            ascending(keys@),
            keys@.to_set() == cover_of_siblings(
                position as nat,
                confirmed_count as nat,
                level as nat,
            ),
        decreases TREE_DEPTH - level,
    {
        let sibling = sibling_at(position, level);
        collect_complete_cover(level as u8, sibling, confirmed_count, &mut keys);
        level = level + 1;
    }
    Ok(keys)
}

/// The number under which the archive files a key.
pub open spec fn packed(key: MerkleNodeKey) -> u128 {
    (key.level * 0x1_0000_0000_0000_0000 + key.index) as u128
}

fn pack(key: MerkleNodeKey) -> (r: u128)
    ensures
        r == packed(key),
{
    (key.level as u128) * 0x1_0000_0000_0000_0000 + (key.index as u128)
}

/// Archived nodes by their keys, each hash most significant byte first.
pub struct NodeMap {
    entries: HashMap<u128, [u8; 32]>,
}

/// The contents of an archive, by keys in place of the numbers that they are filed under.
pub open spec fn unpacked<V>(entries: Map<u128, V>) -> Map<MerkleNodeKey, V> {
    Map::new(
        |key: MerkleNodeKey| entries.contains_key(packed(key)),
        |key: MerkleNodeKey| entries[packed(key)],
    )
}

impl View for NodeMap {
    type V = Map<MerkleNodeKey, [u8; 32]>;

    closed spec fn view(&self) -> Map<MerkleNodeKey, [u8; 32]> {
        unpacked(self.entries@)
    }
}

impl NodeMap {
    /// Everything in the archive is filed under the number of some key.
    #[verifier::type_invariant]
    spec fn filed_by_key(self) -> bool {
        forall|number: u128| #[trigger]
            self.entries@.contains_key(number) ==> number < 0x100_0000_0000_0000_0000
    }

    pub fn new() -> (r: NodeMap)
        ensures
            r@ == Map::<MerkleNodeKey, [u8; 32]>::empty(),
    {
        let entries: HashMap<u128, [u8; 32]> = HashMap::new();
        assert(unpacked(entries@) =~= Map::empty());
        NodeMap { entries }
    }

    /// Archives a hash under a key, in place of the one that was there.
    pub fn insert(&mut self, key: MerkleNodeKey, hash_be: [u8; 32])
        ensures
            final(self)@ == old(self)@.insert(key, hash_be),
    {
        proof {
            use_type_invariant(&*self);
        }
        let ghost before = self.entries@;
        let mut entries: HashMap<u128, [u8; 32]> = HashMap::new();
        std::mem::swap(&mut entries, &mut self.entries);
        entries.insert(pack(key), hash_be);
        self.entries = entries;
        assert(unpacked(self.entries@) =~= unpacked(before).insert(key, hash_be));
    }

    /// The hash archived under a key.
    pub fn get(&self, key: MerkleNodeKey) -> (r: Option<[u8; 32]>)
        ensures
            r == (if self@.contains_key(key) {
                Some(self@[key])
            } else {
                None
            }),
    {
        match self.entries.get(&pack(key)) {
            Some(hash_be) => Some(*hash_be),
            None => None,
        }
    }
}

/// Whether every archived hash is a field element.
pub open spec fn all_canonical(nodes: Map<MerkleNodeKey, [u8; 32]>) -> bool {
    forall|key: MerkleNodeKey| #[trigger]
        nodes.contains_key(key) ==> be_value(nodes[key]@) < modulus()
}

/// The numbers that archived hashes spell.
pub open spec fn node_values(nodes: Map<MerkleNodeKey, [u8; 32]>) -> Map<MerkleNodeKey, nat> {
    nodes.map_values(|hash_be: [u8; 32]| be_value(hash_be@))
}

/// The archived hashes as field elements, if all of them are.
fn parse_nodes(nodes: &NodeMap) -> (r: Result<HashMap<u128, FieldElement>, TreeError>)
    ensures
        !all_canonical(nodes@) ==> r == Err::<HashMap<u128, FieldElement>, _>(
            TreeError::NonCanonical,
        ),
        all_canonical(nodes@) ==> r is Ok && parsed_values(r->Ok_0@) == node_values(nodes@),
{
    proof {
        use_type_invariant(nodes);
    }
    let mut parsed: HashMap<u128, FieldElement> = HashMap::with_capacity(nodes.entries.len());
    let ghost entries = nodes.entries@;
    for (number, hash_be) in it: nodes.entries.iter()
        invariant
            entries == nodes.entries@,
            forall|n: u128| #[trigger]
                entries.contains_key(n) ==> n < 0x100_0000_0000_0000_0000,
            forall|n: u128| #[trigger]
                entries.contains_key(n) ==> parsed@.contains_key(n) || exists|i: int|
                    it.index() <= i < it.seq().len() && *(#[trigger] it.seq()[i]).0 == n,
            forall|n: u128| #[trigger]
                parsed@.contains_key(n) ==> entries.contains_key(n) && parsed@[n]@ == be_value(
                    entries[n]@,
                ) && be_value(entries[n]@) < modulus(),
    {
        proof {
            assert(entries.contains_key(*it.seq()[it.index()].0));
            lemma_packed_round_trip(*number);
            assert(nodes@.contains_key(key_filed_under(*number)));
        }
        match fr_from_be(*hash_be) {
            Ok(value) => {
                parsed.insert(*number, value);
            },
            Err(error) => {
                return Err(error);
            },
        }
    }
    assert(parsed_values(parsed@) =~= node_values(nodes@));
    Ok(parsed)
}

/// The key that a number stands for in the archive.
spec fn key_filed_under(number: u128) -> MerkleNodeKey {
    MerkleNodeKey {
        level: (number / 0x1_0000_0000_0000_0000) as u8,
        index: (number % 0x1_0000_0000_0000_0000) as u64,
    }
}

proof fn lemma_packed_round_trip(number: u128)
    requires
        number < 0x100_0000_0000_0000_0000,
    ensures
        packed(key_filed_under(number)) == number,
{
}

/// The numbers that parsed hashes stand for.
pub open spec fn parsed_values(parsed: Map<u128, FieldElement>) -> Map<MerkleNodeKey, nat> {
    unpacked(parsed).map_values(|value: FieldElement| value@)
}

/// The node at `level` and `index` of the tree of the first `count` leaves, put together from
/// archived complete nodes and the roots of empty subtrees; or the key of the first complete node,
/// from the left, that is not archived.
pub open spec fn node_from_archive(
    nodes: Map<MerkleNodeKey, nat>,
    level: nat,
    index: nat,
    count: nat,
) -> Result<nat, MerkleNodeKey>
    decreases level,
{
    if is_vacant(level, index, count) {
        Ok(empty_root(level))
    } else if is_complete(level, index, count) {
        if nodes.contains_key(key_of(level, index)) {
            Ok(nodes[key_of(level, index)])
        } else {
            Err(key_of(level, index))
        }
    } else if level == 0 {
        Ok(0)
    } else {
        let below = (level - 1) as nat;
        match node_from_archive(nodes, below, 2 * index, count) {
            Err(key) => Err(key),
            Ok(left) => match node_from_archive(nodes, below, 2 * index + 1, count) {
                Err(key) => Err(key),
                Ok(right) => Ok(compressed(below, left, right)),
            },
        }
    }
}

/// The node at `level` and `index` of the tree of the first `count` leaves.
fn subtree_at_prefix(
    hasher: &TreeHasher,
    level: u8,
    index: u64,
    count: u64,
    nodes: &HashMap<u128, FieldElement>,
) -> (r: Result<FieldElement, TreeError>)
    requires
        level <= TREE_DEPTH,
        (index + 1) * pow2(level as nat) <= 0x1_0000_0000_0000_0000,
    ensures
        match node_from_archive(parsed_values(nodes@), level as nat, index as nat, count as nat) {
            Ok(value) => r is Ok && r->Ok_0@ == value,
            Err(key) => r == Err::<FieldElement, _>(TreeError::MissingNode { key }),
        },
    decreases level,
{
    let (start, end) = leaf_range(level, index);
    if start >= count as u128 {
        return Ok(hasher.empty_root(level as usize));
    }
    if end <= count as u128 {
        let key = MerkleNodeKey { level, index };
        return match nodes.get(&pack(key)) {
            Some(value) => Ok(*value),
            None => Err(TreeError::MissingNode { key }),
        };
    }
    assert(level > 0) by {
        lemma2_to64();
        if level == 0 {
            let power = pow2(level as nat);
            assert(index * power == index && (index + 1) * power == index + 1) by (nonlinear_arith)
                requires
                    power == 1,
            ;
        }
    }
    proof {
        lemma_children(level as nat, index as nat);
        let power = pow2((level - 1) as nat);
        assert(2 * index + 2 <= 0x1_0000_0000_0000_0000) by (nonlinear_arith)
            requires
                (2 * index + 2) * power <= 0x1_0000_0000_0000_0000,
                power > 0,
        ;
    }
    let left = match subtree_at_prefix(hasher, level - 1, index * 2, count, nodes) {
        Ok(value) => value,
        Err(error) => return Err(error),
    };
    let right = match subtree_at_prefix(hasher, level - 1, index * 2 + 1, count, nodes) {
        Ok(value) => value,
        Err(error) => return Err(error),
    };
    Ok(hasher.compress((level - 1) as usize, left, right))
}

/// The sibling at `level` of the leaf at `position`, put together from archived nodes.
pub open spec fn sibling_from_archive(
    nodes: Map<MerkleNodeKey, nat>,
    position: nat,
    count: nat,
    level: nat,
) -> Result<nat, MerkleNodeKey> {
    node_from_archive(nodes, level, sibling_index(position, level), count)
}

/// The text of a sibling: its 32 bytes in hexadecimal, least significant first, after `0x`.
pub open spec fn sibling_text(value: nat) -> Seq<char> {
    with_0x(hex_text(le_bytes(value, 32)))
}

/// Whether the siblings on the levels below `level` can all be put together.
pub open spec fn siblings_found(
    nodes: Map<MerkleNodeKey, nat>,
    position: nat,
    count: nat,
    level: nat,
) -> bool {
    forall|l: nat| l < level ==> #[trigger] sibling_from_archive(nodes, position, count, l) is Ok
}

/// The siblings, from the leaf up, of the leaf at `position` in the tree of the first
/// `confirmed_count` leaves.
pub fn witness_from_nodes(position: u64, confirmed_count: u64, nodes_be: &NodeMap) -> (r: Result<
    Vec<String>,
    TreeError,
>)
    ensures
        position >= confirmed_count ==> r == Err::<Vec<String>, _>(
            TreeError::PositionOutsidePrefix,
        ),
        position < confirmed_count && !all_canonical(nodes_be@) ==> r == Err::<Vec<String>, _>(
            TreeError::NonCanonical,
        ),
        position < confirmed_count && all_canonical(nodes_be@) ==> {
            let nodes = node_values(nodes_be@);
            if siblings_found(
                nodes,
                position as nat,
                confirmed_count as nat,
                TREE_DEPTH as nat,
            ) {
                &&& r is Ok
                &&& r->Ok_0@.len() == TREE_DEPTH
                &&& forall|l: int|
                    0 <= l < TREE_DEPTH ==> (#[trigger] r->Ok_0@[l])@ == sibling_text(
                        sibling_from_archive(
                            nodes,
                            position as nat,
                            confirmed_count as nat,
                            l as nat,
                        )->Ok_0,
                    )
            } else {
                exists|l: nat|
                    l < TREE_DEPTH && siblings_found(
                        nodes,
                        position as nat,
                        confirmed_count as nat,
                        l,
                    ) && (#[trigger] sibling_from_archive(
                        nodes,
                        position as nat,
                        confirmed_count as nat,
                        l,
                    ) matches Err(key) && r == Err::<Vec<String>, _>(
                        TreeError::MissingNode { key },
                    ))
            }
        },
{
    if position >= confirmed_count {
        return Err(TreeError::PositionOutsidePrefix);
    }
    let parsed = match parse_nodes(nodes_be) {
        Ok(parsed) => parsed,
        Err(error) => return Err(error),
    };
    let hasher = TreeHasher::new();
    let ghost nodes = node_values(nodes_be@);
    let mut siblings: Vec<String> = Vec::new();
    let mut level: usize = 0;
    while level < TREE_DEPTH
        invariant
            level <= TREE_DEPTH,
            position < confirmed_count,
            all_canonical(nodes_be@),
            nodes == node_values(nodes_be@),
            parsed_values(parsed@) == nodes,
            siblings@.len() == level,
            siblings_found(nodes, position as nat, confirmed_count as nat, level as nat),
            forall|l: int|
                0 <= l < level ==> (#[trigger] siblings@[l])@ == sibling_text(
                    sibling_from_archive(
                        nodes,
                        position as nat,
                        confirmed_count as nat,
                        l as nat,
                    )->Ok_0,
                ),
        decreases TREE_DEPTH - level,
    {
        let index = sibling_at(position, level);
        let ghost found = sibling_from_archive(
            nodes,
            position as nat,
            confirmed_count as nat,
            level as nat,
        );
        let sibling = match subtree_at_prefix(
            &hasher,
            level as u8,
            index,
            confirmed_count,
            &parsed,
        ) {
            Ok(sibling) => sibling,
            Err(error) => {
                assert(found is Err);
                return Err(error);
            },
        };
        let repr = sibling.to_repr();
        proof {
            lemma_le_bytes_of_value(repr@);
        }
        siblings.push(hex_0x(repr.as_slice()));
        assert(siblings_found(
            nodes,
            position as nat,
            confirmed_count as nat,
            (level + 1) as nat,
        ));
        level = level + 1;
    }
    Ok(siblings)
}

/// The number that the text of a sibling stands for: 32 bytes in hexadecimal, least significant
/// first, with or without `0x` in front; or what is wrong with the text.
pub open spec fn sibling_of_text(text: Seq<char>, level: usize) -> Result<nat, TreeError> {
    let digits = without_0x(text);
    if !is_hex(digits) {
        Err(TreeError::SiblingNotHex { level })
    } else if hex_bytes(digits).len() != 32 {
        Err(TreeError::SiblingLength { level })
    } else if !canonical(hex_bytes(digits)) {
        Err(TreeError::SiblingNotCanonical { level })
    } else {
        Ok(le_value(hex_bytes(digits)))
    }
}

/// Whether the texts of the siblings on the levels below `level` are all in order.
pub open spec fn siblings_readable(texts: Seq<String>, level: nat) -> bool {
    forall|l: int|
        0 <= l < level ==> sibling_of_text((#[trigger] texts[l])@, l as usize) is Ok
}

/// The numbers that the texts of siblings stand for.
pub open spec fn sibling_values(texts: Seq<String>) -> Seq<nat> {
    Seq::new(texts.len(), |l: int| sibling_of_text(texts[l]@, l as usize)->Ok_0)
}

/// The node at `level` that a leaf, its position and its siblings lead up to.
pub open spec fn witness_node(leaf: nat, position: nat, siblings: Seq<nat>, level: nat) -> nat
    decreases level,
{
    if level == 0 {
        leaf
    } else {
        let below = (level - 1) as nat;
        let node = witness_node(leaf, position, siblings, below);
        if bit(position, below) {
            compressed(below, siblings[below as int], node)
        } else {
            compressed(below, node, siblings[below as int])
        }
    }
}

/// The sibling that a text stands for, or what is wrong with the text.
fn parse_sibling(text: &str, level: usize) -> (r: Result<FieldElement, TreeError>)
    ensures
        match sibling_of_text(text@, level) {
            Ok(value) => r is Ok && r->Ok_0@ == value,
            Err(error) => r == Err::<FieldElement, _>(error),
        },
{
    let raw = match hex_decode(trim_0x(text)) {
        Ok(raw) => raw,
        Err(_) => return Err(TreeError::SiblingNotHex { level }),
    };
    if raw.len() != 32 {
        return Err(TreeError::SiblingLength { level });
    }
    match FieldElement::from_repr(word_at(raw.as_slice(), 0)) {
        Some(sibling) => Ok(sibling),
        None => Err(TreeError::SiblingNotCanonical { level }),
    }
}

/// The root that a witness represents, most significant byte first. Comparing it with a known root
/// is what makes a witness trustworthy.
pub fn witness_root_be(leaf_be: [u8; 32], position: u64, siblings_le_hex: &[String]) -> (r: Result<
    [u8; 32],
    TreeError,
>)
    ensures
        siblings_le_hex@.len() != TREE_DEPTH ==> r == Err::<[u8; 32], _>(
            TreeError::SiblingCount { found: siblings_le_hex@.len() as usize },
        ),
        siblings_le_hex@.len() == TREE_DEPTH && be_value(leaf_be@) >= modulus() ==> r == Err::<
            [u8; 32],
            _,
        >(TreeError::NonCanonical),
        siblings_le_hex@.len() == TREE_DEPTH && be_value(leaf_be@) < modulus() ==> {
            if siblings_readable(siblings_le_hex@, TREE_DEPTH as nat) {
                &&& r is Ok
                &&& be_value(r->Ok_0@) == witness_node(
                    be_value(leaf_be@),
                    position as nat,
                    sibling_values(siblings_le_hex@),
                    TREE_DEPTH as nat,
                )
            } else {
                exists|l: int|
                    0 <= l < TREE_DEPTH && siblings_readable(siblings_le_hex@, l as nat) && (
                    sibling_of_text((#[trigger] siblings_le_hex@[l])@, l as usize) matches Err(
                        error,
                    ) && r == Err::<[u8; 32], _>(error))
            }
        },
{
    if siblings_le_hex.len() != TREE_DEPTH {
        return Err(TreeError::SiblingCount { found: siblings_le_hex.len() });
    }
    let mut node = match fr_from_be(leaf_be) {
        Ok(leaf) => leaf,
        Err(error) => return Err(error),
    };
    let hasher = TreeHasher::new();
    let ghost leaf = node@;
    let ghost texts = siblings_le_hex@;
    let mut level: usize = 0;
    while level < TREE_DEPTH
        invariant
            level <= TREE_DEPTH,
            texts == siblings_le_hex@,
            texts.len() == TREE_DEPTH,
            leaf == be_value(leaf_be@),
            leaf < modulus(),
            siblings_readable(texts, level as nat),
            node@ == witness_node(leaf, position as nat, sibling_values(texts), level as nat),
        decreases TREE_DEPTH - level,
    {
        let sibling = match parse_sibling(siblings_le_hex[level].as_str(), level) {
            Ok(sibling) => sibling,
            Err(error) => {
                assert(sibling_of_text(texts[level as int]@, level) is Err);
                return Err(error);
            },
        };
        node = if has_bit(position, level) {
            hasher.compress(level, sibling, node)
        } else {
            hasher.compress(level, node, sibling)
        };
        level = level + 1;
    }
    Ok(fr_to_be(node))
}

/// Whether an archive holds, under each of `keys`, the node of the tree of `leaves`.
pub open spec fn archives(
    nodes: Map<MerkleNodeKey, nat>,
    keys: Set<MerkleNodeKey>,
    leaves: Seq<nat>,
) -> bool {
    forall|key: MerkleNodeKey| #[trigger]
        keys.contains(key) ==> nodes.contains_key(key) && nodes[key] == subtree(
            leaves,
            key.level as nat,
            key.index as nat,
        )
}

/// A node that is put together from an archive of its cover is the node of the tree.
pub proof fn law_archive_gives_node(
    nodes: Map<MerkleNodeKey, nat>,
    leaves: Seq<nat>,
    level: nat,
    index: nat,
)
    requires
        level <= TREE_DEPTH,
        (index + 1) * pow2(level) <= 0x1_0000_0000_0000_0000,
        archives(nodes, complete_cover(level, index, leaves.len()), leaves),
    ensures
        node_from_archive(nodes, level, index, leaves.len()) == Ok::<nat, MerkleNodeKey>(
            subtree(leaves, level, index),
        ),
    decreases level,
{
    let count = leaves.len();
    lemma_pow2_pos(level);
    if is_vacant(level, index, count) {
        lemma_vacant_subtree(leaves, level, index);
    } else if is_complete(level, index, count) {
        let power = pow2(level);
        assert(index < 0x1_0000_0000_0000_0000) by (nonlinear_arith)
            requires
                (index + 1) * power <= 0x1_0000_0000_0000_0000,
                power > 0,
        ;
        assert(complete_cover(level, index, count).contains(key_of(level, index)));
    } else if level == 0 {
        lemma2_to64();
    } else {
        let below = (level - 1) as nat;
        lemma_children(level, index);
        let left = complete_cover(below, 2 * index, count);
        let right = complete_cover(below, 2 * index + 1, count);
        assert forall|key: MerkleNodeKey| left.contains(key) || right.contains(key) implies
            complete_cover(level, index, count).contains(key) by {}
        law_archive_gives_node(nodes, leaves, below, 2 * index);
        law_archive_gives_node(nodes, leaves, below, 2 * index + 1);
    }
}

/// Every node of a cover is complete, so that it has been handed out for archiving.
proof fn lemma_cover_is_complete(level: nat, index: nat, count: nat, key: MerkleNodeKey)
    requires
        level <= TREE_DEPTH,
        (index + 1) * pow2(level) <= 0x1_0000_0000_0000_0000,
        complete_cover(level, index, count).contains(key),
    ensures
        is_complete(key.level as nat, key.index as nat, count),
        key.level <= level,
    decreases level,
{
    lemma_pow2_pos(level);
    if is_vacant(level, index, count) {
    } else if is_complete(level, index, count) {
        let power = pow2(level);
        assert(index < 0x1_0000_0000_0000_0000) by (nonlinear_arith)
            requires
                (index + 1) * power <= 0x1_0000_0000_0000_0000,
                power > 0,
        ;
    } else if level == 0 {
    } else {
        let below = (level - 1) as nat;
        lemma_children(level, index);
        if complete_cover(below, 2 * index, count).contains(key) {
            lemma_cover_is_complete(below, 2 * index, count, key);
        } else {
            lemma_cover_is_complete(below, 2 * index + 1, count, key);
        }
    }
}

/// A witness needs complete nodes of the confirmed prefix only.
pub proof fn law_required_nodes_are_complete(
    position: nat,
    count: nat,
    levels: nat,
    key: MerkleNodeKey,
)
    requires
        position < 0x1_0000_0000_0000_0000,
        levels <= TREE_DEPTH,
        cover_of_siblings(position, count, levels).contains(key),
    ensures
        is_complete(key.level as nat, key.index as nat, count),
        key.level < levels,
    decreases levels,
{
    if levels > 0 {
        let level = (levels - 1) as nat;
        if cover_of_siblings(position, count, level).contains(key) {
            law_required_nodes_are_complete(position, count, level, key);
        } else {
            lemma_sibling_in_range(position, level);
            lemma_cover_is_complete(level, sibling_index(position, level), count, key);
        }
    }
}

/// An archive of all that a witness needs holds what each of its siblings needs.
proof fn lemma_archives_cover(
    nodes: Map<MerkleNodeKey, nat>,
    leaves: Seq<nat>,
    position: nat,
    level: nat,
    levels: nat,
)
    requires
        level < levels,
        archives(nodes, cover_of_siblings(position, leaves.len(), levels), leaves),
    ensures
        archives(
            nodes,
            complete_cover(level, sibling_index(position, level), leaves.len()),
            leaves,
        ),
    decreases levels,
{
    let last = (levels - 1) as nat;
    let all = cover_of_siblings(position, leaves.len(), levels);
    let lower = cover_of_siblings(position, leaves.len(), last);
    let here = complete_cover(last, sibling_index(position, last), leaves.len());
    assert forall|key: MerkleNodeKey|
        lower.contains(key) || here.contains(key) implies all.contains(key) by {}
    if level < last {
        lemma_archives_cover(nodes, leaves, position, level, last);
    }
}

/// The node of a tree above a leaf is what the leaf and its siblings lead up to.
pub proof fn law_siblings_lead_to_node(
    leaves: Seq<nat>,
    position: nat,
    siblings: Seq<nat>,
    level: nat,
)
    requires
        level <= siblings.len(),
        forall|l: int|
            0 <= l < siblings.len() ==> #[trigger] siblings[l] == subtree(
                leaves,
                l as nat,
                sibling_index(position, l as nat),
            ),
    ensures
        witness_node(leaf_at(leaves, position as int), position, siblings, level) == subtree(
            leaves,
            level,
            position / pow2(level),
        ),
    decreases level,
{
    if level == 0 {
        lemma2_to64();
        assert(position / 1 == position);
    } else {
        let below = (level - 1) as nat;
        law_siblings_lead_to_node(leaves, position, siblings, below);
        lemma_ancestor(position, below);
        assert(siblings[below as int] == subtree(leaves, below, sibling_index(position, below)));
    }
}

/// The text of a sibling is read back as the sibling.
pub proof fn law_sibling_text_round_trip(value: nat, level: usize)
    requires
        value < modulus(),
    ensures
        sibling_of_text(sibling_text(value), level) == Ok::<nat, TreeError>(value),
{
    lemma_modulus_fits();
    lemma_le_value_of_bytes(value, 32);
    law_hex_round_trip(le_bytes(value, 32));
}

/// A witness made from an archive of the nodes that it requires is complete, can be read back, and
/// leads from the leaf to the root of the tree.
pub proof fn law_witness_proves_membership(
    leaves: Seq<nat>,
    position: nat,
    nodes: Map<MerkleNodeKey, nat>,
    witness: Seq<String>,
)
    requires
        position < leaves.len() <= TREE_CAPACITY,
        forall|i: int| 0 <= i < leaves.len() ==> #[trigger] leaves[i] < modulus(),
        archives(nodes, cover_of_siblings(position, leaves.len(), TREE_DEPTH as nat), leaves),
        witness.len() == TREE_DEPTH,
        forall|l: int|
            0 <= l < TREE_DEPTH ==> (#[trigger] witness[l])@ == sibling_text(
                sibling_from_archive(nodes, position, leaves.len(), l as nat)->Ok_0,
            ),
    ensures
        siblings_found(nodes, position, leaves.len(), TREE_DEPTH as nat),
        siblings_readable(witness, TREE_DEPTH as nat),
        witness_node(
            leaves[position as int],
            position,
            sibling_values(witness),
            TREE_DEPTH as nat,
        ) == tree_root(leaves),
{
    let count = leaves.len();
    let depth = TREE_DEPTH as nat;
    assert forall|l: nat| l < depth implies #[trigger] sibling_from_archive(
        nodes,
        position,
        count,
        l,
    ) == Ok::<nat, MerkleNodeKey>(subtree(leaves, l, sibling_index(position, l))) by {
        lemma_archives_cover(nodes, leaves, position, l, depth);
        lemma_sibling_in_range(position, l);
        law_archive_gives_node(nodes, leaves, l, sibling_index(position, l));
    }
    assert forall|l: int| 0 <= l < depth implies sibling_of_text(
        (#[trigger] witness[l])@,
        l as usize,
    ) == Ok::<nat, TreeError>(
        subtree(leaves, l as nat, sibling_index(position, l as nat)),
    ) by {
        assert(sibling_from_archive(nodes, position, count, l as nat) is Ok);
        lemma_subtree_below_modulus(leaves, l as nat, sibling_index(position, l as nat));
        law_sibling_text_round_trip(
            subtree(leaves, l as nat, sibling_index(position, l as nat)),
            l as usize,
        );
    }
    assert forall|l: int| 0 <= l < depth implies #[trigger] sibling_values(witness)[l] == subtree(
        leaves,
        l as nat,
        sibling_index(position, l as nat),
    ) by {
        assert(sibling_of_text(witness[l]@, l as usize) is Ok);
    }
    law_siblings_lead_to_node(leaves, position, sibling_values(witness), depth);
    lemma2_to64();
    assert(position / pow2(depth) == 0) by (nonlinear_arith)
        requires
            position < pow2(depth),
    ;
}

/// Whether an archive holds every complete node of the tree of `leaves`.
pub open spec fn holds_complete_nodes(
    nodes: Map<MerkleNodeKey, nat>,
    leaves: Seq<nat>,
) -> bool {
    forall|key: MerkleNodeKey|
        key.level <= TREE_DEPTH && is_complete(key.level as nat, key.index as nat, leaves.len())
            ==> #[trigger] nodes.contains_key(key) && nodes[key] == subtree(
            leaves,
            key.level as nat,
            key.index as nat,
        )
}

/// An archive with nodes added to it, one after the other.
pub open spec fn with_nodes(nodes: Map<MerkleNodeKey, nat>, added: Seq<MerkleNode>) -> Map<
    MerkleNodeKey,
    nat,
>
    decreases added.len(),
{
    if added.len() == 0 {
        nodes
    } else {
        with_nodes(nodes, added.drop_last()).insert(
            added.last().key,
            be_value(added.last().hash_be@),
        )
    }
}

/// Nodes on different levels do not displace each other.
proof fn lemma_with_nodes(
    nodes: Map<MerkleNodeKey, nat>,
    added: Seq<MerkleNode>,
    key: MerkleNodeKey,
)
    requires
        forall|k: int| 0 <= k < added.len() ==> (#[trigger] added[k]).key.level == k,
    ensures
        ({
            let all = with_nodes(nodes, added);
            if key.level < added.len() && added[key.level as int].key == key {
                all.contains_key(key) && all[key] == be_value(added[key.level as int].hash_be@)
            } else {
                &&& all.contains_key(key) == nodes.contains_key(key)
                &&& nodes.contains_key(key) ==> all[key] == nodes[key]
            }
        }),
    decreases added.len(),
{
    if added.len() > 0 {
        assert forall|k: int| 0 <= k < added.drop_last().len() implies (
        #[trigger] added.drop_last()[k]).key.level == k by {
            assert(added.drop_last()[k] == added[k]);
        }
        lemma_with_nodes(nodes, added.drop_last(), key);
        assert(added.last().key.level == added.len() - 1);
    }
}

/// The tree without leaves has no complete node, so that any archive holds all of them.
pub proof fn law_empty_tree_needs_no_archive(nodes: Map<MerkleNodeKey, nat>)
    ensures
        holds_complete_nodes(nodes, seq![]),
{
    assert forall|key: MerkleNodeKey| key.level <= TREE_DEPTH implies !is_complete(
        key.level as nat,
        key.index as nat,
        0,
    ) by {
        let power = pow2(key.level as nat);
        let index = key.index as nat;
        lemma_pow2_pos(key.level as nat);
        assert((index + 1) * power > 0) by (nonlinear_arith)
            requires
                power > 0,
        ;
    }
}

/// An archive that holds every complete node of a tree, and is added what an append hands out,
/// holds every complete node of the tree with the leaf appended.
pub proof fn law_archive_keeps_up(
    nodes: Map<MerkleNodeKey, nat>,
    leaves: Seq<nat>,
    leaf: nat,
    added: Seq<MerkleNode>,
)
    requires
        leaves.len() < TREE_CAPACITY,
        holds_complete_nodes(nodes, leaves),
        are_new_nodes(added, frontier_of(leaves), leaves.len(), leaf),
    ensures
        holds_complete_nodes(with_nodes(nodes, added), leaves.push(leaf)),
{
    let count = leaves.len();
    let longer = leaves.push(leaf);
    let all = with_nodes(nodes, added);
    assert forall|key: MerkleNodeKey|
        key.level <= TREE_DEPTH && is_complete(
            key.level as nat,
            key.index as nat,
            longer.len(),
        ) implies #[trigger] all.contains_key(key) && all[key] == subtree(
        longer,
        key.level as nat,
        key.index as nat,
    ) by {
        let level = key.level as nat;
        let index = key.index as nat;
        lemma_with_nodes(nodes, added, key);
        law_append_hands_out_completed_nodes(count, level, index);
        if is_complete(level, index, count) {
            assert(nodes.contains_key(key));
            law_complete_node_is_immutable(leaves, seq![leaf], level, index);
            assert(leaves + seq![leaf] =~= longer);
            if level < added.len() && added[level as int].key == key {
                assert(level <= trailing_ones(count) && index == count / pow2(level));
            }
        } else {
            assert(added[level as int].key == key);
            lemma_path_node_is_subtree(leaves, leaf, level);
        }
    }
}

/// An archive of every complete node holds all that any witness needs.
pub proof fn law_complete_archive_serves_witnesses(
    nodes: Map<MerkleNodeKey, nat>,
    leaves: Seq<nat>,
    position: nat,
)
    requires
        position < leaves.len() <= TREE_CAPACITY,
        holds_complete_nodes(nodes, leaves),
    ensures
        archives(nodes, cover_of_siblings(position, leaves.len(), TREE_DEPTH as nat), leaves),
{
    let keys = cover_of_siblings(position, leaves.len(), TREE_DEPTH as nat);
    assert forall|key: MerkleNodeKey| #[trigger] keys.contains(key) implies nodes.contains_key(key)
        && nodes[key] == subtree(leaves, key.level as nat, key.index as nat) by {
        law_required_nodes_are_complete(position, leaves.len(), TREE_DEPTH as nat, key);
    }
}

/// The sibling of an ancestor is the other child of the next ancestor.
pub proof fn law_sibling(position: nat, level: nat)
    ensures
        sibling_index(position, level) != position / pow2(level),
        sibling_index(position, level) / 2 == position / pow2(level + 1),
{
    lemma_ancestor(position, level);
}

/// A node under another node covers a part of its leaves.
proof fn lemma_under(below: nat, node: nat, level: nat, index: nat)
    requires
        below <= level,
        node / pow2((level - below) as nat) == index,
    ensures
        index * pow2(level) <= node * pow2(below),
        (node + 1) * pow2(below) <= (index + 1) * pow2(level),
{
    let gap = (level - below) as nat;
    lemma_ancestor(node, gap);
    vstd::arithmetic::power2::lemma_pow2_adds(below, gap);
    let power = pow2(below);
    let blocks = pow2(gap);
    assert(index * (power * blocks) == (index * blocks) * power) by (nonlinear_arith);
    assert((index + 1) * (power * blocks) == ((index + 1) * blocks) * power) by (nonlinear_arith);
    assert((index * blocks) * power <= node * power) by (nonlinear_arith)
        requires
            index * blocks <= node,
    ;
    assert((node + 1) * power <= ((index + 1) * blocks) * power) by (nonlinear_arith)
        requires
            node + 1 <= (index + 1) * blocks,
    ;
}

/// A node is in a cover exactly if it is under the covered node and complete, and no complete node
/// under the covered node is above it.
proof fn lemma_cover_is_exact(level: nat, index: nat, count: nat, key: MerkleNodeKey)
    requires
        level <= TREE_DEPTH,
        (index + 1) * pow2(level) <= 0x1_0000_0000_0000_0000,
    ensures
        complete_cover(level, index, count).contains(key) <==> {
            &&& key.level <= level
            &&& key.index as nat / pow2((level - key.level) as nat) == index
            &&& is_complete(key.level as nat, key.index as nat, count)
            &&& key.level == level || !is_complete(
                (key.level + 1) as nat,
                key.index as nat / 2,
                count,
            )
        },
    decreases level,
{
    let node = key.index as nat;
    lemma2_to64();
    assert(node / 1 == node);
    lemma_pow2_pos(level);
    let power = pow2(level);
    assert(index < 0x1_0000_0000_0000_0000) by (nonlinear_arith)
        requires
            (index + 1) * power <= 0x1_0000_0000_0000_0000,
            power > 0,
    ;
    if key.level <= level {
        let gap = (level - key.level) as nat;
        if node / pow2(gap) == index {
            lemma_under(key.level as nat, node, level, index);
            assert(node * pow2(key.level as nat) < (node + 1) * pow2(key.level as nat))
                by (nonlinear_arith)
                requires
                    pow2(key.level as nat) > 0,
            {
            }
        }
    }
    if is_vacant(level, index, count) {
    } else if is_complete(level, index, count) {
        if key.level < level && node / pow2((level - key.level) as nat) == index {
            let gap = (level - key.level - 1) as nat;
            lemma_halves(node, gap);
            lemma_under((key.level + 1) as nat, node / 2, level, index);
        }
    } else if level == 0 {
        assert((index + 1) * power == index * power + 1) by (nonlinear_arith)
            requires
                power == 1,
        ;
    } else {
        let below = (level - 1) as nat;
        lemma_children(level, index);
        lemma_cover_is_exact(below, 2 * index, count, key);
        lemma_cover_is_exact(below, 2 * index + 1, count, key);
        if key.level <= below {
            lemma_ancestor(node, (below - key.level) as nat);
            if key.level == below && node / 2 == index {
                assert(!is_complete((key.level + 1) as nat, node / 2, count));
            }
        }
    }
}

/// Halving first or last is the same.
proof fn lemma_halves(node: nat, gap: nat)
    ensures
        (node / 2) / pow2(gap) == node / pow2(gap + 1),
{
    lemma_pow2_pos(gap);
    vstd::arithmetic::power2::lemma_pow2_unfold(gap + 1);
    vstd::arithmetic::div_mod::lemma_div_denominator(node as int, 2, pow2(gap) as int);
}

/// A node is needed for the siblings of some levels exactly if it is in the cover of one of them.
proof fn lemma_cover_of_siblings(position: nat, count: nat, levels: nat, key: MerkleNodeKey)
    ensures
        cover_of_siblings(position, count, levels).contains(key) <==> exists|level: nat|
            level < levels && (#[trigger] complete_cover(
                level,
                sibling_index(position, level),
                count,
            )).contains(key),
    decreases levels,
{
    if levels > 0 {
        let last = (levels - 1) as nat;
        lemma_cover_of_siblings(position, count, last, key);
    }
}

/// Going up from a node that is not above a leaf, some ancestor of it is the sibling of an ancestor
/// of the leaf.
proof fn lemma_meets_sibling(position: nat, level: nat, node: nat, up: nat) -> (found: nat)
    requires
        level + up < 32,
        node / pow2(up) != position / pow2(level + up),
        node / pow2((32 - level) as nat) == position / pow2(32),
    ensures
        up <= found,
        level + found < 32,
        node / pow2(found) == sibling_index(position, level + found),
        found > up ==> node / pow2(up + 1) != position / pow2(level + up + 1),
    decreases 32 - up,
{
    lemma_ancestor(node, up);
    lemma_ancestor(position, level + up);
    if node / pow2(up + 1) == position / pow2(level + up + 1) {
        up
    } else {
        lemma_meets_sibling(position, level, node, up + 1)
    }
}

/// The nodes that a witness requires are exactly the complete nodes that are not above its leaf,
/// and whose parent is above its leaf or is not complete: the fewest that say all about the other
/// leaves.
pub proof fn law_required_nodes(position: nat, count: nat, key: MerkleNodeKey)
    requires
        position < count <= 0x1_0000_0000,
    ensures
        cover_of_siblings(position, count, 32).contains(key) <==> {
            &&& key.level < 32
            &&& is_complete(key.level as nat, key.index as nat, count)
            &&& key.index != position / pow2(key.level as nat)
            &&& key.index as nat / 2 == position / pow2((key.level + 1) as nat) || !is_complete(
                (key.level + 1) as nat,
                key.index as nat / 2,
                count,
            )
        },
{
    let node = key.index as nat;
    let low = key.level as nat;
    lemma_cover_of_siblings(position, count, 32, key);
    lemma2_to64();
    assert(node / 1 == node);
    assert(node / pow2(0) == node);
    if cover_of_siblings(position, count, 32).contains(key) {
        let level = choose|level: nat|
            level < 32 && (#[trigger] complete_cover(
                level,
                sibling_index(position, level),
                count,
            )).contains(key);
        lemma_sibling_in_range(position, level);
        lemma_cover_is_exact(level, sibling_index(position, level), count, key);
        law_sibling(position, level);
        if node == position / pow2(low) {
            lemma_ancestor_of_ancestor(position, low, (level - low) as nat);
        }
    }
    if low < 32 && is_complete(low, node, count) && node != position / pow2(low) && (node / 2
        == position / pow2(low + 1) || !is_complete(low + 1, node / 2, count)) {
        let top = pow2((32 - low) as nat);
        vstd::arithmetic::power2::lemma_pow2_adds(low, (32 - low) as nat);
        let power = pow2(low);
        lemma_pow2_pos(low);
        assert(node < top) by (nonlinear_arith)
            requires
                (node + 1) * power <= power * top,
                power > 0,
        ;
        assert(node / top == 0) by (nonlinear_arith)
            requires
                node < top,
        ;
        assert(position / pow2(32) == 0) by (nonlinear_arith)
            requires
                position < pow2(32),
        ;
        let up = lemma_meets_sibling(position, low, node, 0);
        let level = low + up;
        lemma_halves(node, 0);
        lemma_sibling_in_range(position, level);
        lemma_cover_is_exact(level, sibling_index(position, level), count, key);
        assert(complete_cover(level, sibling_index(position, level), count).contains(key));
    }
}

/// The ancestor of an ancestor is an ancestor.
proof fn lemma_ancestor_of_ancestor(position: nat, level: nat, up: nat)
    ensures
        (position / pow2(level)) / pow2(up) == position / pow2(level + up),
{
    lemma_pow2_pos(level);
    lemma_pow2_pos(up);
    vstd::arithmetic::power2::lemma_pow2_adds(level, up);
    vstd::arithmetic::div_mod::lemma_div_denominator(
        position as int,
        pow2(level) as int,
        pow2(up) as int,
    );
}

/// Required nodes come by level, and on one level from the left, none twice.
pub proof fn law_required_order(keys: Seq<MerkleNodeKey>, i: int, j: int)
    requires
        ascending(keys),
        0 <= i < j < keys.len(),
    ensures
        keys[i].level <= keys[j].level,
        keys[i].level == keys[j].level ==> keys[i].index < keys[j].index,
{
    assert(key_before(keys[i], keys[j]));
}

/// A node is put together from what is under it: an empty subtree has its own root, a complete node
/// must be archived, and any other node is the Poseidon hash of its level and of its two children;
/// what is missing first, from the left, is named.
pub proof fn law_node_from_archive(
    nodes: Map<MerkleNodeKey, nat>,
    level: nat,
    index: nat,
    count: nat,
)
    requires
        level <= 32,
        (index + 1) * pow2(level) <= 0x1_0000_0000_0000_0000,
    ensures
        is_vacant(level, index, count) ==> node_from_archive(nodes, level, index, count) == Ok::<
            nat,
            MerkleNodeKey,
        >(empty_root(level)),
        !is_vacant(level, index, count) && is_complete(level, index, count) ==> ({
            let key = MerkleNodeKey { level: level as u8, index: index as u64 };
            node_from_archive(nodes, level, index, count) == if nodes.contains_key(key) {
                Ok::<nat, MerkleNodeKey>(nodes[key])
            } else {
                Err(key)
            }
        }),
        !is_vacant(level, index, count) && !is_complete(level, index, count) ==> level > 0 && ({
            let left = node_from_archive(nodes, (level - 1) as nat, 2 * index, count);
            let right = node_from_archive(nodes, (level - 1) as nat, 2 * index + 1, count);
            let node = node_from_archive(nodes, level, index, count);
            &&& left is Err ==> node == left
            &&& left is Ok && right is Err ==> node == right
            &&& left is Ok && right is Ok ==> node == Ok::<nat, MerkleNodeKey>(
                poseidon((level - 1) as nat, left->Ok_0, right->Ok_0),
            )
        }),
{
    lemma2_to64();
    if level == 0 {
        let power = pow2(level);
        assert((index + 1) * power == index * power + 1) by (nonlinear_arith)
            requires
                power == 1,
        ;
    }
}

/// What is missing for a sibling is a required node that is not archived.
pub proof fn law_missing_node(
    nodes: Map<MerkleNodeKey, nat>,
    level: nat,
    index: nat,
    count: nat,
)
    requires
        level <= 32,
        (index + 1) * pow2(level) <= 0x1_0000_0000_0000_0000,
    ensures
        node_from_archive(nodes, level, index, count) matches Err(key) ==> complete_cover(
            level,
            index,
            count,
        ).contains(key) && !nodes.contains_key(key),
        (forall|key: MerkleNodeKey| #[trigger]
            complete_cover(level, index, count).contains(key) ==> nodes.contains_key(key))
            ==> node_from_archive(nodes, level, index, count) is Ok,
    decreases level,
{
    let all = complete_cover(level, index, count);
    if is_vacant(level, index, count) {
    } else if is_complete(level, index, count) {
        assert(all.contains(key_of(level, index)));
    } else if level > 0 {
        let below = (level - 1) as nat;
        lemma_children(level, index);
        law_missing_node(nodes, below, 2 * index, count);
        law_missing_node(nodes, below, 2 * index + 1, count);
        let left = complete_cover(below, 2 * index, count);
        let right = complete_cover(below, 2 * index + 1, count);
        assert(all == left.union(right));
        if forall|key: MerkleNodeKey| #[trigger] all.contains(key) ==> nodes.contains_key(key) {
            assert forall|key: MerkleNodeKey| #[trigger] left.contains(key) implies
                nodes.contains_key(key) by {
                assert(all.contains(key));
            }
            assert forall|key: MerkleNodeKey| #[trigger] right.contains(key) implies
                nodes.contains_key(key) by {
                assert(all.contains(key));
            }
        }
    }
}

/// The siblings of a witness are nodes of the confirmed prefix next to the path of the leaf.
pub proof fn law_sibling_from_archive(
    nodes: Map<MerkleNodeKey, nat>,
    position: nat,
    count: nat,
    level: nat,
    index: nat,
)
    requires
        index / 2 == position / pow2(level + 1),
        index != position / pow2(level),
    ensures
        sibling_from_archive(nodes, position, count, level) == node_from_archive(
            nodes,
            level,
            index,
            count,
        ),
{
    lemma_ancestor(position, level);
}

/// The text of a sibling is `0x` and 64 digits that spell its 32 bytes, the least significant one
/// first.
pub proof fn law_sibling_text(value: nat)
    requires
        value < modulus(),
    ensures
        sibling_text(value).len() == 66,
        sibling_text(value)[0] == '0',
        sibling_text(value)[1] == 'x',
        is_hex(sibling_text(value).skip(2)),
        hex_bytes(sibling_text(value).skip(2)).len() == 32,
        le_value(hex_bytes(sibling_text(value).skip(2))) == value,
{
    lemma_modulus_fits();
    lemma_le_value_of_bytes(value, 32);
    law_hex_round_trip(le_bytes(value, 32));
    assert(sibling_text(value).skip(2) =~= hex_text(le_bytes(value, 32)));
}

/// The text of a sibling is read as the number that its 32 bytes spell, the least significant one
/// first, and refused for the first of these reasons: it is not hexadecimal, it is not 32 bytes
/// long, or it is no field element.
pub proof fn law_sibling_of_text(text: Seq<char>, level: usize)
    ensures
        ({
            let digits = without_0x(text);
            let bytes = hex_bytes(digits);
            let r = sibling_of_text(text, level);
            &&& r is Ok <==> is_hex(digits) && digits.len() == 64 && le_value(bytes) < modulus()
            &&& r is Ok ==> r == Ok::<nat, TreeError>(le_value(bytes))
            &&& !is_hex(digits) ==> r == Err::<nat, _>(TreeError::SiblingNotHex { level })
            &&& is_hex(digits) && digits.len() != 64 ==> r == Err::<nat, _>(
                TreeError::SiblingLength { level },
            )
            &&& is_hex(digits) && digits.len() == 64 && le_value(bytes) >= modulus() ==> r
                == Err::<nat, _>(TreeError::SiblingNotCanonical { level })
        }),
{
}

/// A witness leads up from its leaf: on each level the node so far is hashed with the sibling of
/// that level, which is on its left where the bit of the position is set, and on its right where
/// it is not.
pub proof fn law_witness_node(leaf: nat, position: nat, siblings: Seq<nat>, level: nat)
    ensures
        witness_node(leaf, position, siblings, 0) == leaf,
        bit(position, level) ==> witness_node(leaf, position, siblings, level + 1) == poseidon(
            level,
            siblings[level as int],
            witness_node(leaf, position, siblings, level),
        ),
        !bit(position, level) ==> witness_node(leaf, position, siblings, level + 1) == poseidon(
            level,
            witness_node(leaf, position, siblings, level),
            siblings[level as int],
        ),
{
}

/// The archive is read word by word: it is in order exactly if every hash in it is a field element,
/// and then it stands for the numbers that its hashes spell, under the same keys.
pub proof fn law_archive_values(nodes: Map<MerkleNodeKey, [u8; 32]>, key: MerkleNodeKey)
    ensures
        all_canonical(nodes) && nodes.contains_key(key) ==> be_value(nodes[key]@) < modulus(),
        nodes.contains_key(key) && be_value(nodes[key]@) >= modulus() ==> !all_canonical(nodes),
        !all_canonical(nodes) ==> exists|bad: MerkleNodeKey| #[trigger]
            nodes.contains_key(bad) && be_value(nodes[bad]@) >= modulus(),
        node_values(nodes).contains_key(key) <==> nodes.contains_key(key),
        nodes.contains_key(key) ==> node_values(nodes)[key] == be_value(nodes[key]@),
{
}

/// The texts of siblings are read each on its own level.
pub proof fn law_sibling_values(texts: Seq<String>, level: int)
    requires
        0 <= level < texts.len() <= 32,
    ensures
        sibling_values(texts).len() == texts.len(),
        siblings_readable(texts, texts.len()) ==> sibling_of_text(texts[level]@, level as usize)
            == Ok::<nat, TreeError>(sibling_values(texts)[level]),
        sibling_of_text(texts[level]@, level as usize) is Err ==> !siblings_readable(
            texts,
            texts.len(),
        ),
{
}

/// A witness can be made level by level: up to one more level exactly if up to this one, and the
/// sibling of this one is found.
pub proof fn law_siblings_found(
    nodes: Map<MerkleNodeKey, nat>,
    position: nat,
    count: nat,
    level: nat,
)
    ensures
        siblings_found(nodes, position, count, 0),
        siblings_found(nodes, position, count, level + 1) <==> siblings_found(
            nodes,
            position,
            count,
            level,
        ) && sibling_from_archive(nodes, position, count, level) is Ok,
{
    if siblings_found(nodes, position, count, level + 1) {
        assert(sibling_from_archive(nodes, position, count, level) is Ok);
    }
}

} // verus!
