use ff::{Field, PrimeField};
use halo2_poseidon::{generate_constants, ConstantLength, Mds};
use halo2curves::bn256::Fr;
use pool_indexer::batch::{BatchLimits, CmxConfirmWitnessInput};
use pool_indexer::builder::{frontier_from_leaves, StreamingFrontierBuilder};
use pool_indexer::error::TreeError;
use pool_indexer::field::{fr_from_be, fr_to_be, FieldElement};
use pool_indexer::frontier::{CompactFrontier, DOMAIN_FRONTIER};
use pool_indexer::merkle::{merkle_compress, MerkleNode, MerkleNodeKey, TREE_DEPTH};
use pool_indexer::poseidon::{poseidon_constants, poseidon_pair, Bn254PoseidonMerkleSpec};
use pool_indexer::witness::{required_witness_nodes, witness_from_nodes, witness_root_be, NodeMap};
use std::collections::HashMap;

fn leaf(value: u64) -> [u8; 32] {
    let mut encoded = [0u8; 32];
    encoded[24..].copy_from_slice(&value.to_be_bytes());
    encoded
}

fn element(value: Fr) -> FieldElement {
    FieldElement::from_repr(value.to_repr().into()).unwrap()
}

fn be(value: Fr) -> [u8; 32] {
    let mut bytes: [u8; 32] = value.to_repr().into();
    bytes.reverse();
    bytes
}

fn number(be: [u8; 32]) -> Fr {
    let mut bytes = be;
    bytes.reverse();
    Fr::from_repr(bytes.into()).unwrap()
}

fn decimal(value: Fr) -> String {
    ethabi::Uint::from_big_endian(&be(value)).to_string()
}

/// A plain tree over plain field arithmetic.
struct Reference {
    constants: Vec<[Fr; 3]>,
    mds: Mds<Fr, 3>,
    empty: Vec<Fr>,
    leaves: Vec<Fr>,
    filled: Vec<Fr>,
    root: Fr,
}

impl Reference {
    fn new() -> Reference {
        let (constants, mds, _) = generate_constants::<Fr, Bn254PoseidonMerkleSpec, 3, 2>();
        let mut reference = Reference {
            constants,
            mds,
            empty: vec![Fr::ZERO],
            leaves: vec![],
            filled: vec![Fr::ZERO; TREE_DEPTH],
            root: Fr::ZERO,
        };
        for level in 0..TREE_DEPTH {
            let below = reference.empty[level];
            let above = reference.hash(level as u64, below, below);
            reference.empty.push(above);
        }
        reference.root = reference.empty[TREE_DEPTH];
        reference
    }

    fn permute(&self, state: [Fr; 3]) -> [Fr; 3] {
        let mut state = state;
        for (round, constants) in self.constants.iter().enumerate() {
            for i in 0..3 {
                state[i] += constants[i];
                if i == 0 || round < 4 || round >= 60 {
                    let square = state[i] * state[i];
                    state[i] *= square * square;
                }
            }
            let mut mixed = [Fr::ZERO; 3];
            for row in 0..3 {
                for column in 0..3 {
                    mixed[row] += self.mds[row][column] * state[column];
                }
            }
            state = mixed;
        }
        state
    }

    fn hash(&self, domain: u64, left: Fr, right: Fr) -> Fr {
        let first = self.permute([Fr::from(domain), left, Fr::from_u128(3u128 << 64)]);
        self.permute([first[0] + right, first[1], first[2]])[0]
    }

    fn insert_be(&mut self, leaf_be: [u8; 32]) {
        let index = self.leaves.len();
        let mut node = number(leaf_be);
        self.leaves.push(node);
        for level in 0..TREE_DEPTH {
            if (index >> level) & 1 == 0 {
                self.filled[level] = node;
                node = self.hash(level as u64, node, self.empty[level]);
            } else {
                node = self.hash(level as u64, self.filled[level], node);
            }
        }
        self.root = node;
    }

    /// The node of the tree of the first `count` leaves, by its definition.
    fn node(&self, level: usize, index: usize, count: usize) -> Fr {
        if (index << level) >= count {
            self.empty[level]
        } else if level == 0 {
            self.leaves[index]
        } else {
            let left = self.node(level - 1, 2 * index, count);
            let right = self.node(level - 1, 2 * index + 1, count);
            self.hash(level as u64 - 1, left, right)
        }
    }

    fn frontier_commit(&self) -> Fr {
        let mut commitment = Fr::ZERO;
        for slot in &self.filled {
            commitment = self.hash(DOMAIN_FRONTIER, commitment, *slot);
        }
        commitment
    }

    fn siblings(&self, position: usize, count: usize) -> Vec<String> {
        (0..TREE_DEPTH)
            .map(|level| {
                let sibling = self.node(level, (position >> level) ^ 1, count);
                format!("0x{}", hex::encode(<[u8; 32]>::from(sibling.to_repr())))
            })
            .collect()
    }

    fn plan_batch(&mut self, leaves: &[[u8; 32]], max_batch: usize) -> CmxConfirmWitnessInput {
        let old_root = decimal(self.root);
        let old_frontier_commit = decimal(self.frontier_commit());
        let start = self.leaves.len();
        let filled_start = self.filled.iter().map(|slot| decimal(*slot)).collect();
        let mut cmxs: Vec<String> = vec![];
        for leaf in leaves {
            self.insert_be(*leaf);
            cmxs.push(decimal(number(*leaf)));
        }
        cmxs.resize(max_batch, "0".into());
        CmxConfirmWitnessInput {
            old_root,
            new_root: decimal(self.root),
            j: leaves.len().to_string(),
            start_idx: start.to_string(),
            old_frontier_commit,
            new_frontier_commit: decimal(self.frontier_commit()),
            cmxs,
            filled_start,
        }
    }
}

#[test]
fn allocation_free_poseidon_matches_privacy_core() {
    for domain in [0u64, 1, 31, DOMAIN_FRONTIER] {
        for value in 0..8u64 {
            let left = Fr::from(value);
            let right = Fr::from(value + 17);
            let expected = halo2_poseidon::Hash::<Fr, Bn254PoseidonMerkleSpec, ConstantLength<3>, 3, 2>::init()
                .hash([Fr::from(domain), left, right]);
            assert_eq!(
                poseidon_pair(domain, element(left), element(right)),
                element(expected)
            );
            if domain <= u8::MAX as u64 {
                assert_eq!(
                    merkle_compress(domain as u8, element(left), element(right)),
                    element(expected)
                );
            }
        }
    }
}

#[test]
fn compact_tree_state_has_a_fixed_depth_only_footprint() {
    assert!(std::mem::size_of::<CompactFrontier>() <= 1_152);
    assert!(std::mem::size_of::<StreamingFrontierBuilder>() <= 1_320);
    assert_eq!(std::mem::size_of::<Vec<MerkleNode>>(), 24);
}

#[test]
fn compact_frontier_matches_reference_for_every_prefix() {
    let mut compact = CompactFrontier::new();
    let mut reference = Reference::new();
    for value in 1..=64u64 {
        compact.append_be(leaf(value)).unwrap();
        reference.insert_be(leaf(value));
        assert_eq!(compact.next_index(), reference.leaves.len() as u64);
        assert_eq!(compact.root_be(), be(reference.root));
        assert_eq!(compact.frontier_commit(), element(reference.frontier_commit()));
    }
}

#[test]
fn streaming_builder_reconstructs_exact_frontier_and_complete_nodes() {
    let empty_builder = StreamingFrontierBuilder::new();
    for count in [
        1u64, 2, 3, 4, 5, 7, 8, 9, 15, 16, 17, 31, 32, 33, 64, 65, 129,
    ] {
        let mut builder = empty_builder.clone();
        let mut archived = HashMap::new();
        for value in 1..count {
            for node in builder.push_nonfinal_be(leaf(value)).unwrap() {
                archived.insert(node.key, node.hash_be);
            }
        }
        let (frontier, final_nodes) = builder.finish_with_last_be(leaf(count)).unwrap();
        for node in final_nodes {
            archived.insert(node.key, node.hash_be);
        }

        let mut reference = Reference::new();
        for value in 1..=count {
            reference.insert_be(leaf(value));
        }
        assert_eq!(frontier.root_be(), be(reference.root), "count={count}");
        assert_eq!(
            frontier.frontier_commit(),
            element(reference.frontier_commit()),
            "count={count}"
        );

        let mut positions = vec![0, count / 2, count - 1];
        positions.sort_unstable();
        positions.dedup();
        for position in positions {
            let required = required_witness_nodes(position, count).unwrap();
            let mut selected = NodeMap::new();
            for key in required {
                selected.insert(key, archived[&key]);
            }
            let actual = witness_from_nodes(position, count, &selected).unwrap();
            let expected = reference.siblings(position as usize, count as usize);
            assert_eq!(actual, expected, "count={count} position={position}");
        }
    }
}

#[test]
fn compact_batch_plans_match_reference() {
    let limits = BatchLimits::new(8, 4).unwrap();
    let leaves: Vec<_> = (1..=17).map(leaf).collect();
    let mut compact = CompactFrontier::new();
    let mut reference = Reference::new();
    let actual = compact.plan_batches(&leaves, 4, &limits).unwrap();
    let expected: Vec<_> = leaves
        .chunks(8)
        .map(|chunk| reference.plan_batch(chunk, 8))
        .collect();
    assert_eq!(actual, expected);
}

const MODULUS_BE: &str = "30644e72e131a029b85045b68181585d2833e84879b9709143e1f593f0000001";

fn modulus_minus(value: u8) -> [u8; 32] {
    let mut bytes: [u8; 32] = hex::decode(MODULUS_BE).unwrap().try_into().unwrap();
    if value == 0 {
        return bytes;
    }
    assert_eq!(bytes[31], 1);
    bytes[31] = 0;
    if value > 1 {
        bytes[31] = 255 - (value - 2);
        bytes[30] = 255;
        bytes[29] = 255;
        bytes[28] -= 1;
    }
    bytes
}

#[test]
fn field_arithmetic_is_modulo_the_order() {
    let minus_one = fr_from_be(modulus_minus(1)).unwrap();
    let minus_two = fr_from_be(modulus_minus(2)).unwrap();
    let one = FieldElement::from_u64(1);
    assert_eq!(minus_two.plus(one), minus_one);
    assert_eq!(minus_one.plus(FieldElement::from_u64(2)), one);
    assert_eq!(minus_one.times(minus_one), one);
    assert_eq!(minus_two.times(minus_two), FieldElement::from_u64(4));
    assert_eq!(FieldElement::from_u64(2).power(10), FieldElement::from_u64(1024));
    assert_eq!(minus_one.power(5), minus_one);
    assert_eq!(FieldElement::from_u64(7).power(0), one);
    let wide = FieldElement::from_u128(3u128 << 64);
    assert_eq!(FieldElement::from_u64(3).times(FieldElement::from_u64(2).power(64)), wide);
    let mut repr = [0u8; 32];
    repr[8] = 3;
    assert_eq!(wide.to_repr(), repr);
    assert_eq!(fr_from_be(modulus_minus(0)), Err(TreeError::NonCanonical));
    assert_eq!(fr_from_be([255; 32]), Err(TreeError::NonCanonical));
    assert_eq!(fr_to_be(minus_one), modulus_minus(1));
    assert_eq!(fr_to_be(FieldElement::from_u64(513)), leaf(513));
}

#[test]
fn hash_constants_can_be_kept() {
    let constants = poseidon_constants();
    let (left, right) = (FieldElement::from_u64(1), FieldElement::from_u64(2));
    let kept = constants.pair(5, left, right);
    assert_eq!(kept, poseidon_pair(5, left, right));
    assert_ne!(kept, constants.pair(6, left, right));
    assert_ne!(kept, constants.pair(5, right, left));
}

#[test]
fn empty_tree_has_the_empty_root() {
    let reference = Reference::new();
    let empty = CompactFrontier::new();
    assert_eq!(empty.next_index(), 0);
    assert_eq!(empty.root_be(), be(reference.root));
    let mut little = empty.root_be();
    little.reverse();
    assert_eq!(empty.root_le(), little);
    assert_eq!(empty.filled_be(), vec![[0u8; 32]; 32]);
    assert_eq!(CompactFrontier::default().root_be(), empty.root_be());
    assert_eq!(frontier_from_leaves(&[]).unwrap().root_be(), empty.root_be());
}

#[test]
fn roots_are_those_of_the_whole_tree() {
    let mut compact = CompactFrontier::new();
    let mut reference = Reference::new();
    for value in [9u64, 8, 7, 6, 5] {
        compact.append_be(leaf(value)).unwrap();
        reference.insert_be(leaf(value));
        let whole = reference.node(TREE_DEPTH, 0, reference.leaves.len());
        assert_eq!(compact.root_be(), be(whole));
    }
}

#[test]
fn appends_hand_out_each_complete_node_once() {
    let mut compact = CompactFrontier::new();
    let mut seen: Vec<MerkleNodeKey> = vec![];
    for position in 0..8u64 {
        let nodes = compact.append_be(leaf(position + 1)).unwrap();
        assert_eq!(nodes.len() as u32, 1 + position.trailing_ones());
        assert_eq!(nodes[0].hash_be, leaf(position + 1));
        for node in nodes {
            assert!(!seen.contains(&node.key));
            seen.push(node.key);
        }
    }
    for (level, width) in [(0u8, 8u64), (1, 4), (2, 2), (3, 1)] {
        for index in 0..width {
            assert!(seen.contains(&MerkleNodeKey { level, index }));
        }
    }
    assert_eq!(seen.len(), 15);
}

#[test]
fn refused_leaf_changes_nothing() {
    let mut compact = CompactFrontier::new();
    compact.append_be(leaf(1)).unwrap();
    let before = (compact.root_be(), compact.filled_be(), compact.next_index());
    assert_eq!(compact.append_be([255; 32]), Err(TreeError::NonCanonical));
    assert_eq!(before, (compact.root_be(), compact.filled_be(), compact.next_index()));
    let mut builder = StreamingFrontierBuilder::default();
    assert_eq!(builder.push_nonfinal_be([255; 32]), Err(TreeError::NonCanonical));
    assert!(builder.finish_with_last_be([255; 32]).is_err());
    let (frontier, _) = builder.finish_with_last_be(leaf(1)).unwrap();
    assert_eq!(frontier.root_be(), before.0);
}

#[test]
fn frontier_is_restored_from_what_it_wrote() {
    let mut compact = CompactFrontier::new();
    for value in 1..=5 {
        compact.append_be(leaf(value)).unwrap();
    }
    let filled = compact.filled_be();
    let root = compact.root_be();
    let mut restored = CompactFrontier::from_parts_be(&filled, 5, root).unwrap();
    assert_eq!(restored.filled_be(), filled);
    assert_eq!(restored.next_index(), 5);
    restored.append_be(leaf(6)).unwrap();
    compact.append_be(leaf(6)).unwrap();
    assert_eq!(restored.root_be(), compact.root_be());

    let refused = |filled: &[[u8; 32]], count, root| {
        CompactFrontier::from_parts_be(filled, count, root).err().unwrap()
    };
    assert_eq!(refused(&filled[1..], 5, root), TreeError::SlotCount { found: 31 });
    assert_eq!(refused(&filled, 1 << 32, root), TreeError::CountExceedsCapacity);
    assert_eq!(refused(&filled, 5, [0; 32]), TreeError::RootMismatch);
    assert_eq!(refused(&filled, 4, root), TreeError::RootMismatch);
    let mut wrong = filled.clone();
    wrong[31] = modulus_minus(0);
    assert_eq!(refused(&wrong, 5, root), TreeError::NonCanonical);
}

#[test]
fn full_tree_takes_no_leaf() {
    let reference = Reference::new();
    let mut node = Fr::ZERO;
    for level in 0..TREE_DEPTH {
        node = reference.hash(level as u64, Fr::ZERO, node);
    }
    let last = (1u64 << 32) - 1;
    let mut compact =
        CompactFrontier::from_parts_be(&[[0; 32]; TREE_DEPTH], last, be(node)).unwrap();
    let nodes = compact.append_be(leaf(1)).unwrap();
    assert_eq!(nodes.len(), 33);
    assert_eq!(nodes[32].key, MerkleNodeKey { level: 32, index: 0 });
    assert_eq!(nodes[32].hash_be, compact.root_be());
    assert_eq!(compact.next_index(), 1 << 32);
    assert_eq!(compact.append_be(leaf(2)), Err(TreeError::TreeFull));
}

#[test]
fn frontier_from_leaves_is_the_appended_one() {
    let leaves: Vec<_> = (1..=6).map(leaf).collect();
    let mut compact = CompactFrontier::new();
    for leaf in &leaves {
        compact.append_be(*leaf).unwrap();
    }
    let built = frontier_from_leaves(&leaves).unwrap();
    assert_eq!(built.filled_be(), compact.filled_be());
    assert_eq!(built.root_be(), compact.root_be());
    assert_eq!(built.next_index(), 6);
    let mut wrong = leaves.clone();
    wrong[2] = [255; 32];
    assert_eq!(frontier_from_leaves(&wrong).err(), Some(TreeError::NonCanonical));
}

#[test]
fn plans_chain_and_respect_the_limits() {
    assert!(BatchLimits::new(0, 4).is_none());
    assert!(BatchLimits::new(4, 0).is_none());
    assert!(BatchLimits::new(usize::MAX, 2).is_none());
    let limits = BatchLimits::new(2, 3).unwrap();
    assert_eq!((limits.max_batch(), limits.max_proofs_per_tx()), (2, 3));
    let leaves: Vec<_> = (1..=5).map(leaf).collect();
    let mut compact = CompactFrontier::new();
    let before = compact.root_be();
    let plans = compact.plan_batches(&leaves, 3, &limits).unwrap();
    assert_eq!(plans.len(), 3);
    assert_eq!(plans[0].old_root, decimal(number(before)));
    for pair in plans.windows(2) {
        assert_eq!(pair[0].new_root, pair[1].old_root);
        assert_eq!(pair[0].new_frontier_commit, pair[1].old_frontier_commit);
    }
    assert_eq!(plans[2].new_root, decimal(number(compact.root_be())));
    assert_eq!((plans[2].j.as_str(), plans[2].start_idx.as_str()), ("1", "4"));
    assert_eq!(plans[2].cmxs, vec!["5".to_string(), "0".to_string()]);
    assert_eq!(plans[0].filled_start, vec!["0".to_string(); 32]);
    assert_eq!(compact.next_index(), 5);

    let five = compact.clone();
    assert_eq!(
        compact.plan_batch(&leaves, &limits),
        Err(TreeError::BatchSize { max: 2 })
    );
    assert_eq!(compact.plan_batch(&[], &limits), Err(TreeError::BatchSize { max: 2 }));
    assert_eq!(
        compact.plan_batches(&leaves, 0, &limits),
        Err(TreeError::MaxProofs { max: 3 })
    );
    assert_eq!(
        compact.plan_batches(&leaves, 4, &limits),
        Err(TreeError::MaxProofs { max: 3 })
    );
    assert_eq!(
        compact.plan_batches(&leaves, 2, &limits),
        Err(TreeError::AggregateBatchSize { max: 4 })
    );
    assert_eq!(
        compact.plan_batches(&[], 2, &limits),
        Err(TreeError::AggregateBatchSize { max: 4 })
    );
    assert_eq!(compact.root_be(), five.root_be());
    assert_eq!(
        compact.plan_batch(&[leaf(6), [255; 32]], &limits),
        Err(TreeError::NonCanonical)
    );
    assert_eq!(compact.next_index(), 6);
}

#[test]
fn archived_nodes_prove_every_leaf() {
    let mut compact = CompactFrontier::new();
    let mut archive = NodeMap::new();
    for value in 1..=5u64 {
        for node in compact.append_be(leaf(value)).unwrap() {
            archive.insert(node.key, node.hash_be);
        }
    }
    for position in [0u64, 3, 4] {
        let witness = witness_from_nodes(position, 5, &archive).unwrap();
        let root = witness_root_be(leaf(position + 1), position, &witness).unwrap();
        assert_eq!(root, compact.root_be());
        let other = witness_root_be(leaf(99), position, &witness).unwrap();
        assert_ne!(other, compact.root_be());
    }
}

#[test]
fn required_nodes_are_ascending_and_complete() {
    let keys = required_witness_nodes(2, 5).unwrap();
    let expected = vec![
        MerkleNodeKey { level: 0, index: 3 },
        MerkleNodeKey { level: 0, index: 4 },
        MerkleNodeKey { level: 1, index: 0 },
    ];
    assert_eq!(keys, expected);
    assert_eq!(required_witness_nodes(0, 1).unwrap(), vec![]);
    assert_eq!(required_witness_nodes(5, 5), Err(TreeError::PositionOutsidePrefix));
}

#[test]
fn witnesses_that_cannot_be_made_or_read_are_refused() {
    let mut nodes = NodeMap::new();
    assert_eq!(
        witness_from_nodes(5, 5, &nodes),
        Err(TreeError::PositionOutsidePrefix)
    );
    let missing = MerkleNodeKey { level: 0, index: 1 };
    assert_eq!(nodes.get(missing), None);
    assert_eq!(
        witness_from_nodes(0, 2, &nodes),
        Err(TreeError::MissingNode { key: missing })
    );
    nodes.insert(missing, [255; 32]);
    assert_eq!(nodes.get(missing), Some([255; 32]));
    assert_eq!(witness_from_nodes(0, 2, &nodes), Err(TreeError::NonCanonical));
    nodes.insert(missing, leaf(2));
    let witness = witness_from_nodes(0, 2, &nodes).unwrap();

    let root = |siblings: &[String]| witness_root_be(leaf(1), 0, siblings);
    assert!(root(&witness).is_ok());
    assert_eq!(root(&witness[1..]), Err(TreeError::SiblingCount { found: 31 }));
    assert_eq!(
        witness_root_be([255; 32], 0, &witness),
        Err(TreeError::NonCanonical)
    );
    let with = |level: usize, text: &str| {
        let mut changed = witness.clone();
        changed[level] = text.into();
        root(&changed)
    };
    assert_eq!(with(3, "0xzz"), Err(TreeError::SiblingNotHex { level: 3 }));
    assert_eq!(with(3, "0x123"), Err(TreeError::SiblingNotHex { level: 3 }));
    assert_eq!(with(4, "0x1234"), Err(TreeError::SiblingLength { level: 4 }));
    let high = format!("0x{}", "ff".repeat(32));
    assert_eq!(with(31, &high), Err(TreeError::SiblingNotCanonical { level: 31 }));
    let bare = witness[0].trim_start_matches("0x").to_uppercase();
    assert_eq!(with(0, &bare), root(&witness));
}

#[test]
fn complete_nodes_never_change() {
    let mut compact = CompactFrontier::new();
    let mut builder = StreamingFrontierBuilder::new();
    let mut reference = Reference::new();
    let mut handed_out: Vec<MerkleNode> = vec![];
    for value in 1..=9u64 {
        let nodes = compact.append_be(leaf(value)).unwrap();
        assert_eq!(builder.push_nonfinal_be(leaf(value)).unwrap(), nodes);
        handed_out.extend(nodes);
        reference.insert_be(leaf(value));
    }
    for node in handed_out {
        let now = reference.node(node.key.level as usize, node.key.index as usize, 9);
        assert_eq!(node.hash_be, be(now));
    }
}

#[test]
fn appends_keep_the_left_siblings() {
    let mut compact = CompactFrontier::new();
    for position in 0..8u64 {
        let before = compact.filled_be();
        compact.append_be(leaf(position + 1)).unwrap();
        let after = compact.filled_be();
        for level in 0..TREE_DEPTH {
            if (position >> level) & 1 == 1 {
                assert_eq!(before[level], after[level]);
            } else {
                assert_ne!(before[level], after[level]);
            }
        }
    }
}
