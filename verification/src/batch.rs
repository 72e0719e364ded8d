//! Plans of confirmation batches: what a proof that a batch of commitments has been appended
//! needs as its public and private input.

use crate::bytes::be_value;
use crate::error::TreeError;
use crate::field::{fr_from_be, fr_to_be, modulus, FieldElement};
use crate::frontier::{
    appended, be_values, frontier_commitment, law_append_follows_tree, tree_frontier,
    CompactFrontier, FrontierView,
};
use crate::merkle::{frontier_of, subtree, TREE_CAPACITY, TREE_DEPTH};
use crate::text::{be_decimal, decimal, u64_decimal};
use vstd::prelude::*;
use vstd::slice::slice_subrange;

verus! {

/// The sizes that the confirmation circuit and contract are made for.
#[derive(Clone, Copy, Debug, PartialEq, Eq)]
pub struct BatchLimits {
    max_batch: usize,
    max_proofs_per_tx: usize,
}

impl BatchLimits {
    /// Every batch and every number of batches up to the limits has a number of leaves that can be
    /// counted.
    #[verifier::type_invariant]
    spec fn is_countable(self) -> bool {
        &&& 0 < self.max_batch
        &&& 0 < self.max_proofs_per_tx
        &&& self.max_batch * self.max_proofs_per_tx <= usize::MAX
    }

    /// The number of leaves that one proof covers at most.
    pub closed spec fn spec_max_batch(self) -> usize {
        self.max_batch
    }

    /// The number of proofs that one transaction carries at most.
    pub closed spec fn spec_max_proofs_per_tx(self) -> usize {
        self.max_proofs_per_tx
    }

    /// Limits of at least one leaf and one proof, whose product can be counted.
    pub fn new(max_batch: usize, max_proofs_per_tx: usize) -> (r: Option<BatchLimits>)
        ensures
            r is Some <==> 0 < max_batch && 0 < max_proofs_per_tx && max_batch * max_proofs_per_tx
                <= usize::MAX,
            r is Some ==> r->0.spec_max_batch() == max_batch && r->0.spec_max_proofs_per_tx()
                == max_proofs_per_tx,
    {
        if max_batch == 0 || max_proofs_per_tx == 0 {
            return None;
        }
        match max_batch.checked_mul(max_proofs_per_tx) {
            Some(_) => Some(BatchLimits { max_batch, max_proofs_per_tx }),
            None => None,
        }
    }

    pub fn max_batch(&self) -> (r: usize)
        ensures
            r == self.spec_max_batch(),
            r > 0,
    {
        proof {
            use_type_invariant(self);
        }
        self.max_batch
    }

    pub fn max_proofs_per_tx(&self) -> (r: usize)
        ensures
            r == self.spec_max_proofs_per_tx(),
            r > 0,
            r * self.spec_max_batch() <= usize::MAX,
    {
        proof {
            use_type_invariant(self);
            vstd::arithmetic::mul::lemma_mul_is_commutative(
                self.max_batch as int,
                self.max_proofs_per_tx as int,
            );
        }
        self.max_proofs_per_tx
    }
}

/// The input of one confirmation proof, every number in decimal.
#[derive(Clone, Debug, PartialEq, Eq)]
pub struct CmxConfirmWitnessInput {
    pub old_root: String,
    pub new_root: String,
    /// The number of leaves in the batch.
    pub j: String,
    /// The position of the first leaf.
    pub start_idx: String,
    pub old_frontier_commit: String,
    pub new_frontier_commit: String,
    /// The leaves, and zeros up to the size that the circuit is made for.
    pub cmxs: Vec<String>,
    /// The slots of the frontier before the batch.
    pub filled_start: Vec<String>,
}

/// A frontier with more leaves.
pub open spec fn appended_all(frontier: FrontierView, leaves: Seq<nat>) -> FrontierView
    decreases leaves.len(),
{
    if leaves.len() == 0 {
        frontier
    } else {
        appended(appended_all(frontier, leaves.drop_last()), leaves.last())
    }
}

/// Why a frontier that counts `next_index` leaves refuses a leaf.
pub open spec fn refusal(next_index: nat, leaf: [u8; 32]) -> Option<TreeError> {
    if be_value(leaf@) >= modulus() {
        Some(TreeError::NonCanonical)
    } else if next_index >= TREE_CAPACITY {
        Some(TreeError::TreeFull)
    } else {
        None
    }
}

/// How many of the leaves are appended, one after the other, before one is refused.
pub open spec fn accepted(next_index: nat, leaves: Seq<[u8; 32]>) -> nat
    decreases leaves.len(),
{
    if leaves.len() == 0 {
        0
    } else {
        let before = accepted(next_index, leaves.drop_last());
        if before + 1 == leaves.len() && refusal(next_index + before, leaves.last()) is None {
            leaves.len()
        } else {
            before
        }
    }
}

/// Whether `texts` are the decimal texts of `numbers`.
pub open spec fn are_decimal(texts: Seq<String>, numbers: Seq<nat>) -> bool {
    &&& texts.len() == numbers.len()
    &&& forall|i: int| 0 <= i < texts.len() ==> (#[trigger] texts[i])@ == decimal(numbers[i])
}

/// The leaves of a batch, and zeros up to `size`.
pub open spec fn padded(leaves: Seq<nat>, size: nat) -> Seq<nat> {
    Seq::new(
        size,
        |i: int|
            if i < leaves.len() {
                leaves[i]
            } else {
                0
            },
    )
}

/// Whether `plan` is the input of the proof that appending `leaves` leads from the frontier
/// `before` to the one that it leads to, for a circuit of `max_batch` leaves.
pub open spec fn is_plan(
    plan: CmxConfirmWitnessInput,
    before: FrontierView,
    leaves: Seq<nat>,
    max_batch: nat,
) -> bool {
    let after = appended_all(before, leaves);
    &&& plan.old_root@ == decimal(before.root)
    &&& plan.new_root@ == decimal(after.root)
    &&& plan.j@ == decimal(leaves.len())
    &&& plan.start_idx@ == decimal(before.next_index)
    &&& plan.old_frontier_commit@ == decimal(frontier_commitment(before.filled))
    &&& plan.new_frontier_commit@ == decimal(frontier_commitment(after.filled))
    &&& are_decimal(plan.cmxs@, padded(leaves, max_batch))
    &&& are_decimal(plan.filled_start@, before.filled)
}

/// Where the batch after the first `batches` ones starts, or the leaves end.
pub open spec fn batch_start(batches: int, max_batch: int, leaves: int) -> int {
    if batches * max_batch <= leaves {
        batches * max_batch
    } else {
        leaves
    }
}

/// Whether `plans` are the inputs of the proofs for the batches of `max_batch` leaves, the last one
/// perhaps smaller, into which `leaves` fall.
pub open spec fn are_plans(
    plans: Seq<CmxConfirmWitnessInput>,
    before: FrontierView,
    leaves: Seq<nat>,
    max_batch: int,
) -> bool {
    let len = leaves.len() as int;
    &&& (plans.len() - 1) * max_batch < len <= plans.len() * max_batch
    &&& forall|k: int|
        0 <= k < plans.len() ==> is_plan(
            #[trigger] plans[k],
            appended_all(before, leaves.take(batch_start(k, max_batch, len))),
            leaves.subrange(
                batch_start(k, max_batch, len),
                batch_start(k + 1, max_batch, len),
            ),
            max_batch as nat,
        )
}

/// The decimal text of a field element.
pub fn fr_decimal(value: FieldElement) -> (r: String)
    ensures
        r@ == decimal(value@),
{
    be_decimal(fr_to_be(value).as_slice())
}

/// Appending leaves in two goes is appending them in one.
pub proof fn lemma_appended_all_concat(frontier: FrontierView, a: Seq<nat>, b: Seq<nat>)
    ensures
        appended_all(frontier, a + b) == appended_all(appended_all(frontier, a), b),
    decreases b.len(),
{
    if b.len() == 0 {
        assert(a + b =~= a);
    } else {
        assert((a + b).drop_last() =~= a + b.drop_last());
        lemma_appended_all_concat(frontier, a, b.drop_last());
    }
}

/// Every appended leaf counts.
pub proof fn lemma_appended_all_count(frontier: FrontierView, leaves: Seq<nat>)
    ensures
        appended_all(frontier, leaves).next_index == frontier.next_index + leaves.len(),
    decreases leaves.len(),
{
    if leaves.len() > 0 {
        lemma_appended_all_count(frontier, leaves.drop_last());
    }
}

/// Where a leaf is refused, none after it is appended.
proof fn lemma_accepted_stops(next_index: nat, leaves: Seq<[u8; 32]>, count: nat)
    requires
        count < leaves.len(),
        accepted(next_index, leaves.take(count as int)) == count,
        refusal(next_index + count, leaves[count as int]) is Some,
    ensures
        accepted(next_index, leaves) == count,
    decreases leaves.len(),
{
    if leaves.len() == count + 1 {
        assert(leaves.drop_last() =~= leaves.take(count as int));
    } else {
        assert(leaves.drop_last().take(count as int) =~= leaves.take(count as int));
        lemma_accepted_stops(next_index, leaves.drop_last(), count);
    }
}

/// Another leaf that is not refused is appended too.
proof fn lemma_accepted_goes_on(next_index: nat, leaves: Seq<[u8; 32]>, count: nat)
    requires
        count < leaves.len(),
        accepted(next_index, leaves.take(count as int)) == count,
        refusal(next_index + count, leaves[count as int]) is None,
    ensures
        accepted(next_index, leaves.take((count + 1) as int)) == count + 1,
{
    assert(leaves.take((count + 1) as int).drop_last() =~= leaves.take(count as int));
}

/// Leaves that follow leaves that are all appended fare as they would on their own.
proof fn lemma_accepted_concat(next_index: nat, a: Seq<[u8; 32]>, b: Seq<[u8; 32]>)
    requires
        accepted(next_index, a) == a.len(),
    ensures
        accepted(next_index, a + b) == a.len() + accepted(next_index + a.len(), b),
        accepted(next_index + a.len(), b) <= b.len(),
    decreases b.len(),
{
    if b.len() == 0 {
        assert(a + b =~= a);
    } else {
        assert((a + b).drop_last() =~= a + b.drop_last());
        lemma_accepted_concat(next_index, a, b.drop_last());
    }
}

impl CompactFrontier {
    /// Appends a batch of leaves and returns the input of the proof that confirms it. Leaves before
    /// one that is refused stay appended.
    pub fn plan_batch(&mut self, leaves: &[[u8; 32]], limits: &BatchLimits) -> (r: Result<
        CmxConfirmWitnessInput,
        TreeError,
    >)
        ensures
            ({
                let max = limits.spec_max_batch();
                if leaves@.len() == 0 || leaves@.len() > max {
                    &&& r == Err::<CmxConfirmWitnessInput, _>(TreeError::BatchSize { max })
                    &&& final(self)@ == old(self)@
                } else {
                    let count = accepted(old(self)@.next_index, leaves@);
                    &&& final(self)@ == appended_all(
                        old(self)@,
                        be_values(leaves@.take(count as int)),
                    )
                    &&& if count == leaves@.len() {
                        r is Ok && is_plan(r->Ok_0, old(self)@, be_values(leaves@), max as nat)
                    } else {
                        refusal(
                            old(self)@.next_index + count,
                            leaves@[count as int],
                        ) matches Some(error) && r == Err::<CmxConfirmWitnessInput, _>(error)
                    }
                }
            }),
    {
        let max_batch = limits.max_batch();
        if leaves.len() == 0 || leaves.len() > max_batch {
            return Err(TreeError::BatchSize { max: max_batch });
        }
        let ghost before = self@;
        let ghost numbers = be_values(leaves@);
        let old_root = fr_decimal(self.root());
        let old_frontier_commit = fr_decimal(self.frontier_commit());
        let start_idx = u64_decimal(self.next_index());
        let mut filled_start: Vec<String> = Vec::new();
        let mut level: usize = 0;
        while level < TREE_DEPTH
            invariant
                level <= TREE_DEPTH,
                self@ == before,
                filled_start@.len() == level,
                level > 0 ==> before.filled.len() == TREE_DEPTH,
                forall|i: int|
                    0 <= i < level ==> (#[trigger] filled_start@[i])@ == decimal(before.filled[i]),
            decreases TREE_DEPTH - level,
        {
            filled_start.push(fr_decimal(self.slot(level)));
            level = level + 1;
        }
        let mut cmxs: Vec<String> = Vec::new();
        let mut i: usize = 0;
        proof {
            assert(leaves@.take(0).len() == 0);
            assert(be_values(leaves@.take(0)) =~= seq![]);
        }
        while i < leaves.len()
            invariant
                i <= leaves@.len(),
                numbers == be_values(leaves@),
                before == old(self)@,
                0 < leaves@.len() <= max_batch,
                max_batch == limits.spec_max_batch(),
                accepted(before.next_index, leaves@.take(i as int)) == i,
                self@ == appended_all(before, be_values(leaves@.take(i as int))),
                cmxs@.len() == i,
                forall|k: int| 0 <= k < i ==> (#[trigger] cmxs@[k])@ == decimal(numbers[k]),
            decreases leaves.len() - i,
        {
            proof {
                lemma_appended_all_count(before, be_values(leaves@.take(i as int)));
                assert(be_values(leaves@.take(i as int)).len() == i);
                assert(be_values(leaves@.take(i + 1)).drop_last() =~= be_values(
                    leaves@.take(i as int),
                ));
                if refusal(before.next_index + i as nat, leaves@[i as int]) is Some {
                    lemma_accepted_stops(before.next_index, leaves@, i as nat);
                } else {
                    lemma_accepted_goes_on(before.next_index, leaves@, i as nat);
                }
            }
            let leaf = match fr_from_be(leaves[i]) {
                Ok(leaf) => leaf,
                Err(error) => return Err(error),
            };
            match self.append_be(leaves[i]) {
                Ok(_) => {},
                Err(error) => return Err(error),
            }
            cmxs.push(fr_decimal(leaf));
            i = i + 1;
        }
        assert(leaves@.take(i as int) =~= leaves@);
        let zero = FieldElement::from_u64(0);
        while cmxs.len() < max_batch
            invariant
                numbers.len() == leaves@.len(),
                leaves@.len() <= cmxs@.len() <= max_batch,
                zero@ == 0,
                forall|k: int|
                    0 <= k < cmxs@.len() ==> (#[trigger] cmxs@[k])@ == decimal(
                        padded(numbers, max_batch as nat)[k],
                    ),
            decreases max_batch - cmxs.len(),
        {
            cmxs.push(fr_decimal(zero));
        }
        let new_root = fr_decimal(self.root());
        let new_frontier_commit = fr_decimal(self.frontier_commit());
        let j = u64_decimal(leaves.len() as u64);
        Ok(
            CmxConfirmWitnessInput {
                old_root,
                new_root,
                j,
                start_idx,
                old_frontier_commit,
                new_frontier_commit,
                cmxs,
                filled_start,
            },
        )
    }
}

impl CompactFrontier {
    /// Appends leaves and returns the inputs of the proofs, at most `max_proofs` of them, that
    /// confirm them batch by batch. Leaves before one that is refused stay appended.
    pub fn plan_batches(
        &mut self,
        leaves: &[[u8; 32]],
        max_proofs: usize,
        limits: &BatchLimits,
    ) -> (r: Result<Vec<CmxConfirmWitnessInput>, TreeError>)
        ensures
            ({
                let max_batch = limits.spec_max_batch();
                let max = limits.spec_max_proofs_per_tx();
                if max_proofs == 0 || max_proofs > max {
                    &&& r == Err::<Vec<CmxConfirmWitnessInput>, _>(TreeError::MaxProofs { max })
                    &&& final(self)@ == old(self)@
                } else if leaves@.len() == 0 || leaves@.len() > max_batch * max_proofs {
                    &&& r == Err::<Vec<CmxConfirmWitnessInput>, _>(
                        TreeError::AggregateBatchSize { max: (max_batch * max_proofs) as usize },
                    )
                    &&& final(self)@ == old(self)@
                } else {
                    let count = accepted(old(self)@.next_index, leaves@);
                    &&& final(self)@ == appended_all(
                        old(self)@,
                        be_values(leaves@.take(count as int)),
                    )
                    &&& if count == leaves@.len() {
                        r is Ok && are_plans(
                            r->Ok_0@,
                            old(self)@,
                            be_values(leaves@),
                            max_batch as int,
                        )
                    } else {
                        refusal(
                            old(self)@.next_index + count,
                            leaves@[count as int],
                        ) matches Some(error) && r == Err::<Vec<CmxConfirmWitnessInput>, _>(error)
                    }
                }
            }),
    {
        let max_batch = limits.max_batch();
        let max_proofs_per_tx = limits.max_proofs_per_tx();
        if max_proofs == 0 || max_proofs > max_proofs_per_tx {
            return Err(TreeError::MaxProofs { max: max_proofs_per_tx });
        }
        assert(max_batch * max_proofs <= usize::MAX) by (nonlinear_arith)
            requires
                max_proofs <= max_proofs_per_tx,
                max_proofs_per_tx * max_batch <= usize::MAX,
        ;
        let max_leaves: usize = max_batch * max_proofs;
        if leaves.len() == 0 || leaves.len() > max_leaves {
            return Err(TreeError::AggregateBatchSize { max: max_leaves });
        }
        let ghost before = self@;
        let ghost numbers = be_values(leaves@);
        let ghost len = leaves@.len() as int;
        let mut plans: Vec<CmxConfirmWitnessInput> = Vec::new();
        let mut start: usize = 0;
        proof {
            assert(leaves@.take(0).len() == 0);
            assert(be_values(leaves@.take(0)) =~= seq![]);
        }
        while start < leaves.len()
            invariant
                start <= leaves@.len(),
                numbers == be_values(leaves@),
                len == leaves@.len(),
                before == old(self)@,
                0 < max_batch,
                max_batch == limits.spec_max_batch(),
                max_proofs_per_tx == limits.spec_max_proofs_per_tx(),
                0 < max_proofs <= max_proofs_per_tx,
                0 < leaves@.len() <= max_batch * max_proofs,
                start == batch_start(plans@.len() as int, max_batch as int, len),
                start < len ==> start == plans@.len() * max_batch,
                plans@.len() > 0 ==> (plans@.len() - 1) * max_batch < len,
                start > 0 ==> plans@.len() > 0,
                accepted(before.next_index, leaves@.take(start as int)) == start,
                self@ == appended_all(before, be_values(leaves@.take(start as int))),
                forall|k: int|
                    0 <= k < plans@.len() ==> is_plan(
                        #[trigger] plans@[k],
                        appended_all(before, numbers.take(batch_start(k, max_batch as int, len))),
                        numbers.subrange(
                            batch_start(k, max_batch as int, len),
                            batch_start(k + 1, max_batch as int, len),
                        ),
                        max_batch as nat,
                    ),
            decreases leaves.len() - start,
        {
            let end: usize = if leaves.len() - start <= max_batch {
                leaves.len()
            } else {
                start + max_batch
            };
            let chunk = slice_subrange(leaves, start, end);
            let ghost done = plans@.len() as int;
            proof {
                lemma_chunk(before, leaves@, start as int, end as int);
                assert((done + 1) * max_batch == done * max_batch + max_batch) by (nonlinear_arith);
            }
            match self.plan_batch(chunk, limits) {
                Ok(plan) => {
                    plans.push(plan);
                },
                Err(error) => {
                    return Err(error);
                },
            }
            start = end;
        }
        assert(leaves@.take(start as int) =~= leaves@);
        Ok(plans)
    }
}

/// What becomes of a chunk of leaves once all leaves before it have been appended is what becomes
/// of it as a part of all leaves.
proof fn lemma_chunk(before: FrontierView, leaves: Seq<[u8; 32]>, start: int, end: int)
    requires
        0 <= start < end <= leaves.len(),
        accepted(before.next_index, leaves.take(start)) == start,
    ensures
        ({
            let chunk = leaves.subrange(start, end);
            let middle = appended_all(before, be_values(leaves.take(start)));
            let count = accepted(middle.next_index, chunk);
            &&& be_values(leaves.take(start)) == be_values(leaves).take(start)
            &&& be_values(chunk) == be_values(leaves).subrange(start, end)
            &&& if count == chunk.len() {
                &&& accepted(before.next_index, leaves.take(end)) == end
                &&& appended_all(middle, be_values(chunk.take(count as int))) == appended_all(
                    before,
                    be_values(leaves.take(end)),
                )
            } else {
                &&& accepted(before.next_index, leaves) == start + count
                &&& appended_all(middle, be_values(chunk.take(count as int))) == appended_all(
                    before,
                    be_values(leaves.take(start + count)),
                )
                &&& middle.next_index + count == before.next_index + (start + count)
                &&& leaves[start + count] == chunk[count as int]
                &&& start + count < leaves.len()
            }
        }),
{
    let chunk = leaves.subrange(start, end);
    let head = leaves.take(start);
    let tail = leaves.subrange(end, leaves.len() as int);
    let middle = appended_all(before, be_values(head));
    let count = accepted(middle.next_index, chunk);
    assert(be_values(head).len() == start);
    lemma_appended_all_count(before, be_values(head));
    lemma_accepted_concat(before.next_index, head, chunk);
    lemma_accepted_concat(before.next_index, head, chunk + tail);
    assert(head + (chunk + tail) =~= leaves);
    assert(be_values(head) =~= be_values(leaves).take(start));
    assert(be_values(chunk) =~= be_values(leaves).subrange(start, end));
    let part = chunk.take(count as int);
    assert(leaves.take(start + count) =~= head + part);
    assert(be_values(head + part) =~= be_values(head) + be_values(part));
    lemma_appended_all_concat(before, be_values(head), be_values(part));
    if count < chunk.len() {
        lemma_accepted_stays(middle.next_index, chunk, tail);
    } else {
        assert(part =~= chunk);
    }
}

/// Where a leaf is refused, leaves further on change nothing.
proof fn lemma_accepted_stays(next_index: nat, a: Seq<[u8; 32]>, b: Seq<[u8; 32]>)
    requires
        accepted(next_index, a) < a.len(),
    ensures
        accepted(next_index, a + b) == accepted(next_index, a),
    decreases b.len(),
{
    if b.len() == 0 {
        assert(a + b =~= a);
    } else {
        assert((a + b).drop_last() =~= a + b.drop_last());
        lemma_accepted_stays(next_index, a, b.drop_last());
    }
}

/// Appending leaves one after the other to the frontier of a tree gives the frontier of the tree
/// with all of them appended.
pub proof fn law_append_all_follows_tree(leaves: Seq<nat>, more: Seq<nat>)
    requires
        leaves.len() + more.len() <= TREE_CAPACITY,
    ensures
        appended_all(tree_frontier(leaves), more) == tree_frontier(leaves + more),
    decreases more.len(),
{
    if more.len() == 0 {
        assert(leaves + more =~= leaves);
    } else {
        let before = leaves + more.drop_last();
        law_append_all_follows_tree(leaves, more.drop_last());
        law_append_follows_tree(before, more.last());
        assert(leaves + more =~= before.push(more.last()));
    }
}

/// What one batch leads to is what all leaves up to its end lead to.
proof fn lemma_batch_end(before: FrontierView, leaves: Seq<nat>, start: int, end: int)
    requires
        0 <= start <= end <= leaves.len(),
    ensures
        appended_all(appended_all(before, leaves.take(start)), leaves.subrange(start, end))
            == appended_all(before, leaves.take(end)),
{
    lemma_appended_all_concat(before, leaves.take(start), leaves.subrange(start, end));
    assert(leaves.take(start) + leaves.subrange(start, end) =~= leaves.take(end));
}

/// The proofs of consecutive batches chain: the first starts from the root and the frontier
/// commitment before all leaves, each next one from those that the one before it leads to, and the
/// last leads to those after all leaves. The first leaf of each is where whole batches have ended.
pub proof fn law_plans_chain(
    plans: Seq<CmxConfirmWitnessInput>,
    before: FrontierView,
    leaves: Seq<nat>,
    max_batch: int,
)
    requires
        are_plans(plans, before, leaves, max_batch),
        max_batch > 0,
        leaves.len() > 0,
    ensures
        plans.len() > 0,
        plans[0].old_root@ == decimal(before.root),
        plans[0].old_frontier_commit@ == decimal(frontier_commitment(before.filled)),
        forall|k: int|
            #![trigger plans[k].new_root]
            0 <= k && k + 1 < plans.len() ==> plans[k].new_root@ == plans[k + 1].old_root@
                && plans[k].new_frontier_commit@ == plans[k + 1].old_frontier_commit@,
        forall|k: int|
            #![trigger plans[k].start_idx]
            0 <= k < plans.len() ==> plans[k].start_idx@ == decimal(
                (before.next_index + k * max_batch) as nat,
            ),
        plans.last().new_root@ == decimal(appended_all(before, leaves).root),
        plans.last().new_frontier_commit@ == decimal(
            frontier_commitment(appended_all(before, leaves).filled),
        ),
{
    let len = leaves.len() as int;
    let count = plans.len() as int;
    assert(count > 0) by (nonlinear_arith)
        requires
            len > 0,
            len <= count * max_batch,
            max_batch > 0,
            count >= 0,
    ;
    assert(0 * max_batch == 0);
    assert(leaves.take(0) =~= seq![]);
    assert forall|k: int| 0 <= k < count implies 0 <= batch_start(k, max_batch, len) <= batch_start(
        k + 1,
        max_batch,
        len,
    ) <= len && #[trigger] plans[k].new_root@ == decimal(
        appended_all(before, leaves.take(batch_start(k + 1, max_batch, len))).root,
    ) && plans[k].new_frontier_commit@ == decimal(
        frontier_commitment(
            appended_all(before, leaves.take(batch_start(k + 1, max_batch, len))).filled,
        ),
    ) by {
        assert(0 <= k * max_batch <= (k + 1) * max_batch) by (nonlinear_arith)
            requires
                k >= 0,
                max_batch > 0,
        ;
        let start = batch_start(k, max_batch, len);
        let end = batch_start(k + 1, max_batch, len);
        lemma_batch_end(before, leaves, start, end);
        assert(is_plan(
            plans[k],
            appended_all(before, leaves.take(start)),
            leaves.subrange(start, end),
            max_batch as nat,
        ));
    }
    assert forall|k: int| #![trigger plans[k].new_root]
        0 <= k && k + 1 < plans.len() implies plans[k].new_root@ == plans[k + 1].old_root@
        && plans[k].new_frontier_commit@ == plans[k + 1].old_frontier_commit@ by {
        assert(plans[k].new_root@ == plans[k].new_root@);
        assert(is_plan(
            plans[k + 1],
            appended_all(before, leaves.take(batch_start(k + 1, max_batch, len))),
            leaves.subrange(
                batch_start(k + 1, max_batch, len),
                batch_start(k + 2, max_batch, len),
            ),
            max_batch as nat,
        ));
    }
    assert forall|k: int| #![trigger plans[k].start_idx]
        0 <= k < plans.len() implies plans[k].start_idx@ == decimal(
        (before.next_index + k * max_batch) as nat,
    ) by {
        law_plans_take_leaves_in_order(plans, before, leaves, max_batch, k, 0);
    }
    assert(plans[count - 1].new_root@ == plans.last().new_root@);
    assert(leaves.take(len) =~= leaves);
}

/// Leaves are appended one after the other, each to the frontier that the ones before it lead to.
pub proof fn law_append_all(frontier: FrontierView, leaves: Seq<nat>, leaf: nat)
    ensures
        appended_all(frontier, seq![]) == frontier,
        appended_all(frontier, leaves.push(leaf)) == appended(
            appended_all(frontier, leaves),
            leaf,
        ),
{
    assert(leaves.push(leaf).drop_last() =~= leaves);
}

/// A leaf is refused if it is no field element, and otherwise if every place is taken; nothing else
/// is wrong with a leaf. Leaves are appended up to the first one that is refused.
pub proof fn law_refusal(next_index: nat, leaves: Seq<[u8; 32]>, count: nat)
    requires
        count <= leaves.len(),
        forall|i: int|
            0 <= i < count ==> be_value(#[trigger] leaves[i]@) < modulus() && next_index + i
                < 0x1_0000_0000,
        count < leaves.len() ==> be_value(leaves[count as int]@) >= modulus() || next_index + count
            >= 0x1_0000_0000,
    ensures
        accepted(next_index, leaves) == count,
        count < leaves.len() ==> refusal(next_index + count, leaves[count as int]) == Some(
            if be_value(leaves[count as int]@) >= modulus() {
                TreeError::NonCanonical
            } else {
                TreeError::TreeFull
            },
        ),
        forall|i: int|
            0 <= i < count ==> #[trigger] refusal((next_index + i) as nat, leaves[i]) is None,
{
    lemma_accepted_prefix(next_index, leaves, count);
    if count < leaves.len() {
        lemma_accepted_stops(next_index, leaves, count);
    } else {
        assert(leaves.take(count as int) =~= leaves);
    }
    assert forall|i: int| 0 <= i < count implies #[trigger] refusal(
        (next_index + i) as nat,
        leaves[i],
    ) is None by {
        assert(be_value(leaves[i]@) < modulus());
    }
}

proof fn lemma_accepted_prefix(next_index: nat, leaves: Seq<[u8; 32]>, count: nat)
    requires
        count <= leaves.len(),
        forall|i: int|
            0 <= i < count ==> be_value(#[trigger] leaves[i]@) < modulus() && next_index + i
                < 0x1_0000_0000,
    ensures
        accepted(next_index, leaves.take(count as int)) == count,
    decreases count,
{
    if count > 0 {
        let before = (count - 1) as nat;
        lemma_accepted_prefix(next_index, leaves, before);
        assert(be_value(leaves[before as int]@) < modulus());
        lemma_accepted_goes_on(next_index, leaves, before);
    }
}

/// The input of a proof, field by field: the roots and the commitments to the slots before and
/// after the batch, the number of its leaves, the position of the first one, which is the number
/// of leaves before the batch, the leaves themselves with zeros behind them, and the slots before
/// the batch.
pub proof fn law_plan(
    plan: CmxConfirmWitnessInput,
    before: FrontierView,
    leaves: Seq<nat>,
    max_batch: nat,
)
    requires
        is_plan(plan, before, leaves, max_batch),
        leaves.len() <= max_batch,
    ensures
        plan.old_root@ == decimal(before.root),
        plan.new_root@ == decimal(appended_all(before, leaves).root),
        plan.j@ == decimal(leaves.len()),
        plan.start_idx@ == decimal(before.next_index),
        plan.old_frontier_commit@ == decimal(frontier_commitment(before.filled)),
        plan.new_frontier_commit@ == decimal(
            frontier_commitment(appended_all(before, leaves).filled),
        ),
        plan.cmxs@.len() == max_batch,
        forall|i: int|
            0 <= i < leaves.len() ==> (#[trigger] plan.cmxs@[i])@ == decimal(leaves[i]),
        forall|i: int|
            leaves.len() <= i < max_batch ==> (#[trigger] plan.cmxs@[i])@ == decimal(0),
        plan.filled_start@.len() == before.filled.len(),
        forall|i: int|
            0 <= i < before.filled.len() ==> (#[trigger] plan.filled_start@[i])@ == decimal(
                before.filled[i],
            ),
{
}

/// The input of a proof for a batch that follows the leaves of a tree speaks of that tree and of
/// the tree with the batch appended.
pub proof fn law_plan_is_of_the_tree(
    plan: CmxConfirmWitnessInput,
    leaves: Seq<nat>,
    batch: Seq<nat>,
    max_batch: nat,
)
    requires
        is_plan(plan, tree_frontier(leaves), batch, max_batch),
        leaves.len() + batch.len() <= TREE_CAPACITY,
    ensures
        plan.old_root@ == decimal(subtree(leaves, 32, 0)),
        plan.new_root@ == decimal(subtree(leaves + batch, 32, 0)),
        plan.start_idx@ == decimal(leaves.len()),
        plan.j@ == decimal(batch.len()),
        plan.old_frontier_commit@ == decimal(frontier_commitment(frontier_of(leaves))),
        plan.new_frontier_commit@ == decimal(frontier_commitment(frontier_of(leaves + batch))),
{
    law_append_all_follows_tree(leaves, batch);
}

/// Consecutive batches take the leaves in order: the batch with number `k` starts where `k` whole
/// batches have ended, holds the leaves from there up to the end of a batch or of all leaves, and
/// there is no batch without leaves.
pub proof fn law_plans_take_leaves_in_order(
    plans: Seq<CmxConfirmWitnessInput>,
    before: FrontierView,
    leaves: Seq<nat>,
    max_batch: int,
    k: int,
    i: int,
)
    requires
        are_plans(plans, before, leaves, max_batch),
        max_batch > 0,
        0 <= k < plans.len(),
        0 <= i < max_batch,
    ensures
        k * max_batch < leaves.len() <= plans.len() * max_batch,
        plans[k].start_idx@ == decimal((before.next_index + k * max_batch) as nat),
        plans[k].j@ == decimal(
            if leaves.len() - k * max_batch < max_batch {
                (leaves.len() - k * max_batch) as nat
            } else {
                max_batch as nat
            },
        ),
        plans[k].cmxs@.len() == max_batch,
        plans[k].cmxs@[i]@ == decimal(
            if k * max_batch + i < leaves.len() {
                leaves[k * max_batch + i]
            } else {
                0
            },
        ),
{
    let len = leaves.len() as int;
    let count = plans.len() as int;
    assert(0 <= k * max_batch <= (count - 1) * max_batch) by (nonlinear_arith)
        requires
            0 <= k <= count - 1,
            max_batch > 0,
    ;
    assert((k + 1) * max_batch == k * max_batch + max_batch) by (nonlinear_arith);
    let start = batch_start(k, max_batch, len);
    let end = batch_start(k + 1, max_batch, len);
    let middle = appended_all(before, leaves.take(start));
    let batch = leaves.subrange(start, end);
    assert(is_plan(plans[k], middle, batch, max_batch as nat));
    lemma_appended_all_count(before, leaves.take(start));
    law_plan(plans[k], middle, batch, max_batch as nat);
}

} // verus!
