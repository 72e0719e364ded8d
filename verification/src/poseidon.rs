//! The Poseidon hash over BN254 that the commitment tree is built from.
//!
//! Width 3, rate 2, eight full and 56 partial rounds. A permutation borrows its constants, so that
//! hashing allocates nothing once they have been generated.

use crate::bytes::le_value;
use crate::field::{canonical, modulus, FieldElement};
use ff::{Field, PrimeField};
use halo2_poseidon::{generate_constants, Mds, Spec};
use halo2curves::bn256::Fr;
use vstd::arithmetic::power::pow;
use vstd::prelude::*;

verus! {

pub const FULL_ROUNDS: usize = 8;

pub const PARTIAL_ROUNDS: usize = 56;

pub const SECURE_MDS: usize = 0;

/// The exponent of the S-box.
pub const ALPHA: u64 = 5;

/// `halo2curves::bn256::Fr`, as the parameters of the hash are stated for it.
#[verifier::external_type_specification]
#[verifier::external_body]
pub struct ExFr(halo2curves::bn256::Fr);

/// The parameters of the hash, as the generator of `halo2_poseidon` takes them.
#[derive(Clone, Copy, Debug)]
pub struct Bn254PoseidonMerkleSpec;

impl Spec<Fr, 3, 2> for Bn254PoseidonMerkleSpec {
    fn full_rounds() -> (r: usize)
        ensures
            r == FULL_ROUNDS,
    {
        FULL_ROUNDS
    }

    fn partial_rounds() -> (r: usize)
        ensures
            r == PARTIAL_ROUNDS,
    {
        PARTIAL_ROUNDS
    }

    /// `ff::Field::pow_vartime`. Nothing is claimed of it: the generator does not call it, and the
    /// permutation below has its own S-box.
    #[verifier::external_body]
    fn sbox(val: Fr) -> Fr {
        val.pow_vartime([ALPHA])
    }

    fn secure_mds() -> (r: usize)
        ensures
            r == SECURE_MDS,
    {
        SECURE_MDS
    }

    /// `halo2_poseidon::generate_constants`. Nothing is claimed of it here: what the generator
    /// returns is claimed of `generated_parameters`.
    #[verifier::external_body]
    fn constants() -> (Vec<[Fr; 3]>, Mds<Fr, 3>, Mds<Fr, 3>) {
        generate_constants::<Fr, Self, 3, 2>()
    }
}

/// What `halo2_poseidon::generate_constants` returns for width 3 over the scalar field of BN254:
/// the round constants, one row of three numbers per round, and the mixing matrix, row by row.
pub uninterp spec fn poseidon_parameters(
    full_rounds: nat,
    partial_rounds: nat,
    secure_mds: nat,
) -> (Seq<Seq<nat>>, Seq<Seq<nat>>);

/// The numbers that a row of three representations stands for.
pub open spec fn row_value(row: [[u8; 32]; 3]) -> Seq<nat> {
    seq![le_value(row@[0]@), le_value(row@[1]@), le_value(row@[2]@)]
}

pub open spec fn row_canonical(row: [[u8; 32]; 3]) -> bool {
    canonical(row@[0]@) && canonical(row@[1]@) && canonical(row@[2]@)
}

/// `halo2_poseidon::generate_constants` for `Bn254PoseidonMerkleSpec`: its round constants and its
/// mixing matrix, as the representations that `to_repr` writes. They are the same on every call,
/// there is one row of constants per round, and every entry is a field element.
#[verifier::external_body]
fn generated_parameters() -> (r: (Vec<[[u8; 32]; 3]>, [[[u8; 32]; 3]; 3]))
    ensures
        r.0@.map_values(|row: [[u8; 32]; 3]| row_value(row)) == poseidon_parameters(
            FULL_ROUNDS as nat,
            PARTIAL_ROUNDS as nat,
            SECURE_MDS as nat,
        ).0,
        r.1@.map_values(|row: [[u8; 32]; 3]| row_value(row)) == poseidon_parameters(
            FULL_ROUNDS as nat,
            PARTIAL_ROUNDS as nat,
            SECURE_MDS as nat,
        ).1,
        r.0@.len() == FULL_ROUNDS + PARTIAL_ROUNDS,
        forall|i: int| 0 <= i < r.0@.len() ==> row_canonical(#[trigger] r.0@[i]),
        forall|i: int| 0 <= i < 3 ==> row_canonical(#[trigger] r.1@[i]),
{
    let (constants, mds, _) = generate_constants::<Fr, Bn254PoseidonMerkleSpec, 3, 2>();
    (
        constants.iter().map(|row| row.map(|entry| entry.to_repr().into())).collect(),
        mds.map(|row| row.map(|entry| entry.to_repr().into())),
    )
}

/// The numbers that three field elements stand for.
pub open spec fn words(state: [FieldElement; 3]) -> Seq<nat> {
    seq![state@[0]@, state@[1]@, state@[2]@]
}

pub open spec fn rows(s: Seq<[FieldElement; 3]>) -> Seq<Seq<nat>> {
    s.map_values(|row: [FieldElement; 3]| words(row))
}

/// The S-box: the fifth power.
pub open spec fn sbox(x: nat) -> nat {
    (pow(x as int, ALPHA as nat) % (modulus() as int)) as nat
}

/// The state with the constants of one round added to it.
pub open spec fn with_constants(state: Seq<nat>, constants: Seq<nat>) -> Seq<nat> {
    Seq::new(3, |i: int| (state[i] + constants[i]) % modulus())
}

/// The state multiplied by the mixing matrix.
pub open spec fn mixed(state: Seq<nat>, mds: Seq<Seq<nat>>) -> Seq<nat> {
    Seq::new(
        3,
        |row: int|
            (mds[row][0] * state[0] + mds[row][1] * state[1] + mds[row][2] * state[2]) % modulus(),
    )
}

/// Whether the S-box of a round applies to the whole state, not only to its first word.
pub open spec fn is_full_round(round: nat) -> bool {
    round < FULL_ROUNDS / 2 || round >= FULL_ROUNDS / 2 + PARTIAL_ROUNDS
}

/// The state after its constants, S-box and mixing of one round.
pub open spec fn after_round(
    round: nat,
    state: Seq<nat>,
    constants: Seq<nat>,
    mds: Seq<Seq<nat>>,
) -> Seq<nat> {
    let added = with_constants(state, constants);
    let substituted = if is_full_round(round) {
        seq![sbox(added[0]), sbox(added[1]), sbox(added[2])]
    } else {
        seq![sbox(added[0]), added[1], added[2]]
    };
    mixed(substituted, mds)
}

/// The state after the first `rounds` rounds.
pub open spec fn permuted(
    rounds: nat,
    state: Seq<nat>,
    constants: Seq<Seq<nat>>,
    mds: Seq<Seq<nat>>,
) -> Seq<nat>
    decreases rounds,
{
    if rounds == 0 {
        state
    } else {
        let last = (rounds - 1) as nat;
        after_round(last, permuted(last, state, constants, mds), constants[last as int], mds)
    }
}

/// The Poseidon permutation of the tree.
pub open spec fn permutation(state: Seq<nat>) -> Seq<nat> {
    let parameters = poseidon_parameters(
        FULL_ROUNDS as nat,
        PARTIAL_ROUNDS as nat,
        SECURE_MDS as nat,
    );
    permuted((FULL_ROUNDS + PARTIAL_ROUNDS) as nat, state, parameters.0, parameters.1)
}

/// The capacity word of a sponge that absorbs three elements: three, times two to the 64.
pub const CAPACITY: u128 = 0x3_0000_0000_0000_0000;

/// The Poseidon hash of the three elements `domain`, `left` and `right`: the sponge absorbs the
/// first two, is permuted, absorbs the third, is permuted again, and gives its first word.
#[verifier::opaque]
pub open spec fn poseidon(domain: nat, left: nat, right: nat) -> nat {
    let first = permutation(seq![domain, left, CAPACITY as nat]);
    let absorbed = seq![(first[0] + right) % modulus(), first[1], first[2]];
    permutation(absorbed)[0]
}

/// A hash is a field element.
pub proof fn lemma_poseidon_below_modulus(domain: nat, left: nat, right: nat)
    ensures
        poseidon(domain, left, right) < modulus(),
{
    reveal(poseidon);
}

/// Reducing a sum of three after each addition gives what reducing it once gives.
proof fn lemma_sum3_mod(a: nat, b: nat, c: nat, m: nat)
    requires
        m > 0,
    ensures
        ((a % m + b % m) % m + c % m) % m == (a + b + c) % m,
{
    vstd::arithmetic::div_mod::lemma_add_mod_noop(a as int, b as int, m as int);
    vstd::arithmetic::div_mod::lemma_add_mod_noop((a + b) as int, c as int, m as int);
}

/// Runs one permutation on `state`, round by round of `round_constants`.
fn poseidon_permute(
    state: &mut [FieldElement; 3],
    mds: &[[FieldElement; 3]; 3],
    round_constants: &Vec<[FieldElement; 3]>,
)
    ensures
        words(*final(state)) == permuted(
            round_constants@.len(),
            words(*old(state)),
            rows(round_constants@),
            rows(mds@),
        ),
{
    let half_full: usize = Bn254PoseidonMerkleSpec::full_rounds() / 2;
    let partial: usize = Bn254PoseidonMerkleSpec::partial_rounds();
    let ghost start = words(*state);
    let mut round: usize = 0;
    while round < round_constants.len()
        invariant
            half_full == FULL_ROUNDS / 2,
            partial == PARTIAL_ROUNDS,
            round <= round_constants.len(),
            words(*state) == permuted(round as nat, start, rows(round_constants@), rows(mds@)),
        decreases round_constants.len() - round,
    {
        let ghost before = words(*state);
        let constants = &round_constants[round];
        let ghost added = with_constants(before, words(*constants));
        assert(rows(round_constants@)[round as int] == words(*constants));
        let a0 = state[0].plus(constants[0]);
        let a1 = state[1].plus(constants[1]);
        let a2 = state[2].plus(constants[2]);
        let substituted: [FieldElement; 3] = if round < half_full || round >= half_full + partial {
            [a0.power(ALPHA), a1.power(ALPHA), a2.power(ALPHA)]
        } else {
            [a0.power(ALPHA), a1, a2]
        };
        let ghost middle = words(substituted);
        assert(middle =~= if is_full_round(round as nat) {
            seq![sbox(added[0]), sbox(added[1]), sbox(added[2])]
        } else {
            seq![sbox(added[0]), added[1], added[2]]
        });
        let mut next: [FieldElement; 3] = [FieldElement::from_u64(0); 3];
        let mut row: usize = 0;
        while row < 3
            invariant
                row <= 3,
                middle == words(substituted),
                forall|k: int| 0 <= k < row ==> next@[k]@ == mixed(middle, rows(mds@))[k],
            decreases 3 - row,
        {
            let p0 = mds[row][0].times(substituted[0]);
            let p1 = mds[row][1].times(substituted[1]);
            let p2 = mds[row][2].times(substituted[2]);
            next[row] = p0.plus(p1).plus(p2);
            proof {
                assert(rows(mds@)[row as int] == words(mds@[row as int]));
                lemma_sum3_mod(
                    mds@[row as int]@[0]@ * middle[0],
                    mds@[row as int]@[1]@ * middle[1],
                    mds@[row as int]@[2]@ * middle[2],
                    modulus(),
                );
            }
            row = row + 1;
        }
        *state = next;
        assert(words(*state) =~= mixed(middle, rows(mds@)));
        round = round + 1;
    }
}

/// The generated constants of the hash. Their view is the numbers that they stand for: the round
/// constants and the mixing matrix, row by row.
#[derive(Debug)]
pub struct PoseidonConstants {
    round_constants: Vec<[FieldElement; 3]>,
    mds: [[FieldElement; 3]; 3],
}

impl View for PoseidonConstants {
    type V = (Seq<Seq<nat>>, Seq<Seq<nat>>);

    closed spec fn view(&self) -> (Seq<Seq<nat>>, Seq<Seq<nat>>) {
        (rows(self.round_constants@), rows(self.mds@))
    }
}

/// The element that a representation known to be one stands for.
fn element(repr: [u8; 32]) -> (r: FieldElement)
    requires
        canonical(repr@),
    ensures
        r@ == le_value(repr@),
{
    match FieldElement::from_repr(repr) {
        Some(element) => element,
        None => FieldElement::from_u64(0),
    }
}

fn element_row(row: &[[u8; 32]; 3]) -> (r: [FieldElement; 3])
    requires
        row_canonical(*row),
    ensures
        words(r) == row_value(*row),
{
    let r = [element(row[0]), element(row[1]), element(row[2])];
    assert(words(r) =~= row_value(*row));
    r
}

/// Generates the constants of the hash.
pub fn poseidon_constants() -> (r: PoseidonConstants)
    ensures
        r@ == poseidon_parameters(
            FULL_ROUNDS as nat,
            PARTIAL_ROUNDS as nat,
            SECURE_MDS as nat,
        ),
{
    let (constants, matrix) = generated_parameters();
    let mut round_constants: Vec<[FieldElement; 3]> = Vec::new();
    let mut i: usize = 0;
    while i < constants.len()
        invariant
            i <= constants@.len(),
            round_constants@.len() == i,
            forall|k: int| 0 <= k < constants@.len() ==> row_canonical(#[trigger] constants@[k]),
            forall|k: int| 0 <= k < i ==> words(round_constants@[k]) == row_value(constants@[k]),
        decreases constants.len() - i,
    {
        round_constants.push(element_row(&constants[i]));
        i = i + 1;
    }
    let mds = [element_row(&matrix[0]), element_row(&matrix[1]), element_row(&matrix[2])];
    assert(rows(round_constants@) =~= constants@.map_values(
        |row: [[u8; 32]; 3]| row_value(row),
    ));
    assert(rows(mds@) =~= matrix@.map_values(|row: [[u8; 32]; 3]| row_value(row)));
    PoseidonConstants { round_constants, mds }
}

impl PoseidonConstants {
    /// The constants are those of the tree's hash, one row per round.
    #[verifier::type_invariant]
    spec fn is_generated(self) -> bool {
        &&& self.round_constants@.len() == FULL_ROUNDS + PARTIAL_ROUNDS
        &&& self@ == poseidon_parameters(
            FULL_ROUNDS as nat,
            PARTIAL_ROUNDS as nat,
            SECURE_MDS as nat,
        )
    }

    /// The hash of `domain`, `left` and `right`.
    pub fn pair(&self, domain: u64, left: FieldElement, right: FieldElement) -> (r: FieldElement)
        ensures
            r@ == poseidon(domain as nat, left@, right@),
    {
        proof {
            use_type_invariant(self);
            reveal(poseidon);
        }
        let mut state = [
            FieldElement::from_u64(domain),
            left,
            FieldElement::from_u128(CAPACITY),
        ];
        assert(words(state) =~= seq![domain as nat, left@, CAPACITY as nat]);
        poseidon_permute(&mut state, &self.mds, &self.round_constants);
        let ghost first = permutation(seq![domain as nat, left@, CAPACITY as nat]);
        assert(words(state) == first);
        state[0] = state[0].plus(right);
        assert(words(state) =~= seq![(first[0] + right@) % modulus(), first[1], first[2]]);
        poseidon_permute(&mut state, &self.mds, &self.round_constants);
        state[0]
    }
}

/// The hash of `domain`, `left` and `right`. It generates the constants anew: to hash more than
/// once, keep the constants and use [`PoseidonConstants::pair`].
pub fn poseidon_pair(domain: u64, left: FieldElement, right: FieldElement) -> (r: FieldElement)
    ensures
        r@ == poseidon(domain as nat, left@, right@),
{
    poseidon_constants().pair(domain, left, right)
}

/// One round, word by word: each word gets its constant added and, the first one always and the
/// others in the first and the last four of 64 rounds, is raised to the fifth power; the result is
/// multiplied by the matrix.
pub proof fn law_round(
    round: nat,
    state: Seq<nat>,
    constants: Seq<nat>,
    mds: Seq<Seq<nat>>,
    substituted: Seq<nat>,
    row: int,
)
    requires
        0 <= row < 3,
        forall|i: int|
            0 <= i < 3 ==> #[trigger] substituted[i] == ({
                let x = (state[i] + constants[i]) % modulus();
                if i == 0 || round < 4 || round >= 60 {
                    (x * (x * (x * (x * x)))) % modulus()
                } else {
                    x
                }
            }),
    ensures
        after_round(round, state, constants, mds).len() == 3,
        after_round(round, state, constants, mds)[row] == (mds[row][0] * substituted[0]
            + mds[row][1] * substituted[1] + mds[row][2] * substituted[2]) % modulus(),
{
    assert forall|x: nat| #[trigger] sbox(x) == (x * (x * (x * (x * x)))) % modulus() by {
        reveal_with_fuel(pow, 6);
        let y = x as int;
        assert(pow(y, 5) == y * (y * (y * (y * (y * 1)))));
    }
    let added = with_constants(state, constants);
    assert(added[0] == (state[0] + constants[0]) % modulus());
    assert(added[1] == (state[1] + constants[1]) % modulus());
    assert(added[2] == (state[2] + constants[2]) % modulus());
}

/// The permutation is what 64 rounds lead to, each with its own constants, whatever the state.
pub proof fn law_permutation(trace: Seq<Seq<nat>>)
    requires
        trace.len() == 65,
        forall|k: int|
            0 <= k < 64 ==> trace[k + 1] == after_round(
                k as nat,
                #[trigger] trace[k],
                poseidon_parameters(8, 56, 0).0[k],
                poseidon_parameters(8, 56, 0).1,
            ),
    ensures
        permutation(trace[0]) == trace[64],
{
    lemma_trace(trace, 64);
}

proof fn lemma_trace(trace: Seq<Seq<nat>>, rounds: nat)
    requires
        rounds <= 64,
        trace.len() == 65,
        forall|k: int|
            0 <= k < 64 ==> trace[k + 1] == after_round(
                k as nat,
                #[trigger] trace[k],
                poseidon_parameters(8, 56, 0).0[k],
                poseidon_parameters(8, 56, 0).1,
            ),
    ensures
        permuted(
            rounds,
            trace[0],
            poseidon_parameters(8, 56, 0).0,
            poseidon_parameters(8, 56, 0).1,
        ) == trace[rounds as int],
    decreases rounds,
{
    if rounds > 0 {
        lemma_trace(trace, (rounds - 1) as nat);
    }
}

/// The hash of three elements is the first word of a sponge of rate two that has absorbed the
/// first two and then the third, starting from the capacity word of three elements.
pub proof fn law_sponge(domain: nat, left: nat, right: nat, first: Seq<nat>, second: Seq<nat>)
    requires
        first == permutation(seq![domain, left, 0x3_0000_0000_0000_0000nat]),
        second.len() == 3,
        second[0] == (first[0] + right) % modulus(),
        second[1] == first[1],
        second[2] == first[2],
    ensures
        poseidon(domain, left, right) == permutation(second)[0],
{
    reveal(poseidon);
    assert(second =~= seq![(first[0] + right) % modulus(), first[1], first[2]]);
}

/// Field elements in a row stand for numbers in that order.
pub proof fn law_words(state: [FieldElement; 3], table: Seq<[FieldElement; 3]>, i: int, k: int)
    requires
        0 <= i < 3,
        0 <= k < table.len(),
    ensures
        words(state).len() == 3,
        words(state)[i] == state@[i]@,
        rows(table).len() == table.len(),
        rows(table)[k] == words(table[k]),
{
}

} // verus!
