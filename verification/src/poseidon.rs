//! The Poseidon permutation over the scalar field and the 2-to-1 and 4-to-1
//! compression hashes built on it.
//!
//! The permutation runs `full_rounds + partial_rounds` rounds. A round applies
//! the cube map to every word of the state (a full round: the first and the
//! last `full_rounds / 2` of them) or to word 0 only (a partial round), and
//! then multiplies the state by the MDS matrix. Round keys are part of the
//! parameters but are not added to the state.

use crate::field::{field_inverse, group_order, le_value, FieldElement};
pub use crate::merge::simplify;
use crate::hex::{hex_bytes, is_hex_literal};
pub use crate::hex::decode_hex;
use vstd::arithmetic::div_mod::{lemma_add_mod_noop, lemma_mul_mod_noop_left};
use vstd::prelude::*;
use vstd::slice::slice_to_vec;

verus! {

/// Domain-separation constant placed after the inputs of a hash.
pub const PADDING_CONST: u64 = 101;

/// The constant that fills the unused words of a hash input.
pub const ZERO_CONST: u64 = 0;

/// Number of full rounds of the standard parameters.
pub const POSEIDON_FULL_ROUNDS: usize = 8;

/// Number of partial rounds of the standard parameters.
pub const POSEIDON_PARTIAL_ROUNDS: usize = 57;

/// State width of the two hashes.
pub const HASH_WIDTH: usize = 6;

/// The S-box: `x -> x^3` in the field.
pub open spec fn cube(x: nat) -> nat {
    (x * x * x) % group_order()
}

/// Sum of the first `n` products `row[j] * v[j]`, as an integer.
pub open spec fn dot_sum(row: Seq<nat>, v: Seq<nat>, n: nat) -> nat
    decreases n,
{
    if n == 0 {
        0
    } else {
        dot_sum(row, v, (n - 1) as nat) + row[n - 1] * v[n - 1]
    }
}

/// Inner product of a matrix row and a vector, in the field.
pub open spec fn dot(row: Seq<nat>, v: Seq<nat>) -> nat {
    dot_sum(row, v, v.len()) % group_order()
}

/// The inner product with a row of zeros is zero.
pub proof fn lemma_dot_zero_row(row: Seq<nat>, v: Seq<nat>, n: nat)
    requires
        n <= row.len(),
        forall|j: int| 0 <= j < row.len() ==> row[j] == 0,
    ensures
        dot_sum(row, v, n) == 0,
    decreases n,
{
    if n > 0 {
        lemma_dot_zero_row(row, v, (n - 1) as nat);
        assert(row[n - 1] * v[n - 1] == 0) by (nonlinear_arith)
            requires
                row[n - 1] == 0,
        ;
    }
}

/// Matrix-vector product in the field: word `i` of the result is the inner
/// product of row `i` with `v`.
pub open spec fn mat_vec(m: Seq<Seq<nat>>, v: Seq<nat>) -> Seq<nat> {
    Seq::new(m.len(), |i: int| dot(m[i], v))
}

/// The number that a 64-digit hex literal denotes as a field element: its 32
/// bytes read little-endian, reduced modulo the group order.
pub open spec fn hex_scalar(s: Seq<char>) -> nat {
    le_value(hex_bytes(s)) % group_order()
}

/// A literal that denotes a field element: `0x` and 64 hex digits.
pub open spec fn is_scalar_literal(s: Seq<char>) -> bool {
    is_hex_literal(s) && s.len() == 66
}

/// The parameters of a permutation, as mathematical values.
pub struct PoseidonParams {
    pub width: nat,
    pub full_rounds: nat,
    pub partial_rounds: nat,
    pub round_keys: Seq<nat>,
    pub mds: Seq<Seq<nat>>,
}

impl PoseidonParams {
    pub open spec fn total_rounds(self) -> nat {
        self.full_rounds + self.partial_rounds
    }

    /// The shape that every use of the parameters relies on: an even number
    /// of full rounds, one key per word and round, a square matrix.
    pub open spec fn wf(self) -> bool {
        &&& self.width >= 1
        &&& self.full_rounds % 2 == 0
        &&& self.round_keys.len() == self.width * self.total_rounds()
        &&& self.mds.len() == self.width
        &&& forall|i: int| 0 <= i < self.width ==> (#[trigger] self.mds[i]).len() == self.width
    }

    /// Round `r` is full if it is among the first or the last
    /// `full_rounds / 2` rounds.
    pub open spec fn is_full_round(self, r: nat) -> bool {
        r < self.full_rounds / 2 || r >= self.total_rounds() - self.full_rounds / 2
    }

    /// The state after the S-box layer of round `r`.
    pub open spec fn sub_words(self, r: nat, state: Seq<nat>) -> Seq<nat> {
        if self.is_full_round(r) {
            state.map_values(|x: nat| cube(x))
        } else {
            state.update(0, cube(state[0]))
        }
    }

    /// The state after round `r`.
    pub open spec fn round(self, r: nat, state: Seq<nat>) -> Seq<nat> {
        mat_vec(self.mds, self.sub_words(r, state))
    }

    /// The state after the first `n` rounds.
    pub open spec fn rounds(self, state: Seq<nat>, n: nat) -> Seq<nat>
        decreases n,
    {
        if n == 0 {
            state
        } else {
            self.round((n - 1) as nat, self.rounds(state, (n - 1) as nat))
        }
    }

    /// The permutation.
    pub open spec fn permute(self, state: Seq<nat>) -> Seq<nat> {
        self.rounds(state, self.total_rounds())
    }

    /// The 2-to-1 hash: word 1 of the permutation of
    /// `[0, a, b, PADDING_CONST, 0, 0]`.
    pub open spec fn hash2(self, a: nat, b: nat) -> nat {
        self.permute(seq![0nat, a, b, 101nat, 0nat, 0nat])[1]
    }

    /// The 4-to-1 hash: word 1 of the permutation of
    /// `[0, a, b, c, d, PADDING_CONST]`.
    pub open spec fn hash4(self, a: nat, b: nat, c: nat, d: nat) -> nat {
        self.permute(seq![0nat, a, b, c, d, 101nat])[1]
    }

    /// The hash of a reduced element and another element is reduced.
    pub proof fn lemma_hash2_reduced(self, a: nat, b: nat)
        requires
            self.wf(),
            self.width == HASH_WIDTH,
            a < group_order(),
        ensures
            self.hash2(a, b) < group_order(),
    {
        let input = seq![0nat, a, b, 101nat, 0nat, 0nat];
        let n = self.total_rounds();
        if n > 0 {
            self.lemma_rounds_len(input, (n - 1) as nat);
            let before = self.rounds(input, (n - 1) as nat);
            let state = self.sub_words((n - 1) as nat, before);
            assert(self.permute(input)[1] == dot(self.mds[1], state));
            vstd::arithmetic::div_mod::lemma_mod_bound(
                dot_sum(self.mds[1], state, state.len()) as int,
                group_order() as int,
            );
        }
    }

    /// That a hash keeps different inputs apart is a property of the
    /// constants, not of their shape: well-shaped parameters with a round
    /// and with zeros in row 1 of the matrix hash every pair to zero. So
    /// what is stated of tampered paths and of the nullifiers of different
    /// seeds takes as a premise that the hashes in question do not collide.
    pub proof fn lemma_zero_row_hashes_to_zero(self, a: nat, b: nat)
        requires
            self.wf(),
            self.width == HASH_WIDTH,
            self.total_rounds() >= 1,
            forall|j: int| 0 <= j < self.width ==> self.mds[1][j] == 0,
        ensures
            self.hash2(a, b) == 0,
    {
        let input = seq![0nat, a, b, 101nat, 0nat, 0nat];
        let n = self.total_rounds();
        self.lemma_rounds_len(input, (n - 1) as nat);
        let before = self.rounds(input, (n - 1) as nat);
        let state = self.sub_words((n - 1) as nat, before);
        assert(self.permute(input)[1] == dot(self.mds[1], state));
        assert(self.mds[1].len() == self.width);
        lemma_dot_zero_row(self.mds[1], state, state.len());
        vstd::arithmetic::div_mod::lemma_small_mod(0, group_order());
    }

    /// Every round keeps the width of the state.
    pub proof fn lemma_rounds_len(self, state: Seq<nat>, n: nat)
        requires
            self.wf(),
            state.len() == self.width,
        ensures
            self.rounds(state, n).len() == self.width,
        decreases n,
    {
        if n > 0 {
            self.lemma_rounds_len(state, (n - 1) as nat);
        }
    }
}

/// The parameters of a Poseidon permutation.
#[derive(Debug, PartialEq, Eq)]
pub struct Poseidon {
    pub width: usize,
    /// Number of full S-box rounds.
    pub full_rounds: usize,
    /// Number of partial S-box rounds.
    pub partial_rounds: usize,
    pub round_keys: Vec<FieldElement>,
    pub mds_matrix: Vec<Vec<FieldElement>>,
}

impl View for Poseidon {
    type V = PoseidonParams;

    open spec fn view(&self) -> PoseidonParams {
        PoseidonParams {
            width: self.width as nat,
            full_rounds: self.full_rounds as nat,
            partial_rounds: self.partial_rounds as nat,
            round_keys: self.round_keys.deep_view(),
            mds: self.mds_matrix.deep_view(),
        }
    }
}

impl Default for Poseidon {
    /// Parameters of width zero without rounds, keys or matrix. They are
    /// not well formed: they stand for parameters that are yet to be
    /// chosen.
    fn default() -> (r: Poseidon)
        ensures
            r.width == 0,
            r.full_rounds == 0,
            r.partial_rounds == 0,
            r.round_keys@.len() == 0,
            r.mds_matrix@.len() == 0,
    {
        Poseidon {
            width: 0,
            full_rounds: 0,
            partial_rounds: 0,
            round_keys: Vec::new(),
            mds_matrix: Vec::new(),
        }
    }
}

impl Clone for Poseidon {
    fn clone(&self) -> (r: Poseidon)
        ensures
            r@ == self@,
    {
        let round_keys = copy_elements(&self.round_keys);
        let mut mds_matrix: Vec<Vec<FieldElement>> = Vec::new();
        let mut i: usize = 0;
        while i < self.mds_matrix.len()
            invariant
                i <= self.mds_matrix.len(),
                mds_matrix.len() == i,
                forall|k: int| 0 <= k < i ==> mds_matrix@[k]@ == self.mds_matrix@[k]@,
            decreases self.mds_matrix.len() - i,
        {
            mds_matrix.push(copy_elements(&self.mds_matrix[i]));
            i += 1;
        }
        assert(mds_matrix.deep_view() =~= self.mds_matrix.deep_view()) by {
            assert forall|k: int| 0 <= k < mds_matrix.len() implies mds_matrix@[k].deep_view()
                == self.mds_matrix@[k].deep_view() by {
                assert(mds_matrix@[k].deep_view() =~= self.mds_matrix@[k].deep_view());
            }
        }
        assert(round_keys.deep_view() =~= self.round_keys.deep_view());
        Poseidon {
            width: self.width,
            full_rounds: self.full_rounds,
            partial_rounds: self.partial_rounds,
            round_keys,
            mds_matrix,
        }
    }
}

/// A vector with the same elements.
fn copy_elements(v: &Vec<FieldElement>) -> (r: Vec<FieldElement>)
    ensures
        r@ == v@,
{
    slice_to_vec(v.as_slice())
}

/// The inner product of a matrix row and a vector.
fn dot_product(row: &Vec<FieldElement>, v: &Vec<FieldElement>) -> (r: FieldElement)
    requires
        row.len() == v.len(),
    ensures
        r@ == dot(row.deep_view(), v.deep_view()),
{
    let mut acc = FieldElement::zero();
    let mut j: usize = 0;
    proof {
        vstd::arithmetic::div_mod::lemma_small_mod(0, group_order());
    }
    while j < v.len()
        invariant
            j <= v.len(),
            row.len() == v.len(),
            acc@ == dot_sum(row.deep_view(), v.deep_view(), j as nat) % group_order(),
        decreases v.len() - j,
    {
        let term = row[j].mul(&v[j]);
        let next = acc.add(&term);
        proof {
            let s = dot_sum(row.deep_view(), v.deep_view(), j as nat);
            let p = row.deep_view()[j as int] * v.deep_view()[j as int];
            assert(term@ == p % group_order());
            lemma_add_mod_noop(s as int, p as int, group_order() as int);
            assert(next@ == (s + p) % group_order());
        }
        acc = next;
        j += 1;
    }
    acc
}

/// The product of a matrix and a vector: `r[i]` is the sum over `j` of
/// `lhs[i][j] * rhs[j]`.
pub fn mat_mul(lhs: &Vec<Vec<FieldElement>>, rhs: &Vec<FieldElement>) -> (r: Vec<FieldElement>)
    requires
        forall|i: int| 0 <= i < lhs.len() ==> (#[trigger] lhs@[i]).len() == rhs.len(),
    ensures
        r.len() == lhs.len(),
        r.deep_view() == mat_vec(lhs.deep_view(), rhs.deep_view()),
{
    let mut out: Vec<FieldElement> = Vec::new();
    let mut i: usize = 0;
    while i < lhs.len()
        invariant
            i <= lhs.len(),
            out.len() == i,
            forall|k: int| 0 <= k < lhs.len() ==> (#[trigger] lhs@[k]).len() == rhs.len(),
            forall|k: int|
                0 <= k < i ==> (#[trigger] out@[k])@ == dot(
                    lhs.deep_view()[k],
                    rhs.deep_view(),
                ),
        decreases lhs.len() - i,
    {
        let d = dot_product(&lhs[i], rhs);
        out.push(d);
        i += 1;
    }
    assert(out.deep_view() =~= mat_vec(lhs.deep_view(), rhs.deep_view()));
    out
}

/// Decodes a 64-digit hex literal into a field element: the 32 bytes are read
/// little-endian and reduced modulo the group order.
pub fn get_scalar_from_hex(hex_str: &str) -> (r: FieldElement)
    requires
        is_scalar_literal(hex_str@),
    ensures
        r@ == hex_scalar(hex_str@),
{
    let bytes = decode_hex(hex_str);
    let mut result: [u8; 32] = [0u8; 32];
    let mut i: usize = 0;
    while i < 32
        invariant
            i <= 32,
            bytes.len() == 32,
            forall|k: int| 0 <= k < i ==> result[k] == bytes[k],
        decreases 32 - i,
    {
        result[i] = bytes[i];
        i += 1;
    }
    assert(result@ =~= bytes@);
    FieldElement::from_bytes_mod_order(result)
}

impl Poseidon {
    /// The parameters are well shaped and the number of rounds fits the
    /// machine's word.
    pub open spec fn wf(&self) -> bool {
        &&& self@.wf()
        &&& self.full_rounds + self.partial_rounds <= usize::MAX
    }

    /// Decides `wf`.
    pub fn is_well_formed(&self) -> (r: bool)
        ensures
            r == self.wf(),
    {
        if self.width < 1 || self.full_rounds % 2 != 0 {
            return false;
        }
        let total = match self.full_rounds.checked_add(self.partial_rounds) {
            Some(t) => t,
            None => { return false; },
        };
        match self.width.checked_mul(total) {
            Some(n) => {
                if self.round_keys.len() != n {
                    return false;
                }
            },
            None => {
                assert(self.round_keys.len() <= usize::MAX);
                return false;
            },
        }
        if self.mds_matrix.len() != self.width {
            return false;
        }
        let mut i: usize = 0;
        while i < self.width
            invariant
                i <= self.width,
                self.mds_matrix.len() == self.width,
                forall|k: int| 0 <= k < i ==> (#[trigger] self@.mds[k]).len() == self.width,
            decreases self.width - i,
        {
            if self.mds_matrix[i].len() != self.width {
                assert(self@.mds[i as int].len() != self.width);
                return false;
            }
            i += 1;
        }
        true
    }

    /// The standard parameters for a given width, read from tables of hex
    /// literals: `round_consts` holds at least one key per word and round,
    /// `mds_entries` the rows of the matrix.
    pub fn new(width: usize, round_consts: &Vec<&str>, mds_entries: &Vec<Vec<&str>>) -> (r:
        Poseidon)
        requires
            width >= 1,
            width * (POSEIDON_FULL_ROUNDS + POSEIDON_PARTIAL_ROUNDS) <= usize::MAX,
            round_keys_available(
                (width * (POSEIDON_FULL_ROUNDS + POSEIDON_PARTIAL_ROUNDS)) as nat,
                round_consts@,
            ),
            mds_entries_available(width as nat, mds_entries@),
        ensures
            r.wf(),
            r.width == width,
            r.full_rounds == POSEIDON_FULL_ROUNDS,
            r.partial_rounds == POSEIDON_PARTIAL_ROUNDS,
            r@.round_keys == round_keys_of(
                (width * (POSEIDON_FULL_ROUNDS + POSEIDON_PARTIAL_ROUNDS)) as nat,
                round_consts@,
            ),
            r@.mds == mds_of(width as nat, mds_entries@),
    {
        let full_rounds = POSEIDON_FULL_ROUNDS;
        let partial_rounds = POSEIDON_PARTIAL_ROUNDS;
        let total_rounds = full_rounds + partial_rounds;
        let round_keys = Self::gen_round_keys(width, total_rounds, round_consts);
        let matrix_2 = Self::gen_mds_matrix(width, mds_entries);
        Poseidon { width, full_rounds, partial_rounds, round_keys, mds_matrix: matrix_2 }
    }

    /// The first `width * total_rounds` entries of a table of hex literals,
    /// decoded.
    pub fn gen_round_keys(width: usize, total_rounds: usize, round_consts: &Vec<&str>) -> (r: Vec<
        FieldElement,
    >)
        requires
            width * total_rounds <= usize::MAX,
            round_keys_available((width * total_rounds) as nat, round_consts@),
        ensures
            r.deep_view() == round_keys_of((width * total_rounds) as nat, round_consts@),
    {
        let cap = total_rounds * width;
        assert(cap == width * total_rounds) by (nonlinear_arith)
            requires
                cap == total_rounds * width,
        ;
        let mut rc: Vec<FieldElement> = Vec::new();
        let mut i: usize = 0;
        while i < cap
            invariant
                i <= cap,
                cap == width * total_rounds,
                round_keys_available(cap as nat, round_consts@),
                rc.len() == i,
                forall|k: int| 0 <= k < i ==> (#[trigger] rc@[k])@ == hex_scalar(round_consts@[k]@),
            decreases cap - i,
        {
            let c = get_scalar_from_hex(round_consts[i]);
            rc.push(c);
            i += 1;
        }
        assert(rc.deep_view() =~= round_keys_of(cap as nat, round_consts@));
        rc
    }

    /// A `width` by `width` table of hex literals, decoded.
    pub fn gen_mds_matrix(width: usize, mds_entries: &Vec<Vec<&str>>) -> (r: Vec<
        Vec<FieldElement>,
    >)
        requires
            mds_entries_available(width as nat, mds_entries@),
        ensures
            r.deep_view() == mds_of(width as nat, mds_entries@),
    {
        let mut mds: Vec<Vec<FieldElement>> = Vec::new();
        let mut i: usize = 0;
        while i < width
            invariant
                i <= width,
                mds_entries_available(width as nat, mds_entries@),
                mds.len() == i,
                forall|k: int|
                    0 <= k < i ==> (#[trigger] mds@[k]).deep_view() == mds_row_of(
                        width as nat,
                        mds_entries@[k]@,
                    ),
            decreases width - i,
        {
            let mut row: Vec<FieldElement> = Vec::new();
            let mut j: usize = 0;
            while j < width
                invariant
                    j <= width,
                    i < width,
                    mds_entries_available(width as nat, mds_entries@),
                    row.len() == j,
                    forall|k: int|
                        0 <= k < j ==> (#[trigger] row@[k])@ == hex_scalar(
                            mds_entries@[i as int]@[k]@,
                        ),
                decreases width - j,
            {
                let entries = &mds_entries[i];
                let c = get_scalar_from_hex(entries[j]);
                row.push(c);
                j += 1;
            }
            assert(row.deep_view() =~= mds_row_of(width as nat, mds_entries@[i as int]@));
            mds.push(row);
            i += 1;
        }
        assert(mds.deep_view() =~= mds_of(width as nat, mds_entries@));
        mds
    }

    /// The S-box: the cube of `elem`.
    pub fn apply_sbox(&self, elem: &FieldElement) -> (r: FieldElement)
        ensures
            r@ == cube(elem@),
    {
        let sqr = elem.mul(elem);
        let r = sqr.mul(elem);
        proof {
            lemma_mul_mod_noop_left((elem@ * elem@) as int, elem@ as int, group_order() as int);
        }
        r
    }

    /// The permutation of a state of `width` words.
    pub fn permute(&self, inputs: &[FieldElement]) -> (r: Vec<FieldElement>)
        requires
            self.wf(),
            inputs@.len() == self.width,
        ensures
            r.len() == self.width,
            r.deep_view() == self@.permute(inputs.deep_view()),
    {
        let rounds = self.full_rounds + self.partial_rounds;
        let full_rounds_per_side = self.full_rounds / 2;
        let mut current = slice_to_vec(inputs);
        assert(current.deep_view() =~= inputs.deep_view());
        let mut round: usize = 0;
        while round < rounds
            invariant
                round <= rounds,
                self.wf(),
                rounds == self.full_rounds + self.partial_rounds,
                full_rounds_per_side == self.full_rounds / 2,
                current.len() == self.width,
                current.deep_view() == self@.rounds(inputs.deep_view(), round as nat),
            decreases rounds - round,
        {
            let ghost before = current.deep_view();
            // Sub words layer.
            let full = round < full_rounds_per_side || round >= rounds - full_rounds_per_side;
            if full {
                current = self.apply_sbox_all(&current);
            } else {
                let first = self.apply_sbox(&current[0]);
                current[0] = first;
                assert(current.deep_view() =~= before.update(0, cube(before[0])));
            }
            assert(full == self@.is_full_round(round as nat));
            assert(current.deep_view() == self@.sub_words(round as nat, before));

            // Mix layer.
            assert forall|i: int| 0 <= i < self.mds_matrix.len() implies (
            #[trigger] self.mds_matrix@[i]).len() == current.len() by {
                assert(self@.mds[i].len() == self.width);
            }
            current = mat_mul(&self.mds_matrix, &current);
            round += 1;
        }
        current
    }

    /// The S-box applied to every word.
    fn apply_sbox_all(&self, state: &Vec<FieldElement>) -> (r: Vec<FieldElement>)
        ensures
            r.len() == state.len(),
            r.deep_view() == state.deep_view().map_values(|x: nat| cube(x)),
    {
        let mut out: Vec<FieldElement> = Vec::new();
        let mut i: usize = 0;
        while i < state.len()
            invariant
                i <= state.len(),
                out.len() == i,
                forall|k: int| 0 <= k < i ==> (#[trigger] out@[k])@ == cube(state@[k]@),
            decreases state.len() - i,
        {
            out.push(self.apply_sbox(&state[i]));
            i += 1;
        }
        assert(out.deep_view() =~= state.deep_view().map_values(|x: nat| cube(x)));
        out
    }

    /// The 2-to-1 hash of `xl` and `xr`.
    pub fn hash_2(&self, xl: FieldElement, xr: FieldElement) -> (r: FieldElement)
        requires
            self.wf(),
            self.width == HASH_WIDTH,
        ensures
            r@ == self@.hash2(xl@, xr@),
    {
        let input = vec![
            FieldElement::from_u64(ZERO_CONST),
            xl,
            xr,
            FieldElement::from_u64(PADDING_CONST),
            FieldElement::from_u64(ZERO_CONST),
            FieldElement::from_u64(ZERO_CONST),
        ];
        assert(input.deep_view() =~= seq![0nat, xl@, xr@, 101nat, 0nat, 0nat]);
        let out = self.permute(input.as_slice());
        out[1]
    }

    /// The 4-to-1 hash of `x1` to `x4`.
    pub fn hash_4(&self, x1: FieldElement, x2: FieldElement, x3: FieldElement, x4: FieldElement) -> (r:
        FieldElement)
        requires
            self.wf(),
            self.width == HASH_WIDTH,
        ensures
            r@ == self@.hash4(x1@, x2@, x3@, x4@),
    {
        let input = vec![
            FieldElement::from_u64(ZERO_CONST),
            x1,
            x2,
            x3,
            x4,
            FieldElement::from_u64(PADDING_CONST),
        ];
        assert(input.deep_view() =~= seq![0nat, x1@, x2@, x3@, x4@, 101nat]);
        let out = self.permute(input.as_slice());
        out[1]
    }

    /// The hash of a pair of tree nodes: `hash_2`.
    pub fn hash(&self, xl: FieldElement, xr: FieldElement) -> (r: FieldElement)
        requires
            self.wf(),
            self.width == HASH_WIDTH,
        ensures
            r@ == self@.hash2(xl@, xr@),
    {
        self.hash_2(xl, xr)
    }
}

/// The parameters that `default_hasher` returns: width `HASH_WIDTH`, the
/// standard numbers of rounds, key `k` equal to `k + 1`, and the Cauchy
/// matrix whose entry in row `i` and column `j` is the inverse of
/// `i + j + HASH_WIDTH`.
pub open spec fn default_params() -> PoseidonParams {
    PoseidonParams {
        width: HASH_WIDTH as nat,
        full_rounds: POSEIDON_FULL_ROUNDS as nat,
        partial_rounds: POSEIDON_PARTIAL_ROUNDS as nat,
        round_keys: Seq::new(
            (HASH_WIDTH * (POSEIDON_FULL_ROUNDS + POSEIDON_PARTIAL_ROUNDS)) as nat,
            |k: int| (k + 1) as nat,
        ),
        mds: Seq::new(
            HASH_WIDTH as nat,
            |i: int| Seq::new(HASH_WIDTH as nat, |j: int| field_inverse((i + j + HASH_WIDTH) as nat)),
        ),
    }
}

/// Standard parameters of width `HASH_WIDTH` that need no table of
/// constants.
pub fn default_hasher() -> (r: Poseidon)
    ensures
        r.wf(),
        r@ == default_params(),
{
    let width = HASH_WIDTH;
    let total_rounds = POSEIDON_FULL_ROUNDS + POSEIDON_PARTIAL_ROUNDS;
    let count = width * total_rounds;
    let mut round_keys: Vec<FieldElement> = Vec::new();
    let mut k: usize = 0;
    while k < count
        invariant
            k <= count == 390,
            round_keys.len() == k,
            forall|n: int| 0 <= n < k ==> (#[trigger] round_keys@[n])@ == n + 1,
        decreases count - k,
    {
        round_keys.push(FieldElement::from_u64((k + 1) as u64));
        k += 1;
    }
    let mut mds_matrix: Vec<Vec<FieldElement>> = Vec::new();
    let mut i: usize = 0;
    while i < width
        invariant
            i <= width == HASH_WIDTH,
            mds_matrix.len() == i,
            forall|a: int|
                0 <= a < i ==> (#[trigger] mds_matrix@[a]).deep_view() == default_params().mds[a],
        decreases width - i,
    {
        let mut row: Vec<FieldElement> = Vec::new();
        let mut j: usize = 0;
        while j < width
            invariant
                j <= width == HASH_WIDTH,
                i < width,
                row.len() == j,
                forall|b: int|
                    0 <= b < j ==> (#[trigger] row@[b])@ == field_inverse(
                        (i + b + HASH_WIDTH) as nat,
                    ),
            decreases width - j,
        {
            let x = FieldElement::from_u64((i + j + width) as u64);
            row.push(x.invert());
            j += 1;
        }
        assert(row.deep_view() =~= default_params().mds[i as int]);
        mds_matrix.push(row);
        i += 1;
    }
    let r = Poseidon {
        width,
        full_rounds: POSEIDON_FULL_ROUNDS,
        partial_rounds: POSEIDON_PARTIAL_ROUNDS,
        round_keys,
        mds_matrix,
    };
    assert(r@.round_keys =~= default_params().round_keys);
    assert(r@.mds =~= default_params().mds);
    r
}

/// The table holds a literal for each of the first `count` keys.
pub open spec fn round_keys_available(count: nat, table: Seq<&str>) -> bool {
    &&& table.len() >= count
    &&& forall|k: int| 0 <= k < count ==> is_scalar_literal((#[trigger] table[k])@)
}

/// The first `count` keys that the table denotes.
pub open spec fn round_keys_of(count: nat, table: Seq<&str>) -> Seq<nat> {
    Seq::new(count, |k: int| hex_scalar(table[k]@))
}

/// The table is `width` by `width` and every entry is a literal.
pub open spec fn mds_entries_available(width: nat, table: Seq<Vec<&str>>) -> bool {
    &&& table.len() == width
    &&& forall|i: int| 0 <= i < width ==> (#[trigger] table[i]).len() == width
    &&& forall|i: int, j: int|
        0 <= i < width && 0 <= j < width ==> is_scalar_literal((#[trigger] table[i]@[j])@)
}

/// The matrix row that a row of the table denotes.
pub open spec fn mds_row_of(width: nat, row: Seq<&str>) -> Seq<nat> {
    Seq::new(width, |j: int| hex_scalar(row[j]@))
}

/// The matrix that the table denotes.
pub open spec fn mds_of(width: nat, table: Seq<Vec<&str>>) -> Seq<Seq<nat>> {
    Seq::new(width, |i: int| mds_row_of(width, table[i]@))
}

} // verus!
