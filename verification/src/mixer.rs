//! Withdrawals from a tree. A deposit is withdrawn by a membership proof
//! against the root of the tree, together with the nullifier of the
//! deposit. A nullifier is accepted once: the nullifiers of the accepted
//! withdrawals are kept, and a withdrawal whose nullifier is among them is
//! refused. A nullifier is a field element: the 32 bytes that are handed in
//! are read little-endian and reduced modulo the group order, so that
//! every encoding of a spent nullifier is refused.

use crate::field::{bytes_equal, group_order, le_value, lemma_le_value_injective, FieldElement};
use crate::membership::{is_verdict_on, membership_gates, verify_membership, VerificationError};
use crate::merkle::MerkleAccumulator;
use crate::r1cs::Generators;
use vstd::prelude::*;

verus! {

/// Why a withdrawal was refused.
#[derive(Clone, Copy, Debug, PartialEq, Eq)]
pub enum WithdrawalError {
    /// The root is not the root of the tree.
    UnknownRoot,
    /// The nullifier has been used for a withdrawal.
    AlreadyRevealedNullifier,
    /// The membership proof was not accepted.
    Proof(VerificationError),
}

/// The nullifier that 32 bytes denote: their little-endian value reduced
/// modulo the group order.
pub open spec fn nullifier_value(bytes: Seq<u8>) -> nat {
    le_value(bytes) % group_order()
}

/// The nullifiers of the withdrawals accepted so far, in the order in which
/// they were accepted. None occurs twice.
pub struct SpentNullifiers {
    spent: Vec<FieldElement>,
}

impl View for SpentNullifiers {
    type V = Seq<nat>;

    closed spec fn view(&self) -> Seq<nat> {
        self.spent.deep_view()
    }
}

impl SpentNullifiers {
    /// No nullifier occurs twice.
    pub open spec fn wf(&self) -> bool {
        self@.no_duplicates()
    }

    /// No withdrawal has been accepted yet.
    pub fn new() -> (r: Self)
        ensures
            r@ == Seq::<nat>::empty(),
            r.wf(),
    {
        let r = SpentNullifiers { spent: Vec::new() };
        assert(r@ =~= Seq::<nat>::empty());
        r
    }

    /// The number of nullifiers.
    pub fn len(&self) -> (r: usize)
        ensures
            r == self@.len(),
    {
        self.spent.len()
    }

    /// Whether the nullifier that the bytes denote has been used.
    pub fn contains(&self, nullifier: &[u8; 32]) -> (r: bool)
        ensures
            r == self@.contains(nullifier_value(nullifier@)),
    {
        let element = FieldElement::from_bytes_mod_order(*nullifier);
        let mut i: usize = 0;
        while i < self.spent.len()
            invariant
                i <= self.spent.len(),
                element@ == nullifier_value(nullifier@),
                forall|j: int| 0 <= j < i ==> self@[j] != element@,
            decreases self.spent.len() - i,
        {
            if self.spent[i].equals(&element) {
                assert(self@[i as int] == element@);
                return true;
            }
            i += 1;
        }
        false
    }

    /// Records the nullifier that the bytes denote as used, unless it has
    /// been used before; says whether it was new.
    pub fn record(&mut self, nullifier: [u8; 32]) -> (r: bool)
        ensures
            r == !old(self)@.contains(nullifier_value(nullifier@)),
            r ==> final(self)@ == old(self)@.push(nullifier_value(nullifier@)),
            !r ==> final(self)@ == old(self)@,
            old(self).wf() ==> final(self).wf(),
    {
        if self.contains(&nullifier) {
            return false;
        }
        let ghost before = self@;
        self.spent.push(FieldElement::from_bytes_mod_order(nullifier));
        assert(self@ =~= before.push(nullifier_value(nullifier@)));
        true
    }
}

/// What a withdrawal returns: `known_root` says whether the root is the
/// root of the tree, `spent` whether the nullifier has been used, `proved`
/// what the verdict on the membership proof is.
pub open spec fn withdrawal_verdict(
    known_root: bool,
    spent: bool,
    proved: Result<(), VerificationError>,
) -> Result<(), WithdrawalError> {
    if !known_root {
        Err(WithdrawalError::UnknownRoot)
    } else if spent {
        Err(WithdrawalError::AlreadyRevealedNullifier)
    } else {
        match proved {
            Ok(()) => Ok(()),
            Err(e) => Err(WithdrawalError::Proof(e)),
        }
    }
}

/// A nullifier is accepted once, whatever its encoding: after a withdrawal
/// with the bytes `first` has been accepted, a withdrawal with bytes
/// `second` that denote the same nullifier is refused with
/// `AlreadyRevealedNullifier`, whatever its proof, as long as the root is
/// known.
pub proof fn lemma_spent_under_every_encoding(
    before: Seq<nat>,
    first: Seq<u8>,
    second: Seq<u8>,
    proved: Result<(), VerificationError>,
)
    requires
        nullifier_value(first) == nullifier_value(second),
    ensures
        withdrawal_verdict(
            true,
            before.push(nullifier_value(first)).contains(nullifier_value(second)),
            proved,
        ) == Err::<(), WithdrawalError>(WithdrawalError::AlreadyRevealedNullifier),
{
    let after = before.push(nullifier_value(first));
    assert(after[before.len() as int] == nullifier_value(second));
}

/// Ends a withdrawal whose root is known and whose nullifier has not been
/// used: if the membership proof was accepted the nullifier is recorded,
/// otherwise nothing changes.
pub fn settle_withdrawal(
    spent: &mut SpentNullifiers,
    nullifier_hash: [u8; 32],
    proved: Result<(), VerificationError>,
) -> (r: Result<(), WithdrawalError>)
    ensures
        r == withdrawal_verdict(true, old(spent)@.contains(nullifier_value(nullifier_hash@)), proved),
        r is Ok ==> final(spent)@ == old(spent)@.push(nullifier_value(nullifier_hash@)),
        r is Err ==> final(spent)@ == old(spent)@,
        old(spent).wf() ==> final(spent).wf(),
{
    if spent.contains(&nullifier_hash) {
        return Err(WithdrawalError::AlreadyRevealedNullifier);
    }
    match proved {
        Ok(()) => {
            spent.record(nullifier_hash);
            Ok(())
        },
        Err(e) => Err(WithdrawalError::Proof(e)),
    }
}

/// Checks a withdrawal from a tree and, if it is accepted, records its
/// nullifier as used. Refused with `UnknownRoot` unless the root is the
/// encoding of the root of the tree, then with `AlreadyRevealedNullifier`
/// when the nullifier has been used, under whatever encoding; only then is
/// the membership proof checked, against the root and the nullifier. A
/// refused withdrawal changes nothing.
pub fn verify_withdrawal(
    tree: &MerkleAccumulator,
    spent: &mut SpentNullifiers,
    gens: &Generators,
    label: &'static [u8],
    root: &[u8; 32],
    comms: &Vec<[u8; 32]>,
    nullifier_hash: &[u8; 32],
    proof_bytes: &[u8],
    leaf_index_comms: &Vec<[u8; 32]>,
    proof_comms: &Vec<[u8; 32]>,
) -> (r: Result<(), WithdrawalError>)
    requires
        tree.wf(),
        membership_gates(tree@.params, tree@.depth) <= usize::MAX,
    ensures
        le_value(root@) != tree@.root() ==> r == Err::<(), WithdrawalError>(
            WithdrawalError::UnknownRoot,
        ),
        le_value(root@) == tree@.root() && old(spent)@.contains(nullifier_value(nullifier_hash@)) ==> r == Err::<
            (),
            WithdrawalError,
        >(WithdrawalError::AlreadyRevealedNullifier),
        le_value(root@) == tree@.root() && !old(spent)@.contains(nullifier_value(nullifier_hash@)) ==> exists|
            proved: Result<(), VerificationError>,
        |
            is_verdict_on(
                proved,
                comms.len() as nat,
                leaf_index_comms.len() as nat,
                proof_comms.len() as nat,
                tree@.depth,
                proof_bytes@,
            ) && r == #[trigger] withdrawal_verdict(true, false, proved),
        r is Ok ==> final(spent)@ == old(spent)@.push(nullifier_value(nullifier_hash@)),
        r is Err ==> final(spent)@ == old(spent)@,
        old(spent).wf() ==> final(spent).wf(),
{
    let current = tree.root_bytes();
    proof {
        if le_value(root@) == tree@.root() {
            lemma_le_value_injective(root@, current@);
        }
    }
    if !bytes_equal(&current, root) {
        return Err(WithdrawalError::UnknownRoot);
    }
    if spent.contains(nullifier_hash) {
        return Err(WithdrawalError::AlreadyRevealedNullifier);
    }
    let proved = verify_membership(
        tree.hasher(),
        gens,
        label,
        tree.depth(),
        root,
        comms,
        nullifier_hash,
        proof_bytes,
        leaf_index_comms,
        proof_comms,
    );
    let r = settle_withdrawal(spent, *nullifier_hash, proved);
    assert(r == withdrawal_verdict(true, false, proved));
    r
}

} // verus!
