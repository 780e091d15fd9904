//! Assignment certificates and approval votes, in the two forms that the protocol versions know.
use crate::bitfield::{
    bitfields_are_extensional, Bitfield, CandidateBitfield, CoreBitfield, MAX_BITFIELD_SIZE,
};
use crate::primitives::{BlockHash, CandidateIndex, ValidatorIndex};
use vstd::prelude::*;

verus! {

/// The output of a verifiable random function together with the proof of it.
#[derive(Clone, Copy, Debug, PartialEq, Eq)]
pub struct VrfSignature {
    pub pre_output: [u8; 32],
    pub proof: [u8; 64],
}

/// A validator's signature under an approval vote.
#[derive(Clone, Copy, Debug, PartialEq, Eq)]
pub struct ValidatorSignature(pub [u8; 64]);

/// The ways in which a certificate can assign a validator to a single core.
#[derive(Clone, Copy, Debug, PartialEq, Eq, Structural)]
pub enum AssignmentCertKind {
    /// An assignment from the relay chain's randomness, by the number of the sample.
    RelayVRFModulo { sample: u32 },
    /// A delayed assignment to a core.
    RelayVRFDelay { core_index: u32 },
}

/// The ways in which a certificate can assign a validator to one core or several.
#[derive(Clone, Copy, Debug, PartialEq, Eq, Structural)]
pub enum AssignmentCertKindV2 {
    /// One certificate for all cores of a set.
    RelayVRFModuloCompact { core_bitfield: CoreBitfield },
    /// A delayed assignment to a core.
    RelayVRFDelay { core_index: u32 },
    /// An assignment from the relay chain's randomness, by the number of the sample.
    RelayVRFModulo { sample: u32 },
}

/// A certificate of assignment.
#[derive(Clone, Copy, Debug, PartialEq, Eq)]
pub struct AssignmentCert {
    pub kind: AssignmentCertKind,
    pub vrf: VrfSignature,
}

/// A certificate of assignment of the second form.
#[derive(Clone, Copy, Debug, PartialEq, Eq)]
pub struct AssignmentCertV2 {
    pub kind: AssignmentCertKindV2,
    pub vrf: VrfSignature,
}

/// A certificate with the block that it is for and the validator that issued it.
#[derive(Clone, Copy, Debug, PartialEq, Eq)]
pub struct IndirectAssignmentCert {
    pub block_hash: BlockHash,
    pub validator: ValidatorIndex,
    pub cert: AssignmentCert,
}

/// A certificate of the second form with the block that it is for and the validator that issued it.
#[derive(Clone, Copy, Debug, PartialEq, Eq)]
pub struct IndirectAssignmentCertV2 {
    pub block_hash: BlockHash,
    pub validator: ValidatorIndex,
    pub cert: AssignmentCertV2,
}

/// A vote that approves one candidate of a block.
#[derive(Clone, Copy, Debug, PartialEq, Eq)]
pub struct IndirectSignedApprovalVote {
    pub block_hash: BlockHash,
    pub candidate_index: CandidateIndex,
    pub validator: ValidatorIndex,
    pub signature: ValidatorSignature,
}

/// A vote that approves a set of candidates of a block.
#[derive(Clone, Copy, Debug, PartialEq, Eq)]
pub struct IndirectSignedApprovalVoteV2 {
    pub block_hash: BlockHash,
    pub candidate_indices: CandidateBitfield,
    pub validator: ValidatorIndex,
    pub signature: ValidatorSignature,
}

/// An assignment as it is gossiped: the certificate and the candidates that it claims.
#[derive(Clone, Copy, Debug, PartialEq, Eq)]
pub struct Assignment {
    pub cert: IndirectAssignmentCertV2,
    pub candidates: CandidateBitfield,
}

/// The kind of the second form that says the same.
pub open spec fn upgraded_kind(kind: AssignmentCertKind) -> AssignmentCertKindV2 {
    match kind {
        AssignmentCertKind::RelayVRFModulo { sample } => AssignmentCertKindV2::RelayVRFModulo { sample },
        AssignmentCertKind::RelayVRFDelay { core_index } => AssignmentCertKindV2::RelayVRFDelay { core_index },
    }
}

/// The certificate of the second form that says the same.
pub open spec fn upgraded_cert(cert: IndirectAssignmentCert) -> IndirectAssignmentCertV2 {
    IndirectAssignmentCertV2 {
        block_hash: cert.block_hash,
        validator: cert.validator,
        cert: AssignmentCertV2 { kind: upgraded_kind(cert.cert.kind), vrf: cert.cert.vrf },
    }
}

impl IndirectAssignmentCert {
    /// The same certificate in the second form.
    pub fn upgrade(&self) -> (cert: IndirectAssignmentCertV2)
        ensures
            cert == upgraded_cert(*self),
    {
        let kind = match self.cert.kind {
            AssignmentCertKind::RelayVRFModulo { sample } => AssignmentCertKindV2::RelayVRFModulo { sample },
            AssignmentCertKind::RelayVRFDelay { core_index } => AssignmentCertKindV2::RelayVRFDelay { core_index },
        };
        IndirectAssignmentCertV2 {
            block_hash: self.block_hash,
            validator: self.validator,
            cert: AssignmentCertV2 { kind, vrf: self.cert.vrf },
        }
    }
}

/// The certificate of the first form that says the same, which there is none of for a certificate
/// that covers a set of cores.
pub open spec fn downgraded_cert(cert: IndirectAssignmentCertV2) -> Option<IndirectAssignmentCert> {
    match cert.cert.kind {
        AssignmentCertKindV2::RelayVRFModuloCompact { .. } => None,
        AssignmentCertKindV2::RelayVRFDelay { core_index } => Some(
            IndirectAssignmentCert {
                block_hash: cert.block_hash,
                validator: cert.validator,
                cert: AssignmentCert {
                    kind: AssignmentCertKind::RelayVRFDelay { core_index },
                    vrf: cert.cert.vrf,
                },
            },
        ),
        AssignmentCertKindV2::RelayVRFModulo { sample } => Some(
            IndirectAssignmentCert {
                block_hash: cert.block_hash,
                validator: cert.validator,
                cert: AssignmentCert {
                    kind: AssignmentCertKind::RelayVRFModulo { sample },
                    vrf: cert.cert.vrf,
                },
            },
        ),
    }
}

impl IndirectAssignmentCertV2 {
    /// The same certificate in the first form, which has no room for one that covers a set of cores.
    pub fn downgrade(&self) -> (cert: Option<IndirectAssignmentCert>)
        ensures
            cert == downgraded_cert(*self),
    {
        let kind = match self.cert.kind {
            AssignmentCertKindV2::RelayVRFModuloCompact { .. } => {
                return None;
            },
            AssignmentCertKindV2::RelayVRFDelay { core_index } => AssignmentCertKind::RelayVRFDelay { core_index },
            AssignmentCertKindV2::RelayVRFModulo { sample } => AssignmentCertKind::RelayVRFModulo { sample },
        };
        Some(
            IndirectAssignmentCert {
                block_hash: self.block_hash,
                validator: self.validator,
                cert: AssignmentCert { kind, vrf: self.cert.vrf },
            },
        )
    }
}

/// An assignment in the form that peers of the first two protocol versions understand.
#[derive(Clone, Copy, Debug, PartialEq, Eq)]
pub struct AssignmentV1 {
    pub cert: IndirectAssignmentCert,
    pub candidate_index: CandidateIndex,
}

/// The only index of a set, if it holds exactly one.
pub open spec fn only_index(field: Bitfield) -> Option<CandidateIndex> {
    if exists|index: CandidateIndex| #[trigger] field.is_single(index as int) {
        Some(choose|index: CandidateIndex| #[trigger] field.is_single(index as int))
    } else {
        None
    }
}

proof fn lemma_only_index(field: Bitfield, only: Option<u32>)
    requires
        only matches Some(index) ==> field.is_single(index as int),
        only is None ==> forall|index: int| !field.is_single(index),
    ensures
        only == only_index(field),
{
    if let Some(index) = only {
        assert(field.is_single(index as int));
        let other = choose|i: CandidateIndex| #[trigger] field.is_single(i as int);
        assert(field.has(index as int));
        assert(field.has(index as int) <==> index == other);
    }
}

/// The assignment in the first form: it must claim one candidate with a certificate for one core.
pub open spec fn downgraded_assignment(assignment: Assignment) -> Option<AssignmentV1> {
    match (downgraded_cert(assignment.cert), only_index(assignment.candidates)) {
        (Some(cert), Some(candidate_index)) => Some(AssignmentV1 { cert, candidate_index }),
        _ => None,
    }
}

impl Assignment {
    /// The same assignment in the first form, if that has room for it.
    pub fn downgrade(&self) -> (assignment: Option<AssignmentV1>)
        ensures
            assignment == downgraded_assignment(*self),
    {
        let only = self.candidates.only_one();
        proof {
            lemma_only_index(self.candidates, only);
        }
        match (self.cert.downgrade(), only) {
            (Some(cert), Some(candidate_index)) => Some(AssignmentV1 { cert, candidate_index }),
            _ => None,
        }
    }
}

/// The assignment in the second form, which there is none of if the candidate's index has no place in
/// a bit field.
pub open spec fn upgraded_assignment(assignment: AssignmentV1) -> Option<Assignment> {
    if assignment.candidate_index < MAX_BITFIELD_SIZE {
        Some(
            Assignment {
                cert: upgraded_cert(assignment.cert),
                candidates: Bitfield::singleton(assignment.candidate_index as int),
            },
        )
    } else {
        None
    }
}

/// There is one set of a single index.
proof fn lemma_singleton(field: Bitfield, index: int)
    requires
        field.is_single(index),
    ensures
        field == Bitfield::singleton(index),
{
    bitfields_are_extensional(field, Bitfield::singleton(index));
}

impl AssignmentV1 {
    /// The same assignment in the second form, unless the candidate's index has no place in a bit
    /// field.
    pub fn upgrade(&self) -> (assignment: Option<Assignment>)
        ensures
            assignment == upgraded_assignment(*self),
            assignment matches Some(new) ==> new.candidates.is_single(self.candidate_index as int),
    {
        match Bitfield::single(self.candidate_index) {
            Ok(candidates) => {
                proof {
                    lemma_singleton(candidates, self.candidate_index as int);
                }
                Some(Assignment { cert: self.cert.upgrade(), candidates })
            },
            Err(_) => None,
        }
    }
}

/// Whether both votes say the same, `new` in the second form.
pub open spec fn same_vote(old: IndirectSignedApprovalVote, new: IndirectSignedApprovalVoteV2) -> bool {
    &&& new.block_hash == old.block_hash
    &&& new.validator == old.validator
    &&& new.signature == old.signature
    &&& new.candidate_indices.is_single(old.candidate_index as int)
}

/// The vote in the second form, which there is none of if the candidate's index has no place in a bit
/// field.
pub open spec fn upgraded_vote(vote: IndirectSignedApprovalVote) -> Option<IndirectSignedApprovalVoteV2> {
    if vote.candidate_index < MAX_BITFIELD_SIZE {
        Some(
            IndirectSignedApprovalVoteV2 {
                block_hash: vote.block_hash,
                candidate_indices: Bitfield::singleton(vote.candidate_index as int),
                validator: vote.validator,
                signature: vote.signature,
            },
        )
    } else {
        None
    }
}

impl IndirectSignedApprovalVote {
    /// The same vote in the second form, unless the candidate's index has no place in a bit field.
    pub fn upgrade(&self) -> (vote: Option<IndirectSignedApprovalVoteV2>)
        ensures
            vote == upgraded_vote(*self),
            vote matches Some(new) ==> same_vote(*self, new),
    {
        match Bitfield::single(self.candidate_index) {
            Ok(candidate_indices) => {
                proof {
                    lemma_singleton(candidate_indices, self.candidate_index as int);
                }
                Some(
                    IndirectSignedApprovalVoteV2 {
                        block_hash: self.block_hash,
                        candidate_indices,
                        validator: self.validator,
                        signature: self.signature,
                    },
                )
            },
            Err(_) => None,
        }
    }
}

/// The vote in the first form, which has room for a single candidate.
pub open spec fn downgraded_vote(vote: IndirectSignedApprovalVoteV2) -> Option<IndirectSignedApprovalVote> {
    match only_index(vote.candidate_indices) {
        Some(candidate_index) => Some(
            IndirectSignedApprovalVote {
                block_hash: vote.block_hash,
                candidate_index,
                validator: vote.validator,
                signature: vote.signature,
            },
        ),
        None => None,
    }
}

impl IndirectSignedApprovalVoteV2 {
    /// The same vote in the first form, which has room for a single candidate.
    pub fn downgrade(&self) -> (vote: Option<IndirectSignedApprovalVote>)
        ensures
            vote == downgraded_vote(*self),
    {
        let only = self.candidate_indices.only_one();
        proof {
            lemma_only_index(self.candidate_indices, only);
        }
        match only {
            Some(candidate_index) => Some(
                IndirectSignedApprovalVote {
                    block_hash: self.block_hash,
                    candidate_index,
                    validator: self.validator,
                    signature: self.signature,
                },
            ),
            None => None,
        }
    }
}

/// Upgrading a certificate and downgrading the outcome gives the certificate back, and so does the
/// other direction where there is one.
pub proof fn cert_forms_correspond(old: IndirectAssignmentCert, new: IndirectAssignmentCertV2)
    ensures
        downgraded_cert(upgraded_cert(old)) == Some(old),
        downgraded_cert(new) matches Some(cert) ==> upgraded_cert(cert) == new,
        downgraded_cert(new) is None <==> new.cert.kind is RelayVRFModuloCompact,
{
}

/// A vote in the second form that says the same as one in the first form downgrades to that one,
/// and there is only one such vote.
pub proof fn vote_forms_correspond(
    old: IndirectSignedApprovalVote,
    new: IndirectSignedApprovalVoteV2,
    other: IndirectSignedApprovalVoteV2,
)
    ensures
        same_vote(old, new) <==> downgraded_vote(new) == Some(old),
        same_vote(old, new) && same_vote(old, other) ==> new == other,
{
    let field = new.candidate_indices;
    if same_vote(old, new) {
        assert(field.is_single(old.candidate_index as int));
        let index = choose|i: CandidateIndex| #[trigger] field.is_single(i as int);
        assert(field.has(index as int));
        if same_vote(old, other) {
            bitfields_are_extensional(field, other.candidate_indices);
        }
    }
}

} // verus!
