//! What is known about messages: by the node itself and, as far as it can tell, by its peers.
use crate::bitfield::{CandidateBitfield, MAX_BITFIELD_SIZE};
use crate::dict;
use crate::messages::{Assignment, IndirectSignedApprovalVoteV2};
use crate::primitives::{BlockHash, ValidatorIndex};
use vstd::prelude::*;

verus! {

/// What a message is about.
#[derive(Clone, Copy, Debug, PartialEq, Eq, Structural)]
pub struct MessageSubject {
    pub block_hash: BlockHash,
    pub candidates: CandidateBitfield,
    pub validator: ValidatorIndex,
}

/// The kinds of messages, of which an approval implies the assignment.
#[derive(Clone, Copy, Debug, PartialEq, Eq, Structural)]
pub enum MessageKind {
    Assignment,
    Approval,
}

/// The messages that somebody knows.
#[derive(Debug)]
pub struct Knowledge {
    known_messages: Vec<(MessageSubject, MessageKind)>,
}

/// For each subject that something is known about, the furthest kind of message.
pub type Known = Map<MessageSubject, MessageKind>;

/// Whether a message is known: an assignment is also known to whoever knows an approval of the same
/// subject.
pub open spec fn knows(known: Known, subject: MessageSubject, kind: MessageKind) -> bool {
    known.contains_key(subject) && (kind == MessageKind::Assignment || known[subject] == MessageKind::Approval)
}

/// What is known after a message has been seen.
pub open spec fn learned(known: Known, subject: MessageSubject, kind: MessageKind) -> Known {
    if knows(known, subject, kind) {
        known
    } else {
        known.insert(subject, kind)
    }
}

/// Whether a message of the validator about the candidate is known.
pub open spec fn covers(known: Known, validator: ValidatorIndex, candidate: int) -> bool {
    exists|subject: MessageSubject| #[trigger]
        known.contains_key(subject) && subject.validator == validator && subject.candidates.has(candidate)
}

/// Whether for each of the candidates a message of the validator about it is known.
pub open spec fn covers_all(known: Known, validator: ValidatorIndex, candidates: CandidateBitfield) -> bool {
    forall|candidate: int| #[trigger] candidates.has(candidate) ==> covers(known, validator, candidate)
}

impl View for Knowledge {
    type V = Known;

    closed spec fn view(&self) -> Known {
        dict::dict(self.known_messages@)
    }
}

impl Knowledge {
    /// Whether every subject is noted once.
    pub closed spec fn wf(self) -> bool {
        dict::keys_unique(self.known_messages@)
    }

    /// Knowledge of nothing.
    pub fn new() -> (knowledge: Knowledge)
        ensures
            knowledge.wf(),
            knowledge@ == Known::empty(),
    {
        let knowledge = Knowledge { known_messages: Vec::new() };
        assert(knowledge@ =~= Known::empty());
        knowledge
    }

    /// The number of subjects that something is known about.
    pub fn len(&self) -> (len: usize)
        requires
            self.wf(),
        ensures
            self@.dom().finite(),
            len == self@.dom().len(),
    {
        proof {
            dict::lemma_dict_len(self.known_messages@);
        }
        self.known_messages.len()
    }

    fn position(&self, subject: MessageSubject) -> (position: Option<usize>)
        requires
            self.wf(),
        ensures
            position matches Some(i) ==> {
                &&& i < self.known_messages@.len()
                &&& self.known_messages@[i as int].0 == subject
                &&& self@.contains_key(subject)
                &&& self@[subject] == self.known_messages@[i as int].1
            },
            position is None ==> !self@.contains_key(subject) && !dict::has_key(self.known_messages@, subject),
    {
        let mut i: usize = 0;
        while i < self.known_messages.len()
            invariant
                i <= self.known_messages.len(),
                self.wf(),
                forall|j: int| 0 <= j < i ==> #[trigger] self.known_messages@[j].0 != subject,
            decreases self.known_messages.len() - i,
        {
            if self.known_messages[i].0 == subject {
                proof {
                    dict::lemma_dict_at(self.known_messages@, i as int);
                }
                return Some(i);
            }
            i += 1;
        }
        None
    }

    /// Whether a message is known.
    pub fn contains(&self, subject: MessageSubject, kind: MessageKind) -> (known: bool)
        requires
            self.wf(),
        ensures
            known == knows(self@, subject, kind),
    {
        match self.position(subject) {
            Some(i) => kind == MessageKind::Assignment || self.known_messages[i].1 == MessageKind::Approval,
            None => false,
        }
    }

    /// Notes a message, and tells whether it is new.
    pub fn insert(&mut self, subject: MessageSubject, kind: MessageKind) -> (fresh: bool)
        requires
            old(self).wf(),
        ensures
            final(self).wf(),
            final(self)@ == learned(old(self)@, subject, kind),
            fresh == !knows(old(self)@, subject, kind),
    {
        match self.position(subject) {
            Some(i) => {
                if kind == MessageKind::Assignment || self.known_messages[i].1 == MessageKind::Approval {
                    false
                } else {
                    proof {
                        dict::lemma_dict_update(self.known_messages@, i as int, kind);
                    }
                    self.known_messages.set(i, (subject, kind));
                    true
                }
            },
            None => {
                proof {
                    dict::lemma_dict_push(self.known_messages@, subject, kind);
                }
                self.known_messages.push((subject, kind));
                true
            },
        }
    }

    /// Whether a message of the validator about the candidate is known.
    fn covers_candidate(&self, validator: ValidatorIndex, candidate: u32) -> (covered: bool)
        requires
            self.wf(),
        ensures
            covered == covers(self@, validator, candidate as int),
    {
        let mut i: usize = 0;
        while i < self.known_messages.len()
            invariant
                i <= self.known_messages.len(),
                self.wf(),
                forall|j: int|
                    0 <= j < i ==> !((#[trigger] self.known_messages@[j]).0.validator == validator
                        && self.known_messages@[j].0.candidates.has(candidate as int)),
            decreases self.known_messages.len() - i,
        {
            let subject = self.known_messages[i].0;
            if subject.validator == validator && subject.candidates.bit_at(candidate) {
                proof {
                    dict::lemma_dict_at(self.known_messages@, i as int);
                    assert(self@.contains_key(subject));
                }
                return true;
            }
            i += 1;
        }
        proof {
            if covers(self@, validator, candidate as int) {
                let subject = choose|subject: MessageSubject| #[trigger]
                    self@.contains_key(subject) && subject.validator == validator && subject.candidates.has(
                        candidate as int,
                    );
                let j = dict::index_of_key(self.known_messages@, subject);
                assert(self.known_messages@[j].0 == subject);
            }
        }
        false
    }

    /// Whether for each of the candidates a message of the validator about it is known.
    pub fn covers_candidates(&self, validator: ValidatorIndex, candidates: CandidateBitfield) -> (covered: bool)
        requires
            self.wf(),
        ensures
            covered == covers_all(self@, validator, candidates),
    {
        let mut candidate: u32 = 0;
        while candidate < MAX_BITFIELD_SIZE
            invariant
                candidate <= MAX_BITFIELD_SIZE,
                self.wf(),
                forall|i: int| i < candidate && #[trigger] candidates.has(i) ==> covers(self@, validator, i),
            decreases MAX_BITFIELD_SIZE - candidate,
        {
            if candidates.bit_at(candidate) && !self.covers_candidate(validator, candidate) {
                assert(candidates.has(candidate as int));
                return false;
            }
            candidate += 1;
        }
        true
    }
}

/// What a peer is known to have, by the direction in which it got there.
#[derive(Debug)]
pub struct PeerKnowledge {
    /// The messages that were sent to the peer.
    pub sent: Knowledge,
    /// The messages that were received from the peer.
    pub received: Knowledge,
}

/// What a [`PeerKnowledge`] holds.
#[verifier::ext_equal]
pub ghost struct PeerMemory {
    pub sent: Known,
    pub received: Known,
}

impl PeerMemory {
    /// Nothing sent and nothing received.
    pub open spec fn blank() -> PeerMemory {
        PeerMemory { sent: Known::empty(), received: Known::empty() }
    }

    /// Whether the peer has a message.
    pub open spec fn has(self, subject: MessageSubject, kind: MessageKind) -> bool {
        knows(self.sent, subject, kind) || knows(self.received, subject, kind)
    }

    /// After a message has been sent to the peer.
    pub open spec fn after_sent(self, subject: MessageSubject, kind: MessageKind) -> PeerMemory {
        PeerMemory { sent: learned(self.sent, subject, kind), ..self }
    }

    /// After a message has been received from the peer.
    pub open spec fn after_received(self, subject: MessageSubject, kind: MessageKind) -> PeerMemory {
        PeerMemory { received: learned(self.received, subject, kind), ..self }
    }
}

impl View for PeerKnowledge {
    type V = PeerMemory;

    open spec fn view(&self) -> PeerMemory {
        PeerMemory { sent: self.sent@, received: self.received@ }
    }
}

impl PeerKnowledge {
    /// Whether the two parts are well-formed.
    pub open spec fn wf(self) -> bool {
        self.sent.wf() && self.received.wf()
    }

    /// A peer that is not known to have anything.
    pub fn new() -> (knowledge: PeerKnowledge)
        ensures
            knowledge.wf(),
            knowledge@ == PeerMemory::blank(),
    {
        PeerKnowledge { sent: Knowledge::new(), received: Knowledge::new() }
    }

    /// Whether the peer has a message.
    pub fn contains(&self, subject: MessageSubject, kind: MessageKind) -> (known: bool)
        requires
            self.wf(),
        ensures
            known == self@.has(subject, kind),
    {
        self.sent.contains(subject, kind) || self.received.contains(subject, kind)
    }
}

/// The subject of an assignment.
pub open spec fn assignment_subject(assignment: Assignment) -> MessageSubject {
    MessageSubject {
        block_hash: assignment.cert.block_hash,
        candidates: assignment.candidates,
        validator: assignment.cert.validator,
    }
}

/// The subject of an approval vote.
pub open spec fn approval_subject(vote: IndirectSignedApprovalVoteV2) -> MessageSubject {
    MessageSubject { block_hash: vote.block_hash, candidates: vote.candidate_indices, validator: vote.validator }
}

/// The subject of an assignment.
pub fn generate_assignment_key(assignment: &Assignment) -> (subject: MessageSubject)
    ensures
        subject == assignment_subject(*assignment),
{
    MessageSubject {
        block_hash: assignment.cert.block_hash,
        candidates: assignment.candidates,
        validator: assignment.cert.validator,
    }
}

/// The subject of an approval vote.
pub fn generate_approval_key(vote: &IndirectSignedApprovalVoteV2) -> (subject: MessageSubject)
    ensures
        subject == approval_subject(*vote),
{
    MessageSubject { block_hash: vote.block_hash, candidates: vote.candidate_indices, validator: vote.validator }
}

/// A message that has been noted is known, nothing that was known is forgotten, and whatever else
/// becomes known is the assignment that the message implies.
pub proof fn learning_adds_one_message(
    known: Known,
    subject: MessageSubject,
    kind: MessageKind,
    other: MessageSubject,
    other_kind: MessageKind,
)
    ensures
        knows(learned(known, subject, kind), subject, kind),
        knows(known, other, other_kind) ==> knows(learned(known, subject, kind), other, other_kind),
        knows(learned(known, subject, kind), other, other_kind) ==> knows(known, other, other_kind) || (other
            == subject && (other_kind == kind || other_kind == MessageKind::Assignment)),
        learned(learned(known, subject, kind), subject, kind) == learned(known, subject, kind),
{
}

/// Whoever knows an approval knows the assignment of the same subject.
pub proof fn approvals_imply_assignments(known: Known, subject: MessageSubject)
    ensures
        knows(known, subject, MessageKind::Approval) ==> knows(known, subject, MessageKind::Assignment),
{
}

} // verus!
