//! A relay chain block with the messages about its candidates and the peers that are aware of it.
use crate::dict;
use crate::knowledge::{
    self, Knowledge, Known, MessageKind, MessageSubject, PeerKnowledge, PeerMemory,
};
use crate::messages::{Assignment, IndirectSignedApprovalVoteV2};
use crate::primitives::{BlockHash, BlockNumber, PeerId, SessionIndex};
use crate::reputation::{
    Rep, BENEFIT_VALID_MESSAGE, COST_DUPLICATE_MESSAGE, COST_UNEXPECTED_MESSAGE,
};
use crate::topology::{has_peer, RequiredRouting};
use vstd::prelude::*;

verus! {

/// An assignment with the votes that it gave rise to and the way that its messages are routed.
#[derive(Debug)]
pub struct ApprovalEntry {
    pub assignment: Assignment,
    pub required_routing: RequiredRouting,
    /// Whether the assignment is the node's own.
    pub local: bool,
    /// The peers outside of the required routing that were chosen to get the messages.
    pub peers_randomly_routed: Vec<PeerId>,
    pub approvals: Vec<IndirectSignedApprovalVoteV2>,
}

/// What an [`ApprovalEntry`] holds.
#[verifier::ext_equal]
pub ghost struct Entry {
    pub assignment: Assignment,
    pub routing: RequiredRouting,
    pub local: bool,
    pub randomly_routed: Seq<PeerId>,
    pub approvals: Seq<IndirectSignedApprovalVoteV2>,
}

impl View for ApprovalEntry {
    type V = Entry;

    open spec fn view(&self) -> Entry {
        Entry {
            assignment: self.assignment,
            routing: self.required_routing,
            local: self.local,
            randomly_routed: self.peers_randomly_routed@,
            approvals: self.approvals@,
        }
    }
}

/// A relay chain block that has not been finalized.
#[derive(Debug)]
pub struct BlockEntry {
    pub parent_hash: BlockHash,
    pub number: BlockNumber,
    pub session: SessionIndex,
    /// The number of candidates that the block includes.
    pub candidates: usize,
    /// The messages that the node has.
    pub knowledge: Knowledge,
    /// The peers that are aware of the block, with the messages that each of them has.
    pub known_by: Vec<(PeerId, PeerKnowledge)>,
    pub approval_entries: Vec<ApprovalEntry>,
}

/// What a [`BlockEntry`] holds.
#[verifier::ext_equal]
pub ghost struct Block {
    pub parent_hash: BlockHash,
    pub number: BlockNumber,
    pub session: SessionIndex,
    pub candidates: nat,
    pub knowledge: Known,
    pub known_by: Seq<(PeerId, PeerMemory)>,
    pub entries: Seq<Entry>,
}

/// The peers in a list with what each of them has.
pub open spec fn memories(list: Seq<(PeerId, PeerKnowledge)>) -> Seq<(PeerId, PeerMemory)> {
    list.map_values(|peer: (PeerId, PeerKnowledge)| (peer.0, peer.1@))
}

/// What a list of approval entries holds.
pub open spec fn entries_of(list: Seq<ApprovalEntry>) -> Seq<Entry> {
    list.map_values(|entry: ApprovalEntry| entry@)
}

impl View for BlockEntry {
    type V = Block;

    open spec fn view(&self) -> Block {
        Block {
            parent_hash: self.parent_hash,
            number: self.number,
            session: self.session,
            candidates: self.candidates as nat,
            knowledge: self.knowledge@,
            known_by: memories(self.known_by@),
            entries: entries_of(self.approval_entries@),
        }
    }
}

impl Block {
    /// The peers that are aware of the block, in the order in which they became so.
    pub open spec fn peers(self) -> Seq<PeerId> {
        self.known_by.map_values(|peer: (PeerId, PeerMemory)| peer.0)
    }

    /// Whether a peer is aware of the block.
    pub open spec fn aware(self, peer: PeerId) -> bool {
        dict::has_key(self.known_by, peer)
    }

    /// What a peer has of the messages about the block.
    pub open spec fn memory(self, peer: PeerId) -> PeerMemory {
        self.known_by[dict::index_of_key(self.known_by, peer)].1
    }

    /// The block with another memory of a peer that is aware of it.
    pub open spec fn with_memory(self, peer: PeerId, memory: PeerMemory) -> Block {
        Block {
            known_by: self.known_by.update(dict::index_of_key(self.known_by, peer), (peer, memory)),
            ..self
        }
    }

    /// After a message has been received from a peer; nothing is noted of a peer that is not aware of
    /// the block.
    pub open spec fn after_received(self, peer: PeerId, subject: MessageSubject, kind: MessageKind) -> Block {
        if self.aware(peer) {
            self.with_memory(peer, self.memory(peer).after_received(subject, kind))
        } else {
            self
        }
    }
}

impl BlockEntry {
    /// Whether every peer is noted once and all knowledge is well-formed.
    pub open spec fn wf(self) -> bool {
        &&& self.knowledge.wf()
        &&& dict::keys_unique(self@.known_by)
        &&& forall|i: int| 0 <= i < self.known_by@.len() ==> (#[trigger] self.known_by@[i]).1.wf()
    }

    /// A block without any messages that no peer is aware of.
    pub fn new(
        parent_hash: BlockHash,
        number: BlockNumber,
        session: SessionIndex,
        candidates: usize,
    ) -> (block: BlockEntry)
        ensures
            block.wf(),
            block@ == (Block {
                parent_hash,
                number,
                session,
                candidates: candidates as nat,
                knowledge: Known::empty(),
                known_by: Seq::empty(),
                entries: Seq::empty(),
            }),
    {
        let block = BlockEntry {
            parent_hash,
            number,
            session,
            candidates,
            knowledge: Knowledge::new(),
            known_by: Vec::new(),
            approval_entries: Vec::new(),
        };
        assert(block@.known_by =~= Seq::empty());
        assert(block@.entries =~= Seq::empty());
        block
    }

    /// The position of a peer among those that are aware of the block.
    pub fn peer_position(&self, peer: PeerId) -> (position: Option<usize>)
        requires
            self.wf(),
        ensures
            position is Some <==> self@.aware(peer),
            position matches Some(i) ==> {
                &&& i < self.known_by@.len()
                &&& self.known_by@[i as int].0 == peer
                &&& i == dict::index_of_key(self@.known_by, peer)
            },
    {
        let mut i: usize = 0;
        while i < self.known_by.len()
            invariant
                i <= self.known_by.len(),
                self.wf(),
                forall|j: int| 0 <= j < i ==> #[trigger] self.known_by@[j].0 != peer,
            decreases self.known_by.len() - i,
        {
            if self.known_by[i].0 == peer {
                proof {
                    assert(self@.known_by[i as int].0 == peer);
                    dict::lemma_dict_at(self@.known_by, i as int);
                }
                return Some(i);
            }
            i += 1;
        }
        proof {
            if self@.aware(peer) {
                let j = dict::index_of_key(self@.known_by, peer);
                assert(self.known_by@[j].0 == peer);
            }
        }
        None
    }

    /// Notes a message as received from the peer at a position.
    fn note_received(&mut self, position: usize, subject: MessageSubject, kind: MessageKind) -> (fresh: bool)
        requires
            old(self).wf(),
            position < old(self).known_by@.len(),
        ensures
            final(self).wf(),
            fresh == !knowledge::knows(old(self)@.known_by[position as int].1.received, subject, kind),
            final(self)@ == old(self)@.after_received(old(self).known_by@[position as int].0, subject, kind),
    {
        let ghost before = self@;
        proof {
            dict::lemma_dict_at(before.known_by, position as int);
        }
        let fresh = self.known_by[position].1.received.insert(subject, kind);
        proof {
            let peer = before.known_by[position as int].0;
            assert(self@.known_by =~= before.after_received(peer, subject, kind).known_by);
            dict::lemma_dict_update(before.known_by, position as int, self@.known_by[position as int].1);
        }
        fresh
    }
}

/// What becomes of a message from a peer before it is checked.
#[verifier::ext_equal]
pub ghost struct Screening {
    pub block: Block,
    /// The changes of the peer's reputation.
    pub reports: Seq<Rep>,
    /// Whether the message is new, and is to be checked.
    pub proceed: bool,
}

impl Block {
    /// What becomes of a message from a peer.
    ///
    /// A peer that is known to have the message is punished only if it has sent it before.  A peer
    /// that is not aware of the block is punished for sending it.  Whoever sends a message that the
    /// node has is rewarded for it, and any other message is new.
    pub open spec fn screened(self, peer: PeerId, subject: MessageSubject, kind: MessageKind) -> Screening {
        if self.aware(peer) && self.memory(peer).has(subject, kind) {
            Screening {
                block: self.after_received(peer, subject, kind),
                reports: if knowledge::knows(self.memory(peer).received, subject, kind) {
                    seq![COST_DUPLICATE_MESSAGE]
                } else {
                    Seq::empty()
                },
                proceed: false,
            }
        } else {
            let out_of_view = if self.aware(peer) {
                Seq::empty()
            } else {
                seq![COST_UNEXPECTED_MESSAGE]
            };
            if knowledge::knows(self.knowledge, subject, kind) {
                Screening {
                    block: self.after_received(peer, subject, kind),
                    reports: out_of_view.push(BENEFIT_VALID_MESSAGE),
                    proceed: false,
                }
            } else {
                Screening { block: self, reports: out_of_view, proceed: true }
            }
        }
    }

    /// After the node has learned of a message.
    pub open spec fn after_learned(self, subject: MessageSubject, kind: MessageKind) -> Block {
        Block { knowledge: knowledge::learned(self.knowledge, subject, kind), ..self }
    }

    /// After a message has been sent to some of the peers that are aware of the block.
    pub open spec fn after_sent(self, receivers: Seq<PeerId>, subject: MessageSubject, kind: MessageKind) -> Block {
        Block {
            known_by: self.known_by.map_values(
                |peer: (PeerId, PeerMemory)|
                    if receivers.contains(peer.0) {
                        (peer.0, peer.1.after_sent(subject, kind))
                    } else {
                        peer
                    },
            ),
            ..self
        }
    }
}

impl BlockEntry {
    /// Decides what becomes of a message from a peer, and tells whether it is new.
    pub fn screen(&mut self, peer: PeerId, subject: MessageSubject, kind: MessageKind) -> (screening: (
        Vec<Rep>,
        bool,
    ))
        requires
            old(self).wf(),
        ensures
            final(self).wf(),
            (Screening { block: final(self)@, reports: screening.0@, proceed: screening.1 }) == old(
                self,
            )@.screened(peer, subject, kind),
    {
        let ghost start = self@;
        let mut reports: Vec<Rep> = Vec::new();
        let position = self.peer_position(peer);
        if let Some(i) = position {
            if self.known_by[i].1.contains(subject, kind) {
                if !self.note_received(i, subject, kind) {
                    reports.push(COST_DUPLICATE_MESSAGE);
                }
                assert(reports@ =~= start.screened(peer, subject, kind).reports);
                return (reports, false);
            }
        } else {
            reports.push(COST_UNEXPECTED_MESSAGE);
        }
        if self.knowledge.contains(subject, kind) {
            reports.push(BENEFIT_VALID_MESSAGE);
            if let Some(i) = position {
                self.note_received(i, subject, kind);
            }
            assert(reports@ =~= start.screened(peer, subject, kind).reports);
            return (reports, false);
        }
        assert(reports@ =~= start.screened(peer, subject, kind).reports);
        (reports, true)
    }

    /// Notes a message as received from a peer, if that is aware of the block.
    pub fn receive(&mut self, peer: PeerId, subject: MessageSubject, kind: MessageKind)
        requires
            old(self).wf(),
        ensures
            final(self).wf(),
            final(self)@ == old(self)@.after_received(peer, subject, kind),
    {
        if let Some(i) = self.peer_position(peer) {
            self.note_received(i, subject, kind);
        }
    }

    /// Notes a message as one that the node has, and tells whether it is new.
    pub fn learn(&mut self, subject: MessageSubject, kind: MessageKind) -> (fresh: bool)
        requires
            old(self).wf(),
        ensures
            final(self).wf(),
            final(self)@ == old(self)@.after_learned(subject, kind),
            fresh == !knowledge::knows(old(self)@.knowledge, subject, kind),
    {
        self.knowledge.insert(subject, kind)
    }

    /// Notes a message as sent to some of the peers that are aware of the block.
    pub(crate) fn note_sent(&mut self, receivers: &Vec<PeerId>, subject: MessageSubject, kind: MessageKind)
        requires
            old(self).wf(),
        ensures
            final(self).wf(),
            final(self)@ == old(self)@.after_sent(receivers@, subject, kind),
    {
        let ghost start = self@;
        let ghost goal = start.after_sent(receivers@, subject, kind);
        let mut i: usize = 0;
        assert(goal.known_by.take(0) + start.known_by.skip(0) =~= start.known_by);
        while i < self.known_by.len()
            invariant
                i <= self.known_by.len(),
                self.wf(),
                goal == start.after_sent(receivers@, subject, kind),
                start.known_by.len() == self.known_by@.len(),
                goal.known_by.len() == self.known_by@.len(),
                self@ == (Block { known_by: goal.known_by.take(i as int) + start.known_by.skip(i as int), ..start }),
            decreases self.known_by.len() - i,
        {
            let ghost before = self@;
            let ghost next = goal.known_by.take(i + 1) + start.known_by.skip(i + 1);
            assert(before.known_by[i as int] == start.known_by[i as int]);
            let peer = self.known_by[i].0;
            if has_peer(receivers, peer) {
                assert(before.known_by[i as int].0 == peer);
                self.known_by[i].1.sent.insert(subject, kind);
                assert(self@.known_by[i as int].1 == before.known_by[i as int].1.after_sent(subject, kind));
                assert(self@.known_by =~= before.known_by.update(i as int, goal.known_by[i as int]));
                assert(self@.known_by =~= next);
                proof {
                    dict::lemma_dict_update(before.known_by, i as int, self@.known_by[i as int].1);
                    assert(self@.known_by =~= before.known_by.update(
                        i as int,
                        (before.known_by[i as int].0, self@.known_by[i as int].1),
                    ));
                }
            } else {
                assert(self@.known_by =~= next);
            }
            i += 1;
        }
        assert(self@.known_by =~= goal.known_by);
    }
}

impl Block {
    /// After a peer has lost sight of the block.
    pub open spec fn without(self, peer: PeerId) -> Block {
        if self.aware(peer) {
            Block { known_by: self.known_by.remove(dict::index_of_key(self.known_by, peer)), ..self }
        } else {
            self
        }
    }

    /// As if nothing had been sent to any peer yet.
    pub open spec fn unsent(self) -> Block {
        Block {
            known_by: self.known_by.map_values(
                |peer: (PeerId, PeerMemory)| (peer.0, PeerMemory { sent: Known::empty(), ..peer.1 }),
            ),
            ..self
        }
    }
}

impl BlockEntry {
    /// Notes that a peer has lost sight of the block.
    pub fn forget_peer(&mut self, peer: PeerId)
        requires
            old(self).wf(),
        ensures
            final(self).wf(),
            final(self)@ == old(self)@.without(peer),
    {
        let ghost start = self@;
        if let Some(i) = self.peer_position(peer) {
            self.known_by.remove(i);
            proof {
                assert(self@.known_by =~= start.known_by.remove(i as int));
                dict::lemma_dict_remove(start.known_by, i as int);
            }
        }
    }

    /// Forgets what was sent to the peers, so that it is sent again.
    pub fn forget_sent(&mut self)
        requires
            old(self).wf(),
        ensures
            final(self).wf(),
            final(self)@ == old(self)@.unsent(),
    {
        let ghost start = self@;
        let ghost goal = start.unsent();
        let mut i: usize = 0;
        assert(goal.known_by.take(0) + start.known_by.skip(0) =~= start.known_by);
        while i < self.known_by.len()
            invariant
                i <= self.known_by.len(),
                self.wf(),
                goal == start.unsent(),
                start.known_by.len() == self.known_by@.len(),
                goal.known_by.len() == self.known_by@.len(),
                self@ == (Block { known_by: goal.known_by.take(i as int) + start.known_by.skip(i as int), ..start }),
            decreases self.known_by.len() - i,
        {
            let ghost before = self@;
            let ghost next = goal.known_by.take(i + 1) + start.known_by.skip(i + 1);
            assert(before.known_by[i as int] == start.known_by[i as int]);
            self.known_by[i].1.sent = Knowledge::new();
            proof {
                assert(self@.known_by[i as int] == goal.known_by[i as int]);
                assert(self@.known_by =~= before.known_by.update(i as int, goal.known_by[i as int]));
                assert(self@.known_by =~= next);
                dict::lemma_dict_update(before.known_by, i as int, self@.known_by[i as int].1);
            }
            i += 1;
        }
        assert(self@.known_by =~= goal.known_by);
    }
}

} // verus!
