//! Offering the messages about a block to a single peer.
use crate::block::{entries_of, ApprovalEntry, Block, BlockEntry, Entry};
use crate::circulation::{self, is_routed, is_topology_member, outlook, routed};
use crate::dict;
use crate::knowledge::{
    self, generate_approval_key, generate_assignment_key, MessageKind, PeerKnowledge, PeerMemory,
};
use crate::messages::{Assignment, IndirectSignedApprovalVoteV2};
use crate::primitives::PeerId;
use crate::random::{self, sample, Draws, Luck};
use crate::topology::{Outlook, SessionTopology};
use vstd::prelude::*;

verus! {

/// Messages that are about to be sent to a peer, and what it has once they are.
#[verifier::ext_equal]
pub ghost struct Offer {
    pub memory: PeerMemory,
    pub assignments: Seq<Assignment>,
    pub votes: Seq<IndirectSignedApprovalVoteV2>,
}

impl Offer {
    /// Nothing offered to a peer.
    pub open spec fn nothing(memory: PeerMemory) -> Offer {
        Offer { memory, assignments: Seq::empty(), votes: Seq::empty() }
    }

    /// With an assignment, unless the peer has it.
    pub open spec fn with_assignment(self, assignment: Assignment) -> Offer {
        let subject = knowledge::assignment_subject(assignment);
        if self.memory.has(subject, MessageKind::Assignment) {
            self
        } else {
            Offer {
                memory: self.memory.after_sent(subject, MessageKind::Assignment),
                assignments: self.assignments.push(assignment),
                ..self
            }
        }
    }

    /// With a vote, unless the peer has it.
    pub open spec fn with_vote(self, vote: IndirectSignedApprovalVoteV2) -> Offer {
        let subject = knowledge::approval_subject(vote);
        if self.memory.has(subject, MessageKind::Approval) {
            self
        } else {
            Offer {
                memory: self.memory.after_sent(subject, MessageKind::Approval),
                votes: self.votes.push(vote),
                ..self
            }
        }
    }

    /// With some votes, unless the peer has them.
    pub open spec fn with_votes(self, votes: Seq<IndirectSignedApprovalVoteV2>) -> Offer
        decreases votes.len(),
    {
        if votes.len() == 0 {
            self
        } else {
            self.with_votes(votes.drop_last()).with_vote(votes.last())
        }
    }

    /// With the assignment of an entry and the votes that follow from it.
    pub open spec fn with_entry(self, entry: Entry) -> Offer {
        self.with_assignment(entry.assignment).with_votes(entry.approvals)
    }

    /// With the messages of those entries that are picked.
    pub open spec fn with_entries(self, entries: Seq<Entry>, picked: Seq<bool>) -> Offer
        decreases entries.len(),
    {
        if entries.len() == 0 {
            self
        } else {
            let rest = self.with_entries(entries.drop_last(), picked);
            if picked[entries.len() - 1] {
                rest.with_entry(entries.last())
            } else {
                rest
            }
        }
    }
}

/// The offer that the memory of a peer and two lists of messages make up.
pub open spec fn offer_of(
    knowledge: PeerKnowledge,
    assignments: Vec<Assignment>,
    votes: Vec<IndirectSignedApprovalVoteV2>,
) -> Offer {
    Offer { memory: knowledge@, assignments: assignments@, votes: votes@ }
}

/// Offers the messages of an entry to a peer.
fn offer_entry(
    knowledge: &mut PeerKnowledge,
    entry: &ApprovalEntry,
    assignments: &mut Vec<Assignment>,
    votes: &mut Vec<IndirectSignedApprovalVoteV2>,
)
    requires
        old(knowledge).wf(),
    ensures
        final(knowledge).wf(),
        offer_of(*final(knowledge), *final(assignments), *final(votes)) == offer_of(
            *old(knowledge),
            *old(assignments),
            *old(votes),
        ).with_entry(entry@),
{
    let ghost start = offer_of(*knowledge, *assignments, *votes);
    let subject = generate_assignment_key(&entry.assignment);
    if !knowledge.contains(subject, MessageKind::Assignment) {
        knowledge.sent.insert(subject, MessageKind::Assignment);
        assignments.push(entry.assignment);
    }
    let ghost middle = start.with_assignment(entry.assignment);
    let ghost list = entry.approvals@;
    let mut k: usize = 0;
    while k < entry.approvals.len()
        invariant
            k <= entry.approvals.len(),
            knowledge.wf(),
            list == entry.approvals@,
            offer_of(*knowledge, *assignments, *votes) == middle.with_votes(list.take(k as int)),
        decreases entry.approvals.len() - k,
    {
        let vote = entry.approvals[k];
        proof {
            assert(list.take(k + 1).drop_last() =~= list.take(k as int));
            assert(list.take(k + 1).last() == vote);
        }
        let subject = generate_approval_key(&vote);
        if !knowledge.contains(subject, MessageKind::Approval) {
            knowledge.sent.insert(subject, MessageKind::Approval);
            votes.push(vote);
        }
        k += 1;
    }
    assert(list.take(k as int) =~= list);
}

/// Offers the messages of those entries that are picked to a peer.
fn offer_entries(
    knowledge: &mut PeerKnowledge,
    entries: &Vec<ApprovalEntry>,
    picked: &Vec<bool>,
    assignments: &mut Vec<Assignment>,
    votes: &mut Vec<IndirectSignedApprovalVoteV2>,
)
    requires
        old(knowledge).wf(),
        picked@.len() == entries@.len(),
    ensures
        final(knowledge).wf(),
        offer_of(*final(knowledge), *final(assignments), *final(votes)) == offer_of(
            *old(knowledge),
            *old(assignments),
            *old(votes),
        ).with_entries(entries_of(entries@), picked@),
{
    let ghost start = offer_of(*knowledge, *assignments, *votes);
    let ghost list = entries_of(entries@);
    let mut k: usize = 0;
    while k < entries.len()
        invariant
            k <= entries.len(),
            knowledge.wf(),
            picked@.len() == entries@.len(),
            list == entries_of(entries@),
            offer_of(*knowledge, *assignments, *votes) == start.with_entries(list.take(k as int), picked@),
        decreases entries.len() - k,
    {
        proof {
            assert(list.take(k + 1).drop_last() =~= list.take(k as int));
            assert(list.take(k + 1).last() == entries@[k as int]@);
        }
        if picked[k] {
            offer_entry(knowledge, &entries[k], assignments, votes);
        }
        k += 1;
    }
    assert(list.take(k as int) =~= list);
}

/// Which entries' messages go to a peer that has just become aware of the block.
#[verifier::ext_equal]
pub ghost struct Selection {
    pub entries: Seq<Entry>,
    pub picked: Seq<bool>,
    pub luck: Luck,
}

/// Decides which entries' messages go to a peer: those that the topology demands, and as many others
/// as the random choice makes it a receiver of, which they remember.
pub open spec fn select_entries(
    entries: Seq<Entry>,
    peer: PeerId,
    topology: Option<Outlook>,
    n_peers_total: nat,
    luck: Luck,
) -> Selection
    decreases entries.len(),
{
    if entries.len() == 0 {
        Selection { entries, picked: Seq::empty(), luck }
    } else {
        let rest = select_entries(entries.drop_last(), peer, topology, n_peers_total, luck);
        let entry = entries.last();
        if routed(topology, entry.routing, peer) {
            Selection { entries: rest.entries.push(entry), picked: rest.picked.push(true), ..rest }
        } else if circulation::is_member(topology, peer) {
            let choice = random::sampled(entry.randomly_routed.len(), n_peers_total, rest.luck);
            Selection {
                entries: rest.entries.push(
                    if choice {
                        Entry { randomly_routed: entry.randomly_routed.push(peer), ..entry }
                    } else {
                        entry
                    },
                ),
                picked: rest.picked.push(choice),
                luck: random::luck_after_sample(entry.randomly_routed.len(), n_peers_total, rest.luck),
            }
        } else {
            Selection { entries: rest.entries.push(entry), picked: rest.picked.push(false), ..rest }
        }
    }
}

/// Which entries' messages a topology demands to go to a peer.
pub open spec fn routed_entries(entries: Seq<Entry>, peer: PeerId, topology: Option<Outlook>) -> Seq<bool> {
    entries.map_values(|entry: Entry| routed(topology, entry.routing, peer))
}

/// What comes of offering a peer the messages about a block.
#[verifier::ext_equal]
pub ghost struct Greeting {
    pub block: Block,
    pub assignments: Seq<Assignment>,
    pub votes: Seq<IndirectSignedApprovalVoteV2>,
    pub luck: Luck,
}

impl Block {
    /// What comes of a peer becoming aware of the block.
    pub open spec fn greeted(self, peer: PeerId, topology: Option<Outlook>, n_peers_total: nat, luck: Luck) -> Greeting {
        let selection = select_entries(self.entries, peer, topology, n_peers_total, luck);
        let offer = Offer::nothing(PeerMemory::blank()).with_entries(selection.entries, selection.picked);
        Greeting {
            block: Block {
                known_by: self.known_by.push((peer, offer.memory)),
                entries: selection.entries,
                ..self
            },
            assignments: offer.assignments,
            votes: offer.votes,
            luck: selection.luck,
        }
    }

    /// What comes of offering a peer the messages that the topology demands, if it is aware of the
    /// block.
    pub open spec fn propagated(self, peer: PeerId, topology: Option<Outlook>) -> (
        Block,
        Seq<Assignment>,
        Seq<IndirectSignedApprovalVoteV2>,
    ) {
        if self.aware(peer) {
            let offer = Offer::nothing(self.memory(peer)).with_entries(
                self.entries,
                routed_entries(self.entries, peer, topology),
            );
            (self.with_memory(peer, offer.memory), offer.assignments, offer.votes)
        } else {
            (self, Seq::empty(), Seq::empty())
        }
    }
}

/// Offers add messages to what has been offered, and depend on nothing but what the peer has.
proof fn lemma_offer_votes_shift(offer: Offer, list: Seq<IndirectSignedApprovalVoteV2>)
    ensures
        offer.with_votes(list).memory == Offer::nothing(offer.memory).with_votes(list).memory,
        offer.with_votes(list).assignments == offer.assignments + Offer::nothing(offer.memory).with_votes(
            list,
        ).assignments,
        offer.with_votes(list).votes == offer.votes + Offer::nothing(offer.memory).with_votes(list).votes,
        Offer::nothing(offer.memory).with_votes(list).assignments == Seq::<Assignment>::empty(),
    decreases list.len(),
{
    let bare = Offer::nothing(offer.memory);
    if list.len() == 0 {
        assert(offer.votes + bare.votes =~= offer.votes);
    } else {
        lemma_offer_votes_shift(offer, list.drop_last());
        let a = offer.with_votes(list.drop_last());
        let b = bare.with_votes(list.drop_last());
        assert(a.with_vote(list.last()).votes =~= offer.votes + b.with_vote(list.last()).votes);
    }
    assert(offer.assignments + bare.assignments =~= offer.assignments);
}

/// Offers add messages to what has been offered, and depend on nothing but what the peer has.
pub proof fn lemma_offer_shift(offer: Offer, entries: Seq<Entry>, picked: Seq<bool>)
    ensures
        offer.with_entries(entries, picked).memory == Offer::nothing(offer.memory).with_entries(
            entries,
            picked,
        ).memory,
        offer.with_entries(entries, picked).assignments == offer.assignments + Offer::nothing(
            offer.memory,
        ).with_entries(entries, picked).assignments,
        offer.with_entries(entries, picked).votes == offer.votes + Offer::nothing(offer.memory).with_entries(
            entries,
            picked,
        ).votes,
    decreases entries.len(),
{
    let bare = Offer::nothing(offer.memory);
    if entries.len() == 0 {
        assert(offer.assignments + bare.assignments =~= offer.assignments);
        assert(offer.votes + bare.votes =~= offer.votes);
    } else {
        lemma_offer_shift(offer, entries.drop_last(), picked);
        let a = offer.with_entries(entries.drop_last(), picked);
        let b = bare.with_entries(entries.drop_last(), picked);
        if picked[entries.len() - 1] {
            let entry = entries.last();
            let c = a.with_assignment(entry.assignment);
            let d = b.with_assignment(entry.assignment);
            lemma_offer_votes_shift(c, entry.approvals);
            lemma_offer_votes_shift(d, entry.approvals);
            assert(c.assignments =~= offer.assignments + d.assignments);
            assert(c.votes =~= offer.votes + d.votes);
            let e = Offer::nothing(c.memory).with_votes(entry.approvals);
            assert(c.assignments + e.assignments =~= offer.assignments + (d.assignments + e.assignments));
            assert(c.votes + e.votes =~= offer.votes + (d.votes + e.votes));
        }
    }
}

/// Every entry is either picked or not.
proof fn lemma_select_len(entries: Seq<Entry>, peer: PeerId, topology: Option<Outlook>, n_peers_total: nat, luck: Luck)
    ensures
        select_entries(entries, peer, topology, n_peers_total, luck).entries.len() == entries.len(),
        select_entries(entries, peer, topology, n_peers_total, luck).picked.len() == entries.len(),
    decreases entries.len(),
{
    if entries.len() > 0 {
        lemma_select_len(entries.drop_last(), peer, topology, n_peers_total, luck);
    }
}

impl BlockEntry {
    /// Decides which entries' messages go to a peer that has just become aware of the block.
    fn select(
        &mut self,
        peer: PeerId,
        topology: Option<&SessionTopology>,
        n_peers_total: usize,
        draws: &mut Draws,
    ) -> (picked: Vec<bool>)
        requires
            old(self).wf(),
        ensures
            final(self).wf(),
            final(self)@ == (Block { entries: final(self)@.entries, ..old(self)@ }),
            (Selection { entries: final(self)@.entries, picked: picked@, luck: final(draws)@ }) == select_entries(
                old(self)@.entries,
                peer,
                outlook(topology),
                n_peers_total as nat,
                old(draws)@,
            ),
    {
        let ghost start = self@;
        let ghost seen = outlook(topology);
        let ghost luck = draws@;
        let ghost total = n_peers_total as nat;
        let mut picked: Vec<bool> = Vec::new();
        let mut k: usize = 0;
        assert(start.entries.take(0) =~= Seq::empty());
        assert(self@.entries.take(0) =~= Seq::empty());
        while k < self.approval_entries.len()
            invariant
                k <= self.approval_entries.len(),
                self.wf(),
                seen == outlook(topology),
                total == n_peers_total,
                self@ == (Block { entries: self@.entries, ..start }),
                self@.entries.len() == self.approval_entries@.len(),
                start.entries.len() == self.approval_entries@.len(),
                self@.entries.skip(k as int) == start.entries.skip(k as int),
                (Selection { entries: self@.entries.take(k as int), picked: picked@, luck: draws@ })
                    == select_entries(start.entries.take(k as int), peer, seen, total, luck),
            decreases self.approval_entries.len() - k,
        {
            let ghost before = self@.entries;
            let ghost rest = select_entries(start.entries.take(k as int), peer, seen, total, luck);
            proof {
                assert(before.skip(k as int)[0] == start.entries.skip(k as int)[0]);
                assert(before[k as int] == start.entries[k as int]);
                assert(start.entries.take(k + 1).drop_last() =~= start.entries.take(k as int));
                assert(start.entries.take(k + 1).last() == start.entries[k as int]);
                assert(self.approval_entries@[k as int]@ == before[k as int]);
            }
            let routing = self.approval_entries[k].required_routing;
            let choice = if is_routed(topology, routing, peer) {
                true
            } else if is_topology_member(topology, peer) {
                let sent = self.approval_entries[k].peers_randomly_routed.len();
                let hit = sample(sent, n_peers_total, draws);
                if hit {
                    self.approval_entries[k].peers_randomly_routed.push(peer);
                }
                hit
            } else {
                false
            };
            picked.push(choice);
            proof {
                assert(self@.entries =~= before.update(k as int, self@.entries[k as int]));
                assert(self@.entries.skip(k + 1) =~= start.entries.skip(k + 1)) by {
                    assert forall|i: int| k + 1 <= i < before.len() implies before[i] == start.entries[i] by {
                        assert(before.skip(k as int)[i - k] == start.entries.skip(k as int)[i - k]);
                    }
                }
                assert(self@.entries.take(k + 1) =~= before.take(k as int).push(self@.entries[k as int]));
            }
            k += 1;
        }
        proof {
            assert(start.entries.take(k as int) =~= start.entries);
            assert(self@.entries.take(k as int) =~= self@.entries);
        }
        picked
    }

    /// Notes that a peer has become aware of the block, and collects the messages that it is to get.
    pub fn greet(
        &mut self,
        peer: PeerId,
        topology: Option<&SessionTopology>,
        n_peers_total: usize,
        draws: &mut Draws,
        assignments: &mut Vec<Assignment>,
        votes: &mut Vec<IndirectSignedApprovalVoteV2>,
    )
        requires
            old(self).wf(),
            !old(self)@.aware(peer),
        ensures
            final(self).wf(),
            ({
                let greeting = old(self)@.greeted(peer, outlook(topology), n_peers_total as nat, old(draws)@);
                &&& final(self)@ == greeting.block
                &&& final(draws)@ == greeting.luck
                &&& final(assignments)@ == old(assignments)@ + greeting.assignments
                &&& final(votes)@ == old(votes)@ + greeting.votes
            }),
    {
        let ghost start = self@;
        let ghost greeting = start.greeted(peer, outlook(topology), n_peers_total as nat, draws@);
        proof {
            lemma_select_len(start.entries, peer, outlook(topology), n_peers_total as nat, draws@);
        }
        let picked = self.select(peer, topology, n_peers_total, draws);
        let ghost selected = self@;
        let mut knowledge = PeerKnowledge::new();
        let ghost opening = offer_of(knowledge, *assignments, *votes);
        proof {
            lemma_offer_shift(opening, selected.entries, picked@);
        }
        offer_entries(&mut knowledge, &self.approval_entries, &picked, assignments, votes);
        let ghost memory = knowledge@;
        self.known_by.push((peer, knowledge));
        proof {
            assert(self@.known_by =~= selected.known_by.push((peer, memory)));
            dict::lemma_dict_push(selected.known_by, peer, memory);
            assert(self@ =~= greeting.block);
        }
    }

    /// Collects the messages that the topology demands a peer to get and that it does not have, if it
    /// is aware of the block.
    pub fn propagate(
        &mut self,
        peer: PeerId,
        topology: Option<&SessionTopology>,
        assignments: &mut Vec<Assignment>,
        votes: &mut Vec<IndirectSignedApprovalVoteV2>,
    )
        requires
            old(self).wf(),
        ensures
            final(self).wf(),
            ({
                let (block, new_assignments, new_votes) = old(self)@.propagated(peer, outlook(topology));
                &&& final(self)@ == block
                &&& final(assignments)@ == old(assignments)@ + new_assignments
                &&& final(votes)@ == old(votes)@ + new_votes
            }),
    {
        let ghost start = self@;
        let ghost seen = outlook(topology);
        let ghost goal = start.propagated(peer, seen);
        let position = match self.peer_position(peer) {
            Some(i) => i,
            None => {
                assert(assignments@ + goal.1 =~= assignments@);
                assert(votes@ + goal.2 =~= votes@);
                return;
            },
        };
        let mut picked: Vec<bool> = Vec::new();
        let mut k: usize = 0;
        while k < self.approval_entries.len()
            invariant
                k <= self.approval_entries.len(),
                self@ == start,
                seen == outlook(topology),
                picked@ == routed_entries(start.entries, peer, seen).take(k as int),
            decreases self.approval_entries.len() - k,
        {
            picked.push(is_routed(topology, self.approval_entries[k].required_routing, peer));
            proof {
                assert(self.approval_entries@[k as int]@ == start.entries[k as int]);
                assert(picked@ =~= routed_entries(start.entries, peer, seen).take(k + 1));
            }
            k += 1;
        }
        proof {
            assert(picked@ =~= routed_entries(start.entries, peer, seen));
            let opening = Offer {
                memory: start.known_by[position as int].1,
                assignments: assignments@,
                votes: votes@,
            };
            lemma_offer_shift(opening, start.entries, picked@);
            assert(self.known_by@[position as int].1@ == start.known_by[position as int].1);
        }
        offer_entries(&mut self.known_by[position].1, &self.approval_entries, &picked, assignments, votes);
        proof {
            let memory = self@.known_by[position as int].1;
            assert(self@.known_by =~= start.known_by.update(position as int, (peer, memory)));
            dict::lemma_dict_update(start.known_by, position as int, memory);
            assert(self@ =~= goal.0);
        }
    }
}

} // verus!
