//! Passing new messages on to the peers that are to get them.
use crate::bitfield::{CandidateBitfield, MAX_BITFIELD_SIZE};
use crate::block::{ApprovalEntry, Block, BlockEntry, Entry};
use crate::knowledge::{self, generate_approval_key, generate_assignment_key, MessageKind};
use crate::lists;
use crate::messages::{Assignment, IndirectSignedApprovalVoteV2};
use crate::primitives::{PeerId, ValidatorIndex};
use crate::random::{self, sample, Draws, Luck};
use crate::topology::{has_peer, Outlook, RequiredRouting, SessionTopology};
use vstd::prelude::*;

verus! {

/// What a topology says, if there is one.
pub open spec fn outlook(topology: Option<&SessionTopology>) -> Option<Outlook> {
    match topology {
        Some(t) => Some(t@),
        None => None,
    }
}

/// Whether a topology demands that messages of some routing go to a peer.
pub open spec fn routed(topology: Option<Outlook>, routing: RequiredRouting, peer: PeerId) -> bool {
    match topology {
        Some(t) => t.grid.routes(routing, peer),
        None => false,
    }
}

/// Whether a peer may be chosen at random: it acts for a validator of the session.
pub open spec fn is_member(topology: Option<Outlook>, peer: PeerId) -> bool {
    match topology {
        Some(t) => t.members.contains(peer),
        None => false,
    }
}

/// Where the messages of a validator have to go; without a topology that is open.
pub open spec fn routing_of(topology: Option<Outlook>, originator: ValidatorIndex, local: bool) -> RequiredRouting {
    match topology {
        Some(t) => t.grid.required_routing(originator, local),
        None => RequiredRouting::PendingTopology,
    }
}

pub(crate) fn is_routed(topology: Option<&SessionTopology>, routing: RequiredRouting, peer: PeerId) -> (answer: bool)
    ensures
        answer == routed(outlook(topology), routing, peer),
{
    match topology {
        Some(t) => t.local_grid_neighbors.route_to_peer(routing, peer),
        None => false,
    }
}

pub(crate) fn is_topology_member(topology: Option<&SessionTopology>, peer: PeerId) -> (answer: bool)
    ensures
        answer == is_member(outlook(topology), peer),
{
    match topology {
        Some(t) => t.is_validator(peer),
        None => false,
    }
}

/// Whether a message came from a peer.
fn is_source(source: Option<PeerId>, peer: PeerId) -> (answer: bool)
    ensures
        answer == (source == Some(peer)),
{
    match source {
        Some(p) => p == peer,
        None => false,
    }
}

/// The peers that are chosen at random from a list, of those that are eligible, and the draws that
/// are left.
pub open spec fn pick_random(peers: Seq<PeerId>, eligible: spec_fn(PeerId) -> bool, n_peers_total: nat, luck: Luck) -> (
    Seq<PeerId>,
    Luck,
)
    decreases peers.len(),
{
    if peers.len() == 0 {
        (Seq::empty(), luck)
    } else {
        let (picked, left) = pick_random(peers.drop_last(), eligible, n_peers_total, luck);
        if eligible(peers.last()) {
            (
                if random::sampled(picked.len(), n_peers_total, left) {
                    picked.push(peers.last())
                } else {
                    picked
                },
                random::luck_after_sample(picked.len(), n_peers_total, left),
            )
        } else {
            (picked, left)
        }
    }
}

/// The peers, other than the source, that may be chosen beyond those that a topology demands.
pub open spec fn eligible(source: Option<PeerId>, topology: Option<Outlook>, routing: RequiredRouting) -> spec_fn(
    PeerId,
) -> bool {
    |peer: PeerId| source != Some(peer) && !routed(topology, routing, peer) && is_member(topology, peer)
}

/// Whether the messages of an entry go to a peer.
pub open spec fn reaches(entry: Entry, topology: Option<Outlook>, peer: PeerId) -> bool {
    routed(topology, entry.routing, peer) || entry.randomly_routed.contains(peer)
}

/// The peers, other than the source, that the messages of an entry go to.
pub open spec fn receiver_of(entry: Entry, source: Option<PeerId>, topology: Option<Outlook>) -> spec_fn(
    PeerId,
) -> bool {
    |peer: PeerId| source != Some(peer) && reaches(entry, topology, peer)
}

/// What comes of passing a message on.
#[verifier::ext_equal]
pub ghost struct Circulation {
    pub block: Block,
    pub receivers: Seq<PeerId>,
    pub luck: Luck,
}

impl Block {
    /// What comes of passing on a new assignment: it goes to the peers that the topology demands and
    /// to a few randomly chosen ones, but never back to where it came from, and its entry remembers
    /// the choice.
    pub open spec fn circulated_assignment(
        self,
        source: Option<PeerId>,
        assignment: Assignment,
        topology: Option<Outlook>,
        n_peers_total: nat,
        luck: Luck,
    ) -> Circulation {
        let local = source is None;
        let routing = routing_of(topology, assignment.cert.validator, local);
        let (picked, left) = pick_random(
            self.peers(),
            eligible(source, topology, routing),
            n_peers_total,
            luck,
        );
        let entry = Entry { assignment, routing, local, randomly_routed: picked, approvals: Seq::empty() };
        let receivers = self.peers().filter(receiver_of(entry, source, topology));
        let sent = self.after_sent(
            receivers,
            knowledge::assignment_subject(assignment),
            MessageKind::Assignment,
        );
        Circulation { block: Block { entries: self.entries.push(entry), ..sent }, receivers, luck: left }
    }
}

impl BlockEntry {
    /// Passes on a new assignment, and tells to which peers.
    pub fn circulate_assignment(
        &mut self,
        source: Option<PeerId>,
        assignment: Assignment,
        topology: Option<&SessionTopology>,
        n_peers_total: usize,
        draws: &mut Draws,
    ) -> (receivers: Vec<PeerId>)
        requires
            old(self).wf(),
        ensures
            final(self).wf(),
            (Circulation { block: final(self)@, receivers: receivers@, luck: final(draws)@ }) == old(
                self,
            )@.circulated_assignment(source, assignment, outlook(topology), n_peers_total as nat, old(draws)@),
    {
        let ghost start = self@;
        let ghost seen = outlook(topology);
        let ghost peers = start.peers();
        let local = source.is_none();
        let routing = match topology {
            Some(t) => t.local_grid_neighbors.required_routing_by_index(assignment.cert.validator, local),
            None => RequiredRouting::PendingTopology,
        };
        let ghost luck = draws@;
        let ghost fit = eligible(source, seen, routing);
        let mut picked: Vec<PeerId> = Vec::new();
        let mut i: usize = 0;
        while i < self.known_by.len()
            invariant
                i <= self.known_by.len(),
                self@ == start,
                peers == start.peers(),
                peers.len() == self.known_by@.len(),
                seen == outlook(topology),
                fit == eligible(source, seen, routing),
                (picked@, draws@) == pick_random(peers.take(i as int), fit, n_peers_total as nat, luck),
            decreases self.known_by.len() - i,
        {
            let peer = self.known_by[i].0;
            proof {
                assert(peers[i as int] == peer);
                assert(peers.take(i + 1).drop_last() =~= peers.take(i as int));
                assert(peers.take(i + 1).last() == peer);
            }
            if !is_source(source, peer) && !is_routed(topology, routing, peer) && is_topology_member(topology, peer) {
                if sample(picked.len(), n_peers_total, draws) {
                    picked.push(peer);
                }
            }
            i += 1;
        }
        assert(peers.take(i as int) =~= peers);
        let entry = ApprovalEntry {
            assignment,
            required_routing: routing,
            local,
            peers_randomly_routed: picked,
            approvals: Vec::new(),
        };
        let ghost wanted = receiver_of(entry@, source, seen);
        let mut receivers: Vec<PeerId> = Vec::new();
        let mut k: usize = 0;
        assert(peers.take(0).filter(wanted) =~= Seq::empty()) by {
            reveal(Seq::filter);
        }
        while k < self.known_by.len()
            invariant
                k <= self.known_by.len(),
                self@ == start,
                peers == start.peers(),
                peers.len() == self.known_by@.len(),
                seen == outlook(topology),
                wanted == receiver_of(entry@, source, seen),
                receivers@ == peers.take(k as int).filter(wanted),
            decreases self.known_by.len() - k,
        {
            let peer = self.known_by[k].0;
            proof {
                assert(peers[k as int] == peer);
                lists::lemma_filter_step(peers, k as int, wanted);
            }
            if !is_source(source, peer) && (is_routed(topology, entry.required_routing, peer) || has_peer(
                &entry.peers_randomly_routed,
                peer,
            )) {
                receivers.push(peer);
            }
            k += 1;
        }
        assert(peers.take(k as int) =~= peers);
        let subject = generate_assignment_key(&assignment);
        self.note_sent(&receivers, subject, MessageKind::Assignment);
        let ghost noted = entry@;
        self.approval_entries.push(entry);
        proof {
            let goal = start.circulated_assignment(source, assignment, seen, n_peers_total as nat, luck);
            assert(noted.approvals =~= Seq::empty());
            assert(self@.entries =~= goal.block.entries);
            assert(self@.known_by =~= goal.block.known_by);
            assert(self@ =~= goal.block);
        }
        receivers
    }
}

/// Whether a vote follows from an assignment: it is by the same validator, and at least one of its
/// candidates is among those assigned.
pub open spec fn follows(entry: Entry, vote: IndirectSignedApprovalVoteV2) -> bool {
    &&& entry.assignment.cert.validator == vote.validator
    &&& entry.assignment.candidates.overlaps(vote.candidate_indices)
}

/// Whether a vote has to go to a peer that it did not come from: the messages of an assignment that it
/// follows from do.
pub open spec fn vote_due(
    entries: Seq<Entry>,
    source: Option<PeerId>,
    vote: IndirectSignedApprovalVoteV2,
    topology: Option<Outlook>,
) -> spec_fn(PeerId) -> bool {
    |peer: PeerId|
        source != Some(peer) && exists|k: int|
            0 <= k < entries.len() && follows(#[trigger] entries[k], vote) && reaches(entries[k], topology, peer)
}

/// The entry with a vote noted, if it follows from the assignment.
pub open spec fn with_vote(vote: IndirectSignedApprovalVoteV2) -> spec_fn(Entry) -> Entry {
    |entry: Entry|
        if follows(entry, vote) {
            Entry { approvals: entry.approvals.push(vote), ..entry }
        } else {
            entry
        }
}

impl Block {
    /// Whether the block has all of the candidates.
    pub open spec fn contains_candidates(self, candidates: CandidateBitfield) -> bool {
        forall|i: int| #[trigger] candidates.has(i) ==> i < self.candidates
    }

    /// What comes of passing on a new vote: every assignment that it follows from remembers it, and it
    /// goes where the messages of those assignments go.
    pub open spec fn circulated_approval(
        self,
        source: Option<PeerId>,
        vote: IndirectSignedApprovalVoteV2,
        topology: Option<Outlook>,
    ) -> (Block, Seq<PeerId>) {
        let receivers = self.peers().filter(vote_due(self.entries, source, vote, topology));
        let sent = self.after_sent(receivers, knowledge::approval_subject(vote), MessageKind::Approval);
        (Block { entries: self.entries.map_values(with_vote(vote)), ..sent }, receivers)
    }
}

impl BlockEntry {
    /// Whether the block has all of the candidates.
    pub fn has_candidates(&self, candidates: CandidateBitfield) -> (answer: bool)
        ensures
            answer == self@.contains_candidates(candidates),
    {
        let mut i: u32 = 0;
        while i < MAX_BITFIELD_SIZE
            invariant
                i <= MAX_BITFIELD_SIZE,
                forall|k: int| k < i && #[trigger] candidates.has(k) ==> k < self.candidates,
            decreases MAX_BITFIELD_SIZE - i,
        {
            if candidates.bit_at(i) && i as usize >= self.candidates {
                assert(candidates.has(i as int));
                return false;
            }
            i += 1;
        }
        true
    }

    /// Whether a vote has to go to a peer.
    fn is_vote_due(
        &self,
        source: Option<PeerId>,
        vote: &IndirectSignedApprovalVoteV2,
        topology: Option<&SessionTopology>,
        peer: PeerId,
    ) -> (answer: bool)
        ensures
            answer == vote_due(self@.entries, source, *vote, outlook(topology))(peer),
    {
        if is_source(source, peer) {
            return false;
        }
        let ghost entries = self@.entries;
        let mut k: usize = 0;
        while k < self.approval_entries.len()
            invariant
                k <= self.approval_entries.len(),
                source != Some(peer),
                entries == self@.entries,
                forall|j: int|
                    0 <= j < k ==> !(follows(#[trigger] entries[j], *vote) && reaches(
                        entries[j],
                        outlook(topology),
                        peer,
                    )),
            decreases self.approval_entries.len() - k,
        {
            let entry = &self.approval_entries[k];
            assert(entries[k as int] == entry@);
            if entry.assignment.cert.validator == vote.validator && entry.assignment.candidates.intersects(
                &vote.candidate_indices,
            ) && (is_routed(topology, entry.required_routing, peer) || has_peer(&entry.peers_randomly_routed, peer)) {
                assert(follows(entries[k as int], *vote) && reaches(entries[k as int], outlook(topology), peer));
                return true;
            }
            k += 1;
        }
        false
    }

    /// Passes on a new vote, and tells to which peers.
    pub fn circulate_approval(
        &mut self,
        source: Option<PeerId>,
        vote: IndirectSignedApprovalVoteV2,
        topology: Option<&SessionTopology>,
    ) -> (receivers: Vec<PeerId>)
        requires
            old(self).wf(),
        ensures
            final(self).wf(),
            (final(self)@, receivers@) == old(self)@.circulated_approval(source, vote, outlook(topology)),
    {
        let ghost start = self@;
        let ghost seen = outlook(topology);
        let ghost peers = start.peers();
        let ghost wanted = vote_due(start.entries, source, vote, seen);
        let mut receivers: Vec<PeerId> = Vec::new();
        let mut i: usize = 0;
        assert(peers.take(0).filter(wanted) =~= Seq::empty()) by {
            reveal(Seq::filter);
        }
        while i < self.known_by.len()
            invariant
                i <= self.known_by.len(),
                self@ == start,
                peers == start.peers(),
                peers.len() == self.known_by@.len(),
                seen == outlook(topology),
                wanted == vote_due(start.entries, source, vote, seen),
                receivers@ == peers.take(i as int).filter(wanted),
            decreases self.known_by.len() - i,
        {
            let peer = self.known_by[i].0;
            proof {
                assert(peers[i as int] == peer);
                lists::lemma_filter_step(peers, i as int, wanted);
            }
            if self.is_vote_due(source, &vote, topology, peer) {
                receivers.push(peer);
            }
            i += 1;
        }
        assert(peers.take(i as int) =~= peers);
        let subject = generate_approval_key(&vote);
        self.note_sent(&receivers, subject, MessageKind::Approval);
        let ghost sent = self@;
        let ghost goal = start.entries.map_values(with_vote(vote));
        let mut k: usize = 0;
        assert(goal.take(0) + start.entries.skip(0) =~= start.entries);
        while k < self.approval_entries.len()
            invariant
                k <= self.approval_entries.len(),
                self.wf(),
                goal == start.entries.map_values(with_vote(vote)),
                start.entries.len() == self.approval_entries@.len(),
                self@ == (Block { entries: goal.take(k as int) + start.entries.skip(k as int), ..sent }),
            decreases self.approval_entries.len() - k,
        {
            let ghost before = self@;
            let ghost next = goal.take(k + 1) + start.entries.skip(k + 1);
            assert(before.entries[k as int] == start.entries[k as int]);
            assert(self.approval_entries@[k as int]@ == start.entries[k as int]);
            if self.approval_entries[k].assignment.cert.validator == vote.validator
                && self.approval_entries[k].assignment.candidates.intersects(&vote.candidate_indices) {
                self.approval_entries[k].approvals.push(vote);
                assert(self@.entries =~= before.entries.update(k as int, goal[k as int]));
                assert(self@.entries =~= next);
            } else {
                assert(goal[k as int] == start.entries[k as int]);
                assert(self@.entries =~= next);
            }
            k += 1;
        }
        assert(self@.entries =~= goal);
        receivers
    }
}

} // verus!
