//! That messages which have to go to a peer are handed to the network.
use crate::actions::Effect;
use crate::aggression::newest;
use crate::batching::{
    approval_notifications, approval_sends, assignment_notifications, assignment_sends, in_old_form,
    peers_of, sends, speaker_of, vote_in_old_form, Notification, MAX_APPROVAL_BATCH_SIZE,
    MAX_ASSIGNMENT_BATCH_SIZE,
};
use crate::block::Block;
use crate::circulation::{follows, reaches, routed, routing_of};
use crate::delivery::{
    all_propagated, lacking_messages_are_offered, lacking_votes_are_offered,
    lemma_all_propagated_shape, lemma_all_propagated_to_others, lemma_unsent_memory,
    propagation_brings_what_is_owed, sends_vote_about, stands_alone,
};
use crate::dict;
use crate::import::{ApprovalCheckResult, AssignmentCheckResult};
use crate::knowledge::{self, approval_subject, assignment_subject, MessageKind, MessageSubject};
use crate::laws::{assignments_reach_their_receivers, votes_reach_their_receivers};
use crate::lists;
use crate::messages::{self, Assignment, IndirectSignedApprovalVoteV2};
use crate::outbox::lemma_packets;
use crate::primitives::{BlockHash, BlockNumber, PeerId, SessionIndex, ValidationVersion};
use crate::propagation::{parcel, Reform, Scope};
use crate::reputation::BENEFIT_VALID_MESSAGE_FIRST;
use crate::state::{lookup_topology, version_in, Node};
use crate::stories::lemma_with_block;
use crate::topology::Outlook;
use vstd::prelude::*;

verus! {

/// Whether a peer that speaks a version of the protocol understands an assignment.
pub open spec fn understands_assignment(version: ValidationVersion, assignment: Assignment) -> bool {
    version == ValidationVersion::V3 || messages::downgraded_assignment(assignment) is Some
}

/// Whether a peer that speaks a version of the protocol understands a vote.
pub open spec fn understands_vote(version: ValidationVersion, vote: IndirectSignedApprovalVoteV2) -> bool {
    version == ValidationVersion::V3 || messages::downgraded_vote(vote) is Some
}

/// Whether a notification brings an assignment.
pub open spec fn holds_assignment(note: Notification, assignment: Assignment) -> bool {
    exists|j: int| 0 <= j < note.size() && #[trigger] note.brings_assignment(j, assignment)
}

/// Whether a notification brings a vote.
pub open spec fn holds_vote(note: Notification, vote: IndirectSignedApprovalVoteV2) -> bool {
    exists|j: int| 0 <= j < note.size() && #[trigger] note.brings_vote(j, vote)
}

/// Whether an effect sends an assignment to a peer.
pub open spec fn delivers_assignment(effect: Effect, peer: PeerId, assignment: Assignment) -> bool {
    effect matches Effect::Send(receivers, note) && receivers.contains(peer) && holds_assignment(note, assignment)
}

/// Whether an effect sends a vote to a peer.
pub open spec fn delivers_vote(effect: Effect, peer: PeerId, vote: IndirectSignedApprovalVoteV2) -> bool {
    effect matches Effect::Send(receivers, note) && receivers.contains(peer) && holds_vote(note, vote)
}

/// Whether what is new among some effects sends an assignment to a peer.
pub open spec fn newly_delivers_assignment(
    was: Seq<Effect>,
    now: Seq<Effect>,
    peer: PeerId,
    assignment: Assignment,
) -> bool {
    exists|e: int| was.len() <= e < now.len() && delivers_assignment(#[trigger] now[e], peer, assignment)
}

/// Whether what is new among some effects sends a vote to a peer.
pub open spec fn newly_delivers_vote(
    was: Seq<Effect>,
    now: Seq<Effect>,
    peer: PeerId,
    vote: IndirectSignedApprovalVoteV2,
) -> bool {
    exists|e: int| was.len() <= e < now.len() && delivers_vote(#[trigger] now[e], peer, vote)
}

/// Whether what is new among some effects sends a vote with a subject to a peer.
pub open spec fn newly_delivers_vote_about(
    was: Seq<Effect>,
    now: Seq<Effect>,
    peer: PeerId,
    subject: MessageSubject,
) -> bool {
    exists|e: int, vote: IndirectSignedApprovalVoteV2|
        was.len() <= e < now.len() && approval_subject(vote) == subject && #[trigger] delivers_vote(
            now[e],
            peer,
            vote,
        )
}

/// The position of an effect in what is sent version after version.
spec fn shifted(a: Seq<Effect>, b: Seq<Effect>, version: ValidationVersion, k: int) -> int {
    match version {
        ValidationVersion::V1 => k,
        ValidationVersion::V2 => a.len() + k,
        ValidationVersion::V3 => a.len() + b.len() + k,
    }
}

/// The notification that brings an assignment to peers of a version.
proof fn lemma_noted_assignment(assignments: Seq<Assignment>, version: ValidationVersion, i: int) -> (k: int)
    requires
        0 <= i < assignments.len(),
        understands_assignment(version, assignments[i]),
    ensures
        0 <= k < assignment_notifications(assignments, version).len(),
        holds_assignment(assignment_notifications(assignments, version)[k], assignments[i]),
{
    let size = MAX_ASSIGNMENT_BATCH_SIZE as int;
    let notes = assignment_notifications(assignments, version);
    if version == ValidationVersion::V3 {
        let (k, j) = lists::lemma_piece_of(assignments, size, i);
        assert(notes[k].brings_assignment(j, assignments[i]));
        k
    } else {
        let old = lists::filter_mapped(assignments, in_old_form());
        let m = lists::lemma_filter_mapped_keeps(assignments, in_old_form(), i);
        let (k, j) = lists::lemma_piece_of(old, size, m);
        assert(notes[k].brings_assignment(j, assignments[i]));
        k
    }
}

/// The notification that brings a vote to peers of a version.
proof fn lemma_noted_vote(votes: Seq<IndirectSignedApprovalVoteV2>, version: ValidationVersion, i: int) -> (k: int)
    requires
        0 <= i < votes.len(),
        understands_vote(version, votes[i]),
    ensures
        0 <= k < approval_notifications(votes, version).len(),
        holds_vote(approval_notifications(votes, version)[k], votes[i]),
{
    let size = MAX_APPROVAL_BATCH_SIZE as int;
    let notes = approval_notifications(votes, version);
    if version == ValidationVersion::V3 {
        let (k, j) = lists::lemma_piece_of(votes, size, i);
        assert(notes[k].brings_vote(j, votes[i]));
        k
    } else {
        let old = lists::filter_mapped(votes, vote_in_old_form());
        let m = lists::lemma_filter_mapped_keeps(votes, vote_in_old_form(), i);
        let (k, j) = lists::lemma_piece_of(old, size, m);
        assert(notes[k].brings_vote(j, votes[i]));
        k
    }
}

/// Every assignment that is to be sent to some peers is sent to each of them that understands it.
pub proof fn assignments_are_sent_to_all_who_understand(
    assignments: Seq<Assignment>,
    peers: Seq<(PeerId, ValidationVersion)>,
    i: int,
    p: int,
)
    requires
        0 <= i < assignments.len(),
        0 <= p < peers.len(),
        understands_assignment(peers[p].1, assignments[i]),
    ensures
        newly_delivers_assignment(Seq::empty(), assignment_sends(assignments, peers), peers[p].0, assignments[i]),
{
    let version = peers[p].1;
    let m = lists::lemma_filter_mapped_keeps(peers, speaker_of(version), p);
    let k = lemma_noted_assignment(assignments, version, i);
    let receivers = peers_of(peers, version);
    let notes = assignment_notifications(assignments, version);
    assert(receivers[m] == peers[p].0);
    assert(sends(receivers, notes)[k] == Effect::Send(receivers, notes[k]));
    let a = sends(
        peers_of(peers, ValidationVersion::V1),
        assignment_notifications(assignments, ValidationVersion::V1),
    );
    let b = sends(
        peers_of(peers, ValidationVersion::V2),
        assignment_notifications(assignments, ValidationVersion::V2),
    );
    let all = assignment_sends(assignments, peers);
    let e = shifted(a, b, version, k);
    assert(all[e] == sends(receivers, notes)[k]);
    assert(delivers_assignment(all[e], peers[p].0, assignments[i]));
}

/// Every vote that is to be sent to some peers is sent to each of them that understands it.
pub proof fn votes_are_sent_to_all_who_understand(
    votes: Seq<IndirectSignedApprovalVoteV2>,
    peers: Seq<(PeerId, ValidationVersion)>,
    i: int,
    p: int,
)
    requires
        0 <= i < votes.len(),
        0 <= p < peers.len(),
        understands_vote(peers[p].1, votes[i]),
    ensures
        newly_delivers_vote(Seq::empty(), approval_sends(votes, peers), peers[p].0, votes[i]),
{
    let version = peers[p].1;
    let m = lists::lemma_filter_mapped_keeps(peers, speaker_of(version), p);
    let k = lemma_noted_vote(votes, version, i);
    let receivers = peers_of(peers, version);
    let notes = approval_notifications(votes, version);
    assert(receivers[m] == peers[p].0);
    assert(sends(receivers, notes)[k] == Effect::Send(receivers, notes[k]));
    let a = sends(peers_of(peers, ValidationVersion::V1), approval_notifications(votes, ValidationVersion::V1));
    let b = sends(peers_of(peers, ValidationVersion::V2), approval_notifications(votes, ValidationVersion::V2));
    let all = approval_sends(votes, peers);
    let e = shifted(a, b, version, k);
    assert(all[e] == sends(receivers, notes)[k]);
    assert(delivers_vote(all[e], peers[p].0, votes[i]));
}

/// What is sent to connected peers is in the outbox.
pub proof fn lemma_assignments_sent(node: Node, assignments: Seq<Assignment>, receivers: Seq<PeerId>, i: int, peer: PeerId)
    requires
        0 <= i < assignments.len(),
        receivers.contains(peer),
        node.has_peer(peer),
        understands_assignment(node.peer(peer).version, assignments[i]),
    ensures
        newly_delivers_assignment(
            node.out,
            node.assignments_sent(assignments, receivers).out,
            peer,
            assignments[i],
        ),
{
    let r = choose|r: int| 0 <= r < receivers.len() && receivers[r] == peer;
    let p = lists::lemma_filter_mapped_keeps(receivers, version_in(node.peers), r);
    let versions = node.versions_of(receivers);
    assert(versions[p] == (peer, node.peer(peer).version));
    assignments_are_sent_to_all_who_understand(assignments, versions, i, p);
    let all = assignment_sends(assignments, versions);
    let e = choose|e: int| 0 <= e < all.len() && delivers_assignment(#[trigger] all[e], peer, assignments[i]);
    let out = node.assignments_sent(assignments, receivers).out;
    assert(out[node.out.len() + e] == all[e]);
}

/// What is sent to connected peers is in the outbox.
pub proof fn lemma_approvals_sent(
    node: Node,
    votes: Seq<IndirectSignedApprovalVoteV2>,
    receivers: Seq<PeerId>,
    i: int,
    peer: PeerId,
)
    requires
        0 <= i < votes.len(),
        receivers.contains(peer),
        node.has_peer(peer),
        understands_vote(node.peer(peer).version, votes[i]),
    ensures
        newly_delivers_vote(node.out, node.approvals_sent(votes, receivers).out, peer, votes[i]),
{
    let r = choose|r: int| 0 <= r < receivers.len() && receivers[r] == peer;
    let p = lists::lemma_filter_mapped_keeps(receivers, version_in(node.peers), r);
    let versions = node.versions_of(receivers);
    assert(versions[p] == (peer, node.peer(peer).version));
    votes_are_sent_to_all_who_understand(votes, versions, i, p);
    let all = approval_sends(votes, versions);
    let e = choose|e: int| 0 <= e < all.len() && delivers_vote(#[trigger] all[e], peer, votes[i]);
    let out = node.approvals_sent(votes, receivers).out;
    assert(out[node.out.len() + e] == all[e]);
}

/// An assignment that is passed on is sent to every connected peer that is aware of the block, did not
/// send it, understands it and is demanded by the topology.
pub proof fn circulated_assignments_are_sent(node: Node, source: Option<PeerId>, assignment: Assignment, peer: PeerId)
    requires
        node.has_block(assignment.cert.block_hash),
        node.block(assignment.cert.block_hash).aware(peer),
        source != Some(peer),
        ({
            let topology = node.topology_of(node.block(assignment.cert.block_hash).session);
            routed(topology, routing_of(topology, assignment.cert.validator, source is None), peer)
        }),
        node.has_peer(peer),
        understands_assignment(node.peer(peer).version, assignment),
    ensures
        newly_delivers_assignment(node.out, node.assignment_circulated(source, assignment).out, peer, assignment),
{
    let hash = assignment.cert.block_hash;
    let block = node.block(hash);
    let topology = node.topology_of(block.session);
    let passed = block.circulated_assignment(source, assignment, topology, node.peers.len(), node.luck);
    assignments_reach_their_receivers(block, source, assignment, topology, node.peers.len(), node.luck, peer);
    assert(passed.receivers.contains(peer));
    let next = Node { luck: passed.luck, ..node.with_block(hash, passed.block) };
    assert(next.peer(peer) == node.peer(peer));
    lemma_assignments_sent(next, seq![assignment], passed.receivers, 0, peer);
}

/// A vote that is passed on is sent to every connected peer that is aware of the block, did not send
/// it, understands it, and gets the messages of an assignment that it follows from.
pub proof fn circulated_votes_are_sent(
    node: Node,
    source: Option<PeerId>,
    vote: IndirectSignedApprovalVoteV2,
    peer: PeerId,
    k: int,
)
    requires
        node.has_block(vote.block_hash),
        node.block(vote.block_hash).aware(peer),
        source != Some(peer),
        0 <= k < node.block(vote.block_hash).entries.len(),
        follows(node.block(vote.block_hash).entries[k], vote),
        reaches(
            node.block(vote.block_hash).entries[k],
            node.topology_of(node.block(vote.block_hash).session),
            peer,
        ),
        node.has_peer(peer),
        understands_vote(node.peer(peer).version, vote),
    ensures
        newly_delivers_vote(node.out, node.approval_circulated(source, vote).out, peer, vote),
{
    let hash = vote.block_hash;
    let block = node.block(hash);
    let topology = node.topology_of(block.session);
    let (passed, receivers) = block.circulated_approval(source, vote, topology);
    votes_reach_their_receivers(block, source, vote, topology, peer);
    assert(receivers.contains(peer));
    let next = node.with_block(hash, passed);
    assert(next.peer(peer) == node.peer(peer));
    lemma_approvals_sent(next, seq![vote], receivers, 0, peer);
}

/// The node's own new assignment is sent to all its neighbors that are connected, aware of the block and
/// understand it, those in its row and those in its column.
pub proof fn own_assignments_go_along_both_dimensions(node: Node, assignment: Assignment, peer: PeerId)
    requires
        dict::keys_unique(node.blocks),
        node.has_block(assignment.cert.block_hash),
        !knowledge::knows(
            node.block(assignment.cert.block_hash).knowledge,
            assignment_subject(assignment),
            MessageKind::Assignment,
        ),
        node.block(assignment.cert.block_hash).aware(peer),
        ({
            let topology = node.topology_of(node.block(assignment.cert.block_hash).session);
            topology matches Some(t) && (t.grid.peers_x.contains(peer) || t.grid.peers_y.contains(peer))
        }),
        node.has_peer(peer),
        understands_assignment(node.peer(peer).version, assignment),
    ensures
        newly_delivers_assignment(node.out, node.assignment_distributed(assignment).out, peer, assignment),
{
    let hash = assignment.cert.block_hash;
    let known = node.block(hash).after_learned(assignment_subject(assignment), MessageKind::Assignment);
    lemma_with_block(node, hash, known);
    circulated_assignments_are_sent(node.with_block(hash, known), None, assignment, peer);
}

/// An assignment that has been accepted from a peer, of a validator in the node's row alone, is sent to
/// all neighbors in the column that are connected, aware of the block, understand it and did not send
/// it; one of a validator in the column alone is sent to those in the row.
pub proof fn accepted_assignments_go_along_the_other_dimension(
    node: Node,
    source: PeerId,
    assignment: Assignment,
    peer: PeerId,
)
    requires
        dict::keys_unique(node.blocks),
        node.has_block(assignment.cert.block_hash),
        node.block(assignment.cert.block_hash).aware(peer),
        source != peer,
        ({
            let topology = node.topology_of(node.block(assignment.cert.block_hash).session);
            let validator = assignment.cert.validator;
            topology matches Some(t) && {
                ||| t.grid.validators_x.contains(validator) && !t.grid.validators_y.contains(validator)
                    && t.grid.peers_y.contains(peer)
                ||| t.grid.validators_y.contains(validator) && !t.grid.validators_x.contains(validator)
                    && t.grid.peers_x.contains(peer)
            }
        }),
        node.has_peer(peer),
        understands_assignment(node.peer(peer).version, assignment),
    ensures
        newly_delivers_assignment(
            node.out,
            node.assignment_judged(source, assignment, AssignmentCheckResult::Accepted).out,
            peer,
            assignment,
        ),
{
    let hash = assignment.cert.block_hash;
    let subject = assignment_subject(assignment);
    let kind = MessageKind::Assignment;
    let scored = node.reported(source, BENEFIT_VALID_MESSAGE_FIRST);
    let block = node.block(hash).after_learned(subject, kind).after_received(source, subject, kind);
    lemma_received_keeps_awareness(node.block(hash).after_learned(subject, kind), source, subject, kind, peer);
    lemma_with_block(scored, hash, block);
    let next = scored.with_block(hash, block);
    circulated_assignments_are_sent(next, Some(source), assignment, peer);
    let out = node.assignment_judged(source, assignment, AssignmentCheckResult::Accepted).out;
    let e = choose|e: int|
        next.out.len() <= e < out.len() && delivers_assignment(#[trigger] out[e], peer, assignment);
    assert(node.out.len() <= e);
}

/// Noting a message as received leaves alone who is aware of the block.
proof fn lemma_received_keeps_awareness(
    block: Block,
    source: PeerId,
    subject: MessageSubject,
    kind: MessageKind,
    peer: PeerId,
)
    requires
        block.aware(peer),
    ensures
        block.after_received(source, subject, kind).aware(peer),
        block.after_received(source, subject, kind).entries == block.entries,
        block.after_received(source, subject, kind).session == block.session,
{
    let i = dict::index_of_key(block.known_by, peer);
    assert(block.known_by[i].0 == peer);
    let next = block.after_received(source, subject, kind);
    if block.aware(source) {
        let j = dict::index_of_key(block.known_by, source);
        assert(block.known_by[j].0 == source);
    }
    assert(next.known_by[i].0 == peer);
}

/// A vote that has been accepted from a peer is sent to every other connected peer that is aware of the
/// block, understands it, and gets the messages of an assignment that it follows from.
pub proof fn accepted_votes_follow_their_assignments(
    node: Node,
    source: PeerId,
    vote: IndirectSignedApprovalVoteV2,
    peer: PeerId,
    k: int,
)
    requires
        dict::keys_unique(node.blocks),
        node.has_block(vote.block_hash),
        node.block(vote.block_hash).aware(peer),
        source != peer,
        0 <= k < node.block(vote.block_hash).entries.len(),
        follows(node.block(vote.block_hash).entries[k], vote),
        reaches(
            node.block(vote.block_hash).entries[k],
            node.topology_of(node.block(vote.block_hash).session),
            peer,
        ),
        node.has_peer(peer),
        understands_vote(node.peer(peer).version, vote),
    ensures
        newly_delivers_vote(
            node.out,
            node.approval_judged(source, vote, ApprovalCheckResult::Accepted).out,
            peer,
            vote,
        ),
{
    let hash = vote.block_hash;
    let subject = approval_subject(vote);
    let kind = MessageKind::Approval;
    let scored = node.reported(source, BENEFIT_VALID_MESSAGE_FIRST);
    let block = node.block(hash).after_learned(subject, kind).after_received(source, subject, kind);
    lemma_received_keeps_awareness(node.block(hash).after_learned(subject, kind), source, subject, kind, peer);
    lemma_with_block(scored, hash, block);
    let next = scored.with_block(hash, block);
    circulated_votes_are_sent(next, Some(source), vote, peer, k);
    let out = node.approval_judged(source, vote, ApprovalCheckResult::Accepted).out;
    let e = choose|e: int| next.out.len() <= e < out.len() && delivers_vote(#[trigger] out[e], peer, vote);
    assert(node.out.len() <= e);
}

/// The node's own new vote is sent to every connected peer that is aware of the block, understands it,
/// and gets the messages of an assignment that it follows from.
pub proof fn own_votes_follow_their_assignments(node: Node, vote: IndirectSignedApprovalVoteV2, peer: PeerId, k: int)
    requires
        dict::keys_unique(node.blocks),
        node.has_block(vote.block_hash),
        node.block(vote.block_hash).contains_candidates(vote.candidate_indices),
        !knowledge::knows(
            node.block(vote.block_hash).knowledge,
            approval_subject(vote),
            MessageKind::Approval,
        ),
        node.block(vote.block_hash).aware(peer),
        0 <= k < node.block(vote.block_hash).entries.len(),
        follows(node.block(vote.block_hash).entries[k], vote),
        reaches(
            node.block(vote.block_hash).entries[k],
            node.topology_of(node.block(vote.block_hash).session),
            peer,
        ),
        node.has_peer(peer),
        understands_vote(node.peer(peer).version, vote),
    ensures
        newly_delivers_vote(node.out, node.approval_distributed(vote).out, peer, vote),
{
    let hash = vote.block_hash;
    let known = node.block(hash).after_learned(approval_subject(vote), MessageKind::Approval);
    lemma_with_block(node, hash, known);
    circulated_votes_are_sent(node.with_block(hash, known), None, vote, peer, k);
}

/// A parcel holds what each block of the group has for the peer.
proof fn lemma_parcel_holds(
    blocks: Seq<(BlockHash, Block)>,
    scope: Scope,
    peer: PeerId,
    topologies: Seq<(SessionIndex, Outlook)>,
    i: int,
    j: int,
) -> (m: int)
    requires
        0 <= i < blocks.len(),
        scope.covers(blocks[i].1),
        ({
            let topology = lookup_topology(topologies, blocks[i].1.session);
            0 <= j < blocks[i].1.propagated(peer, topology).1.len()
        }),
    ensures
        ({
            let topology = lookup_topology(topologies, blocks[i].1.session);
            let found = parcel(blocks, scope, peer, topologies).assignments;
            0 <= m < found.len() && found[m] == blocks[i].1.propagated(peer, topology).1[j]
        }),
    decreases blocks.len(),
{
    let short = blocks.drop_last();
    let rest = parcel(short, scope, peer, topologies).assignments;
    if i == blocks.len() - 1 {
        rest.len() + j
    } else {
        assert(short[i] == blocks[i]);
        lemma_parcel_holds(short, scope, peer, topologies, i, j)
    }
}

/// A wave sends a peer each assignment about a block of the group that it lacks.
proof fn lemma_wave_sends(
    node: Node,
    scope: Scope,
    peers: Seq<PeerId>,
    i: int,
    peer: PeerId,
    k: int,
    p: int,
)
    requires
        0 <= p < peers.len(),
        peers[p] == peer,
        peers.no_duplicates(),
        node.owes(scope, i, peer, k),
    ensures
        newly_delivers_assignment(
            node.out,
            node.wave(scope, peers).node.out,
            peer,
            node.blocks[i].1.entries[k].assignment,
        ),
    decreases peers.len(),
{
    let short = peers.drop_last();
    let rest = node.wave(scope, short).node;
    let out = node.wave(scope, peers).node.out;
    let block = node.blocks[i].1;
    let assignment = block.entries[k].assignment;
    let topology = node.topology_of(block.session);
    let found = parcel(rest.blocks, scope, peers.last(), rest.topologies);
    let next = Node { blocks: found.blocks, ..rest };
    node.lemma_wave_at(scope, short);
    lemma_waves_append(node, scope, short);
    if p == peers.len() - 1 {
        assert(!short.contains(peer)) by {
            if short.contains(peer) {
                let q = choose|q: int| 0 <= q < short.len() && short[q] == peer;
                assert(peers[q] == peers[p]);
            }
        }
        lemma_all_propagated_to_others(block, short, topology, peer);
        lemma_all_propagated_shape(block, short, topology);
        let now = rest.blocks[i].1;
        assert(now == all_propagated(block, short, topology));
        lacking_messages_are_offered(now, peer, topology, k);
        let offered = now.propagated(peer, topology).1;
        let j = choose|j: int|
            0 <= j < offered.len() && assignment_subject(#[trigger] offered[j]) == assignment_subject(assignment);
        propagation_brings_what_is_owed(now, peer, topology);
        let m = choose|m: int| 0 <= m < now.entries.len() && (#[trigger] now.entries[m]).assignment == offered[j];
        assert(block.entries[m].assignment == offered[j]);
        assert(m == k);
        let at = lemma_parcel_holds(rest.blocks, scope, peer, rest.topologies, i, j);
        assert(next.peer(peer) == node.peer(peer));
        lemma_assignments_sent(next, found.assignments, seq![peer], at, peer);
        let e = choose|e: int|
            rest.out.len() <= e < out.len() && delivers_assignment(#[trigger] out[e], peer, assignment);
        assert(node.out.len() <= e);
    } else {
        assert(short[p] == peer);
        lemma_wave_sends(node, scope, short, i, peer, k, p);
        let e = choose|e: int|
            node.out.len() <= e < rest.out.len() && delivers_assignment(#[trigger] rest.out[e], peer, assignment);
        assert(out[e] == rest.out[e]);
    }
}

/// A wave takes nothing back.
proof fn lemma_waves_append(node: Node, scope: Scope, peers: Seq<PeerId>)
    ensures
        node.out.len() <= node.wave(scope, peers).node.out.len(),
    decreases peers.len(),
{
    if peers.len() > 0 {
        lemma_waves_append(node, scope, peers.drop_last());
    }
}

impl Node {
    /// Whether the node owes a connected peer the assignment of an entry about a block of a group: the
    /// topology demands it, the peer is aware of the block, lacks the assignment and understands it, and
    /// nothing stands in for it.
    pub open spec fn owes(self, scope: Scope, i: int, peer: PeerId, k: int) -> bool {
        let block = self.blocks[i].1;
        &&& 0 <= i < self.blocks.len()
        &&& scope.covers(block)
        &&& dict::keys_unique(block.known_by)
        &&& block.aware(peer)
        &&& 0 <= k < block.entries.len()
        &&& routed(self.topology_of(block.session), block.entries[k].routing, peer)
        &&& !block.memory(peer).has(assignment_subject(block.entries[k].assignment), MessageKind::Assignment)
        &&& stands_alone(block, k)
        &&& self.has_peer(peer)
        &&& understands_assignment(self.peer(peer).version, block.entries[k].assignment)
    }
}

/// When the messages about a group of blocks are sent, every assignment that the node owes to a peer is
/// sent to it.
pub proof fn owed_assignments_are_sent(node: Node, scope: Scope, i: int, peer: PeerId, k: int)
    requires
        dict::keys_unique(node.peers),
        node.owes(scope, i, peer, k),
    ensures
        newly_delivers_assignment(
            node.out,
            node.propagated(scope).out,
            peer,
            node.blocks[i].1.entries[k].assignment,
        ),
{
    let peers = node.peer_ids();
    let assignment = node.blocks[i].1.entries[k].assignment;
    node.lemma_peer_ids(peer);
    let p = choose|p: int| 0 <= p < peers.len() && peers[p] == peer;
    assert(peers.no_duplicates()) by {
        assert forall|a: int, b: int| 0 <= a < b < peers.len() implies peers[a] != peers[b] by {
            assert(node.peers[a].0 != node.peers[b].0);
        }
    }
    lemma_wave_sends(node, scope, peers, i, peer, k, p);
    let wave = node.wave(scope, peers);
    lemma_packets(wave.node, wave.votes);
    let out = node.propagated(scope).out;
    let e = choose|e: int|
        node.out.len() <= e < wave.node.out.len() && delivers_assignment(
            #[trigger] wave.node.out[e],
            peer,
            assignment,
        );
    assert(out.take(wave.node.out.len() as int)[e] == wave.node.out[e]);
}

/// A parcel holds what each block of the group has for the peer.
proof fn lemma_parcel_holds_vote(
    blocks: Seq<(BlockHash, Block)>,
    scope: Scope,
    peer: PeerId,
    topologies: Seq<(SessionIndex, Outlook)>,
    i: int,
    j: int,
) -> (m: int)
    requires
        0 <= i < blocks.len(),
        scope.covers(blocks[i].1),
        ({
            let topology = lookup_topology(topologies, blocks[i].1.session);
            0 <= j < blocks[i].1.propagated(peer, topology).2.len()
        }),
    ensures
        ({
            let topology = lookup_topology(topologies, blocks[i].1.session);
            let found = parcel(blocks, scope, peer, topologies).votes;
            0 <= m < found.len() && found[m] == blocks[i].1.propagated(peer, topology).2[j]
        }),
    decreases blocks.len(),
{
    let short = blocks.drop_last();
    let rest = parcel(short, scope, peer, topologies).votes;
    if i == blocks.len() - 1 {
        rest.len() + j
    } else {
        assert(short[i] == blocks[i]);
        lemma_parcel_holds_vote(short, scope, peer, topologies, i, j)
    }
}

/// A wave collects, for a peer, each vote about a block of the group that it lacks.
proof fn lemma_wave_collects(
    node: Node,
    scope: Scope,
    peers: Seq<PeerId>,
    i: int,
    peer: PeerId,
    k: int,
    j: int,
    p: int,
)
    requires
        0 <= p < peers.len(),
        peers[p] == peer,
        peers.no_duplicates(),
        node.owes_vote(scope, i, peer, k, j),
    ensures
        node.wave(scope, peers).votes.len() == peers.len(),
        node.wave(scope, peers).votes[p].0 == peer,
        sends_vote_about(
            node.wave(scope, peers).votes[p].1,
            approval_subject(node.blocks[i].1.entries[k].approvals[j]),
        ),
    decreases peers.len(),
{
    let short = peers.drop_last();
    let rest = node.wave(scope, short).node;
    let block = node.blocks[i].1;
    let subject = approval_subject(block.entries[k].approvals[j]);
    let topology = node.topology_of(block.session);
    node.lemma_wave_at(scope, short);
    lemma_wave_len(node, scope, short);
    if p == peers.len() - 1 {
        assert(!short.contains(peer)) by {
            if short.contains(peer) {
                let q = choose|q: int| 0 <= q < short.len() && short[q] == peer;
                assert(peers[q] == peers[p]);
            }
        }
        lemma_all_propagated_to_others(block, short, topology, peer);
        lemma_all_propagated_shape(block, short, topology);
        let now = rest.blocks[i].1;
        assert(now == all_propagated(block, short, topology));
        lacking_votes_are_offered(now, peer, topology, k, j);
        let offered = now.propagated(peer, topology).2;
        let v = choose|v: int| 0 <= v < offered.len() && approval_subject(#[trigger] offered[v]) == subject;
        let m = lemma_parcel_holds_vote(rest.blocks, scope, peer, rest.topologies, i, v);
        let found = parcel(rest.blocks, scope, peer, rest.topologies);
        assert(approval_subject(found.votes[m]) == subject);
    } else {
        assert(short[p] == peer);
        lemma_wave_collects(node, scope, short, i, peer, k, j, p);
    }
}

/// A wave has one packet of votes for each peer.
proof fn lemma_wave_len(node: Node, scope: Scope, peers: Seq<PeerId>)
    ensures
        node.wave(scope, peers).votes.len() == peers.len(),
    decreases peers.len(),
{
    if peers.len() > 0 {
        lemma_wave_len(node, scope, peers.drop_last());
    }
}

/// Every vote of a packet is sent to the peer that the packet is for.
proof fn lemma_packet_sent(
    node: Node,
    packets: Seq<(PeerId, Seq<IndirectSignedApprovalVoteV2>)>,
    p: int,
    i: int,
)
    requires
        0 <= p < packets.len(),
        0 <= i < packets[p].1.len(),
        node.has_peer(packets[p].0),
        understands_vote(node.peer(packets[p].0).version, packets[p].1[i]),
    ensures
        newly_delivers_vote(node.out, node.packets_sent(packets).out, packets[p].0, packets[p].1[i]),
    decreases packets.len(),
{
    let short = packets.drop_last();
    let rest = node.packets_sent(short);
    let (peer, votes) = packets[p];
    let out = node.packets_sent(packets).out;
    node.lemma_packets_frame(short);
    lemma_packets(node, short);
    if p == packets.len() - 1 {
        lemma_approvals_sent(rest, votes, seq![peer], i, peer);
        let e = choose|e: int| rest.out.len() <= e < out.len() && delivers_vote(#[trigger] out[e], peer, votes[i]);
        assert(node.out.len() <= e);
    } else {
        assert(short[p] == packets[p]);
        lemma_packet_sent(node, short, p, i);
        let e = choose|e: int|
            node.out.len() <= e < rest.out.len() && delivers_vote(#[trigger] rest.out[e], peer, votes[i]);
        assert(out[e] == rest.out[e]);
    }
}

impl Node {
    /// Whether the node owes a connected peer a vote about a block of a group: the topology demands it,
    /// the peer is aware of the block, lacks the vote and understands it.
    pub open spec fn owes_vote(self, scope: Scope, i: int, peer: PeerId, k: int, j: int) -> bool {
        let block = self.blocks[i].1;
        let vote = block.entries[k].approvals[j];
        &&& 0 <= i < self.blocks.len()
        &&& scope.covers(block)
        &&& dict::keys_unique(block.known_by)
        &&& block.aware(peer)
        &&& 0 <= k < block.entries.len()
        &&& 0 <= j < block.entries[k].approvals.len()
        &&& routed(self.topology_of(block.session), block.entries[k].routing, peer)
        &&& !block.memory(peer).has(approval_subject(vote), MessageKind::Approval)
        &&& self.has_peer(peer)
        &&& understands_vote(self.peer(peer).version, vote)
    }
}

/// When the messages about a group of blocks are sent, every vote that the node owes to a peer is sent
/// to it, or another one of the same validator about the same candidates.
pub proof fn owed_votes_are_sent(node: Node, scope: Scope, i: int, peer: PeerId, k: int, j: int)
    requires
        dict::keys_unique(node.peers),
        node.owes_vote(scope, i, peer, k, j),
    ensures
        newly_delivers_vote_about(
            node.out,
            node.propagated(scope).out,
            peer,
            approval_subject(node.blocks[i].1.entries[k].approvals[j]),
        ),
{
    let peers = node.peer_ids();
    let owed = node.blocks[i].1.entries[k].approvals[j];
    let subject = approval_subject(owed);
    node.lemma_peer_ids(peer);
    let p = choose|p: int| 0 <= p < peers.len() && peers[p] == peer;
    assert(peers.no_duplicates()) by {
        assert forall|a: int, b: int| 0 <= a < b < peers.len() implies peers[a] != peers[b] by {
            assert(node.peers[a].0 != node.peers[b].0);
        }
    }
    lemma_wave_collects(node, scope, peers, i, peer, k, j, p);
    lemma_waves_append(node, scope, peers);
    node.lemma_wave_at(scope, peers);
    let wave = node.wave(scope, peers);
    let votes = wave.votes[p].1;
    let v = choose|v: int| 0 <= v < votes.len() && approval_subject(#[trigger] votes[v]) == subject;
    assert(votes[v].candidate_indices == owed.candidate_indices);
    assert(wave.node.peer(peer) == node.peer(peer));
    lemma_packet_sent(wave.node, wave.votes, p, v);
    let out = node.propagated(scope).out;
    let e = choose|e: int| wave.node.out.len() <= e < out.len() && delivers_vote(#[trigger] out[e], peer, votes[v]);
    assert(node.out.len() <= e);
}

/// Where finality lags, an assignment about a block whose time has come is sent again to every connected
/// peer that is aware of the block, understands it, is demanded by the topology and has not sent it
/// itself, whether or not it was sent before.
pub proof fn old_assignments_are_sent_again(node: Node, period: BlockNumber, i: int, peer: PeerId, k: int)
    requires
        node.config.resend_unfinalized_period == Some(period),
        dict::keys_unique(node.peers),
        0 <= i < node.blocks.len(),
        (Scope::Aged { newest: newest(node.blocks), period }).covers(node.blocks[i].1),
        dict::keys_unique(node.blocks[i].1.known_by),
        node.blocks[i].1.aware(peer),
        0 <= k < node.blocks[i].1.entries.len(),
        routed(node.topology_of(node.blocks[i].1.session), node.blocks[i].1.entries[k].routing, peer),
        !knowledge::knows(
            node.blocks[i].1.memory(peer).received,
            assignment_subject(node.blocks[i].1.entries[k].assignment),
            MessageKind::Assignment,
        ),
        stands_alone(node.blocks[i].1, k),
        node.has_peer(peer),
        understands_assignment(node.peer(peer).version, node.blocks[i].1.entries[k].assignment),
    ensures
        newly_delivers_assignment(node.out, node.resent().out, peer, node.blocks[i].1.entries[k].assignment),
{
    let scope = Scope::Aged { newest: newest(node.blocks), period };
    let changed = Node { blocks: node.blocks.map_values(Reform::Resend.block_change(scope)), ..node };
    let was = node.blocks[i].1;
    let now = changed.blocks[i].1;
    assert(was.entries.map_values(Reform::Resend.entry_change()) =~= was.entries);
    assert(now == was.unsent());
    lemma_unsent_memory(was, peer);
    assert(changed.peer(peer) == node.peer(peer));
    owed_assignments_are_sent(changed, scope, i, peer, k);
}

/// The same of votes.
pub proof fn old_votes_are_sent_again(node: Node, period: BlockNumber, i: int, peer: PeerId, k: int, j: int)
    requires
        node.config.resend_unfinalized_period == Some(period),
        dict::keys_unique(node.peers),
        0 <= i < node.blocks.len(),
        (Scope::Aged { newest: newest(node.blocks), period }).covers(node.blocks[i].1),
        dict::keys_unique(node.blocks[i].1.known_by),
        node.blocks[i].1.aware(peer),
        0 <= k < node.blocks[i].1.entries.len(),
        0 <= j < node.blocks[i].1.entries[k].approvals.len(),
        routed(node.topology_of(node.blocks[i].1.session), node.blocks[i].1.entries[k].routing, peer),
        !knowledge::knows(
            node.blocks[i].1.memory(peer).received,
            approval_subject(node.blocks[i].1.entries[k].approvals[j]),
            MessageKind::Approval,
        ),
        node.has_peer(peer),
        understands_vote(node.peer(peer).version, node.blocks[i].1.entries[k].approvals[j]),
    ensures
        newly_delivers_vote_about(
            node.out,
            node.resent().out,
            peer,
            approval_subject(node.blocks[i].1.entries[k].approvals[j]),
        ),
{
    let scope = Scope::Aged { newest: newest(node.blocks), period };
    let changed = Node { blocks: node.blocks.map_values(Reform::Resend.block_change(scope)), ..node };
    let was = node.blocks[i].1;
    let now = changed.blocks[i].1;
    assert(was.entries.map_values(Reform::Resend.entry_change()) =~= was.entries);
    assert(now == was.unsent());
    lemma_unsent_memory(was, peer);
    assert(changed.peer(peer) == node.peer(peer));
    owed_votes_are_sent(changed, scope, i, peer, k, j);
}

} // verus!
