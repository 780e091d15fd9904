//! That peers are sent the messages about the blocks that they become aware of.
use crate::block::Block;
use crate::circulation::routed;
use crate::delivery::{
    has_entry, lemma_entries_offered, lemma_new_is_offered, lemma_vote_offered_or_unknown,
    sends_vote_about, stands_alone,
};
use crate::dict;
use crate::dispatch::{
    delivers_assignment, delivers_vote, lemma_approvals_sent, lemma_assignments_sent,
    newly_delivers_assignment, newly_delivers_vote_about, understands_assignment, understands_vote,
};
use crate::knowledge::{approval_subject, assignment_subject, MessageKind, PeerMemory};
use crate::messages::{Assignment, IndirectSignedApprovalVoteV2};
use crate::offers::{select_entries, Offer};
use crate::peers::{unaware, Tour};
use crate::primitives::{BlockHash, BlockNumber, PeerId};
use crate::random::Luck;
use crate::state::{Horizon, Node};
use crate::stories::{lemma_selected, lemma_walked_aware};
use crate::topology::Outlook;
use vstd::prelude::*;

verus! {

/// A peer that becomes aware of a block is offered every assignment about it that the topology demands.
pub proof fn greetings_hold_the_assignments(
    block: Block,
    peer: PeerId,
    topology: Option<Outlook>,
    n_peers_total: nat,
    luck: Luck,
    k: int,
)
    requires
        0 <= k < block.entries.len(),
        routed(topology, block.entries[k].routing, peer),
        stands_alone(block, k),
    ensures
        block.greeted(peer, topology, n_peers_total, luck).assignments.contains(block.entries[k].assignment),
{
    let selection = select_entries(block.entries, peer, topology, n_peers_total, luck);
    let subject = assignment_subject(block.entries[k].assignment);
    let memory = PeerMemory::blank();
    lemma_selected(block.entries, peer, topology, n_peers_total, luck);
    assert forall|a: int, b: int|
        0 <= a < selection.entries.take(k).len() && 0 <= b < selection.entries.take(k)[a].approvals.len() implies
        approval_subject(#[trigger] selection.entries.take(k)[a].approvals[b]) != subject by {
        assert(selection.entries[a].approvals == block.entries[a].approvals);
        assert(block.entries.take(k)[a] == block.entries[a]);
        assert(approval_subject(block.entries.take(k)[a].approvals[b]) != subject);
    }
    assert(selection.entries[k].assignment == block.entries[k].assignment);
    lemma_new_is_offered(memory, selection.entries, selection.picked, k);
    lemma_entries_offered(memory, selection.entries, selection.picked);
    let offered = Offer::nothing(memory).with_entries(selection.entries, selection.picked).assignments;
    let i = choose|i: int| 0 <= i < offered.len() && assignment_subject(#[trigger] offered[i]) == subject;
    let m = choose|m: int|
        0 <= m < selection.entries.len() && selection.picked[m] && (#[trigger] selection.entries[m]).assignment
            == offered[i];
    assert(block.entries[m].assignment == offered[i]);
    assert(m == k);
}

/// A peer that becomes aware of a block is offered every vote about it that the topology demands, or
/// another one of the same validator about the same candidates.
pub proof fn greetings_hold_the_votes(
    block: Block,
    peer: PeerId,
    topology: Option<Outlook>,
    n_peers_total: nat,
    luck: Luck,
    k: int,
    j: int,
)
    requires
        0 <= k < block.entries.len(),
        0 <= j < block.entries[k].approvals.len(),
        routed(topology, block.entries[k].routing, peer),
    ensures
        sends_vote_about(
            block.greeted(peer, topology, n_peers_total, luck).votes,
            approval_subject(block.entries[k].approvals[j]),
        ),
{
    let selection = select_entries(block.entries, peer, topology, n_peers_total, luck);
    let subject = approval_subject(block.entries[k].approvals[j]);
    let memory = PeerMemory::blank();
    lemma_selected(block.entries, peer, topology, n_peers_total, luck);
    assert(selection.entries[k].approvals == block.entries[k].approvals);
    lemma_entries_offered(memory, selection.entries, selection.picked);
    let offer = Offer::nothing(memory).with_entries(selection.entries, selection.picked);
    assert(has_entry(offer.memory, selection.entries[k]));
    assert(offer.memory.has(approval_subject(selection.entries[k].approvals[j]), MessageKind::Approval));
    lemma_vote_offered_or_unknown(memory, selection.entries, selection.picked, subject);
}

/// Whether a tour has collected what a peer is offered that becomes aware of a block.
pub open spec fn holds_greeting(tour: Tour, block: Block, peer: PeerId, topology: Option<Outlook>, luck: Luck) -> bool {
    let greeting = block.greeted(peer, topology, tour.node.peers.len(), luck);
    &&& forall|a: Assignment| greeting.assignments.contains(a) ==> #[trigger] tour.assignments.contains(a)
    &&& forall|v: IndirectSignedApprovalVoteV2| greeting.votes.contains(v) ==> #[trigger] tour.votes.contains(v)
}

/// A walk takes nothing back of what has been collected.
proof fn lemma_walked_keeps(tour: Tour, peer: PeerId, finalized_number: BlockNumber, from: BlockHash)
    ensures
        ({
            let end = tour.walked(peer, finalized_number, from);
            &&& forall|a: Assignment| tour.assignments.contains(a) ==> #[trigger] end.assignments.contains(a)
            &&& forall|v: IndirectSignedApprovalVoteV2| tour.votes.contains(v) ==> #[trigger] end.votes.contains(v)
        }),
    decreases unaware(tour.node.blocks, peer),
{
    if !tour.ends_at(peer, finalized_number, from) {
        let next = tour.greeted(peer, from);
        let end = tour.walked(peer, finalized_number, from);
        tour.lemma_greeted(peer, finalized_number, from);
        lemma_walked_keeps(next, peer, finalized_number, tour.node.block(from).parent_hash);
        assert forall|a: Assignment| tour.assignments.contains(a) implies #[trigger] end.assignments.contains(a) by {
            let i = choose|i: int| 0 <= i < tour.assignments.len() && tour.assignments[i] == a;
            assert(next.assignments[i] == a);
            assert(next.assignments.contains(a));
        }
        assert forall|v: IndirectSignedApprovalVoteV2| tour.votes.contains(v) implies #[trigger] end.votes.contains(
            v,
        ) by {
            let i = choose|i: int| 0 <= i < tour.votes.len() && tour.votes[i] == v;
            assert(next.votes[i] == v);
            assert(next.votes.contains(v));
        }
    }
}

/// A walk leaves a block as it is unless it makes the peer aware of it; if it does, it collects the
/// messages about the block.
proof fn lemma_walked_collects(tour: Tour, peer: PeerId, finalized_number: BlockNumber, from: BlockHash, i: int)
    requires
        0 <= i < tour.node.blocks.len(),
        !tour.node.blocks[i].1.aware(peer),
    ensures
        ({
            let end = tour.walked(peer, finalized_number, from);
            let block = tour.node.blocks[i].1;
            let topology = tour.node.topology_of(block.session);
            &&& end.node.blocks.len() == tour.node.blocks.len()
            &&& !end.node.blocks[i].1.aware(peer) ==> end.node.blocks[i] == tour.node.blocks[i]
            &&& end.node.blocks[i].1.aware(peer) ==> exists|luck: Luck| #[trigger]
                holds_greeting(end, block, peer, topology, luck)
        }),
    decreases unaware(tour.node.blocks, peer),
{
    if !tour.ends_at(peer, finalized_number, from) {
        let next = tour.greeted(peer, from);
        let parent = tour.node.block(from).parent_hash;
        let end = tour.walked(peer, finalized_number, from);
        let block = tour.node.blocks[i].1;
        let topology = tour.node.topology_of(block.session);
        tour.lemma_greeted(peer, finalized_number, from);
        if dict::index_of_key(tour.node.blocks, from) == i {
            let greeting = block.greeted(peer, topology, tour.node.peers.len(), tour.node.luck);
            lemma_walked_keeps(next, peer, finalized_number, parent);
            next.lemma_walked_frame(peer, finalized_number, parent);
            assert forall|a: Assignment| greeting.assignments.contains(a) implies #[trigger] end.assignments.contains(
                a,
            ) by {
                let m = choose|m: int| 0 <= m < greeting.assignments.len() && greeting.assignments[m] == a;
                assert(next.assignments[tour.assignments.len() + m] == a);
                assert(next.assignments.contains(a));
            }
            assert forall|v: IndirectSignedApprovalVoteV2| greeting.votes.contains(v) implies #[trigger] end.votes.contains(
                v,
            ) by {
                let m = choose|m: int| 0 <= m < greeting.votes.len() && greeting.votes[m] == v;
                assert(next.votes[tour.votes.len() + m] == v);
                assert(next.votes.contains(v));
            }
            let known_by = next.node.blocks[i].1.known_by;
            assert(known_by[known_by.len() - 1].0 == peer);
            lemma_walked_aware(next, peer, finalized_number, parent, i);
            assert(holds_greeting(end, block, peer, topology, tour.node.luck));
        } else {
            assert(next.node.blocks[i] == tour.node.blocks[i]);
            lemma_walked_collects(next, peer, finalized_number, parent, i);
        }
    }
}

/// Walks leave a block as it is unless they make the peer aware of it; if they do, they collect the
/// messages about the block.
proof fn lemma_toured_collects(tour: Tour, peer: PeerId, finalized_number: BlockNumber, heads: Seq<BlockHash>, i: int)
    requires
        0 <= i < tour.node.blocks.len(),
        !tour.node.blocks[i].1.aware(peer),
    ensures
        ({
            let end = tour.toured(peer, finalized_number, heads);
            let block = tour.node.blocks[i].1;
            let topology = tour.node.topology_of(block.session);
            &&& end.node.blocks.len() == tour.node.blocks.len()
            &&& !end.node.blocks[i].1.aware(peer) ==> end.node.blocks[i] == tour.node.blocks[i]
            &&& end.node.blocks[i].1.aware(peer) ==> exists|luck: Luck| #[trigger]
                holds_greeting(end, block, peer, topology, luck)
        }),
    decreases heads.len(),
{
    if heads.len() > 0 {
        let short = heads.drop_last();
        let rest = tour.toured(peer, finalized_number, short);
        let end = tour.toured(peer, finalized_number, heads);
        let block = tour.node.blocks[i].1;
        let topology = tour.node.topology_of(block.session);
        lemma_toured_collects(tour, peer, finalized_number, short, i);
        tour.lemma_toured_frame(peer, finalized_number, short);
        if rest.node.blocks[i].1.aware(peer) {
            lemma_walked_keeps(rest, peer, finalized_number, heads.last());
            rest.lemma_walked_frame(peer, finalized_number, heads.last());
            let luck = choose|luck: Luck| #[trigger] holds_greeting(rest, block, peer, topology, luck);
            let greeting = block.greeted(peer, topology, tour.node.peers.len(), luck);
            assert forall|a: Assignment| greeting.assignments.contains(a) implies #[trigger] end.assignments.contains(
                a,
            ) by {
                assert(rest.assignments.contains(a));
            }
            assert forall|v: IndirectSignedApprovalVoteV2| greeting.votes.contains(v) implies #[trigger] end.votes.contains(
                v,
            ) by {
                assert(rest.votes.contains(v));
            }
            lemma_walked_aware(rest, peer, finalized_number, heads.last(), i);
            assert(holds_greeting(end, block, peer, topology, luck));
        } else {
            lemma_walked_collects(rest, peer, finalized_number, heads.last(), i);
        }
    }
}

/// A connected peer that becomes aware of a block, when it is brought up to date, is sent every
/// assignment about the block that the topology demands and that it understands.
pub proof fn newcomers_are_sent_the_assignments(node: Node, peer: PeerId, view: Horizon, i: int, k: int)
    requires
        0 <= i < node.blocks.len(),
        !node.blocks[i].1.aware(peer),
        node.unified(peer, view).blocks[i].1.aware(peer),
        0 <= k < node.blocks[i].1.entries.len(),
        routed(node.topology_of(node.blocks[i].1.session), node.blocks[i].1.entries[k].routing, peer),
        stands_alone(node.blocks[i].1, k),
        node.has_peer(peer),
        understands_assignment(node.peer(peer).version, node.blocks[i].1.entries[k].assignment),
    ensures
        newly_delivers_assignment(
            node.out,
            node.unified(peer, view).out,
            peer,
            node.blocks[i].1.entries[k].assignment,
        ),
{
    let block = node.blocks[i].1;
    let topology = node.topology_of(block.session);
    let assignment = block.entries[k].assignment;
    let tour = Tour { node, assignments: Seq::empty(), votes: Seq::empty() };
    let end = tour.toured(peer, view.finalized_number, view.heads);
    lemma_toured_collects(tour, peer, view.finalized_number, view.heads, i);
    tour.lemma_toured_frame(peer, view.finalized_number, view.heads);
    let luck = choose|luck: Luck| #[trigger] holds_greeting(end, block, peer, topology, luck);
    greetings_hold_the_assignments(block, peer, topology, node.peers.len(), luck, k);
    assert(end.assignments.contains(assignment));
    let at = choose|at: int| 0 <= at < end.assignments.len() && end.assignments[at] == assignment;
    assert(end.node.peer(peer) == node.peer(peer));
    lemma_assignments_sent(end.node, end.assignments, seq![peer], at, peer);
    let middle = end.node.assignments_sent(end.assignments, seq![peer]);
    let out = node.unified(peer, view).out;
    let e = choose|e: int|
        node.out.len() <= e < middle.out.len() && delivers_assignment(#[trigger] middle.out[e], peer, assignment);
    assert(out[e] == middle.out[e]);
}

/// A connected peer that becomes aware of a block, when it is brought up to date, is sent every vote
/// about the block that the topology demands and that it understands, or another one of the same
/// validator about the same candidates.
pub proof fn newcomers_are_sent_the_votes(node: Node, peer: PeerId, view: Horizon, i: int, k: int, j: int)
    requires
        0 <= i < node.blocks.len(),
        !node.blocks[i].1.aware(peer),
        node.unified(peer, view).blocks[i].1.aware(peer),
        0 <= k < node.blocks[i].1.entries.len(),
        0 <= j < node.blocks[i].1.entries[k].approvals.len(),
        routed(node.topology_of(node.blocks[i].1.session), node.blocks[i].1.entries[k].routing, peer),
        node.has_peer(peer),
        understands_vote(node.peer(peer).version, node.blocks[i].1.entries[k].approvals[j]),
    ensures
        newly_delivers_vote_about(
            node.out,
            node.unified(peer, view).out,
            peer,
            approval_subject(node.blocks[i].1.entries[k].approvals[j]),
        ),
{
    let block = node.blocks[i].1;
    let topology = node.topology_of(block.session);
    let owed = block.entries[k].approvals[j];
    let tour = Tour { node, assignments: Seq::empty(), votes: Seq::empty() };
    let end = tour.toured(peer, view.finalized_number, view.heads);
    lemma_toured_collects(tour, peer, view.finalized_number, view.heads, i);
    tour.lemma_toured_frame(peer, view.finalized_number, view.heads);
    let luck = choose|luck: Luck| #[trigger] holds_greeting(end, block, peer, topology, luck);
    greetings_hold_the_votes(block, peer, topology, node.peers.len(), luck, k, j);
    let greeting = block.greeted(peer, topology, node.peers.len(), luck);
    let g = choose|g: int|
        0 <= g < greeting.votes.len() && approval_subject(#[trigger] greeting.votes[g]) == approval_subject(owed);
    let vote = greeting.votes[g];
    assert(greeting.votes.contains(vote));
    assert(end.votes.contains(vote));
    let at = choose|at: int| 0 <= at < end.votes.len() && end.votes[at] == vote;
    let middle = end.node.assignments_sent(end.assignments, seq![peer]);
    assert(middle.peer(peer) == node.peer(peer));
    assert(vote.candidate_indices == owed.candidate_indices);
    lemma_approvals_sent(middle, end.votes, seq![peer], at, peer);
    let out = node.unified(peer, view).out;
    let e = choose|e: int| middle.out.len() <= e < out.len() && delivers_vote(#[trigger] out[e], peer, vote);
    assert(node.out.len() <= e);
}

} // verus!
