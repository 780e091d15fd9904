//! What comes of events that follow each other.
use crate::actions::Effect;
use crate::batching::Versioned;
use crate::block::{Block, Entry};
use crate::chain::{above, imports, missing_from, released, BlockApprovalMeta};
use crate::circulation::routed;
use crate::delivery::{has_entry, lemma_entries_offered};
use crate::dict;
use crate::import::{ApprovalCheckResult, AssignmentCheckResult};
use crate::invariants::{
    has_message, lemma_arrival_sound, lemma_introduced_sound, lemma_reported_all_frame,
};
use crate::knowledge::{
    approval_subject, assignment_subject, covers_all, learning_adds_one_message, MessageKind,
    PeerMemory,
};
use crate::lists;
use crate::messages::{Assignment, IndirectSignedApprovalVoteV2};
use crate::offers::select_entries;
use crate::peers::{blocks_without, same_hashes, unaware, Tour};
use crate::primitives::{BlockHash, BlockNumber, PeerId};
use crate::random::Luck;
use crate::reputation::{
    scored, scored_all, Rep, BENEFIT_VALID_MESSAGE_FIRST, COST_UNEXPECTED_MESSAGE,
};
use crate::state::{Acquaintance, Horizon, Node, PendingMessage, Task};
use crate::subsystem::{unpacked, unpacking_costs, Event};
use crate::topology::Outlook;
use vstd::prelude::*;

verus! {

/// Passing an assignment on keeps the blocks that are known and what the node knows about them.
proof fn lemma_assignment_circulated_knows(node: Node, source: Option<PeerId>, assignment: Assignment)
    requires
        dict::keys_unique(node.blocks),
        node.has_block(assignment.cert.block_hash),
    ensures
        ({
            let hash = assignment.cert.block_hash;
            let next = node.assignment_circulated(source, assignment);
            &&& next.has_block(hash)
            &&& next.block(hash).knowledge == node.block(hash).knowledge
            &&& next.awaiting == node.awaiting
        }),
{
    let hash = assignment.cert.block_hash;
    let i = dict::index_of_key(node.blocks, hash);
    assert(node.blocks[i].0 == hash);
    let next = node.assignment_circulated(source, assignment);
    dict::lemma_dict_update(node.blocks, i, next.blocks[i].1);
    assert(next.blocks =~= node.blocks.update(i, (node.blocks[i].0, next.blocks[i].1)));
    assert(next.blocks[i].0 == hash);
    dict::lemma_dict_at(next.blocks, i);
}

/// Passing a vote on keeps the blocks that are known and what the node knows about them.
proof fn lemma_approval_circulated_knows(node: Node, source: Option<PeerId>, vote: IndirectSignedApprovalVoteV2)
    requires
        dict::keys_unique(node.blocks),
        node.has_block(vote.block_hash),
    ensures
        ({
            let hash = vote.block_hash;
            let next = node.approval_circulated(source, vote);
            &&& next.has_block(hash)
            &&& next.block(hash).knowledge == node.block(hash).knowledge
            &&& next.awaiting == node.awaiting
        }),
{
    let hash = vote.block_hash;
    let i = dict::index_of_key(node.blocks, hash);
    assert(node.blocks[i].0 == hash);
    let next = node.approval_circulated(source, vote);
    dict::lemma_dict_update(node.blocks, i, next.blocks[i].1);
    assert(next.blocks =~= node.blocks.update(i, (node.blocks[i].0, next.blocks[i].1)));
    assert(next.blocks[i].0 == hash);
    dict::lemma_dict_at(next.blocks, i);
}

/// With another value of a block the block is known with that value.
pub proof fn lemma_with_block(node: Node, hash: BlockHash, block: Block)
    requires
        dict::keys_unique(node.blocks),
        node.has_block(hash),
    ensures
        dict::keys_unique(node.with_block(hash, block).blocks),
        node.with_block(hash, block).has_block(hash),
        node.with_block(hash, block).block(hash) == block,
{
    let i = dict::index_of_key(node.blocks, hash);
    assert(node.blocks[i].0 == hash);
    let next = node.with_block(hash, block);
    dict::lemma_dict_update(node.blocks, i, block);
    assert(next.blocks =~= node.blocks.update(i, (node.blocks[i].0, block)));
    assert(next.blocks[i].0 == hash);
    dict::lemma_dict_at(next.blocks, i);
}

/// An assignment that has been accepted is known from then on: if the node issues the same one itself
/// nothing happens, and if a peer sends it again it is not checked again.
pub proof fn accepted_assignments_are_known(node: Node, peer: PeerId, assignment: Assignment, other: PeerId)
    requires
        dict::keys_unique(node.blocks),
        node.has_block(assignment.cert.block_hash),
        node.awaiting is None,
    ensures
        ({
            let next = node.assignment_judged(peer, assignment, AssignmentCheckResult::Accepted);
            &&& next.has_block(assignment.cert.block_hash)
            &&& has_message(
                next.block(assignment.cert.block_hash).knowledge,
                PendingMessage::Assignment(assignment),
            )
            &&& next.assignment_distributed(assignment) == next
            &&& next.assignment_received(other, assignment).awaiting is None
        }),
{
    let hash = assignment.cert.block_hash;
    let subject = assignment_subject(assignment);
    let kind = MessageKind::Assignment;
    let scored = node.reported(peer, BENEFIT_VALID_MESSAGE_FIRST);
    let block = node.block(hash).after_learned(subject, kind).after_received(peer, subject, kind);
    lemma_with_block(scored, hash, block);
    lemma_assignment_circulated_knows(scored.with_block(hash, block), Some(peer), assignment);
    learning_adds_one_message(node.block(hash).knowledge, subject, kind, subject, kind);
    let next = node.assignment_judged(peer, assignment, AssignmentCheckResult::Accepted);
    let screening = next.block(hash).screened(other, subject, kind);
    lemma_reported_all_frame(next.with_block(hash, screening.block), other, screening.reports);
}

/// A vote that has been accepted is known from then on: if the node casts the same one itself nothing
/// happens, and if a peer sends it again it is not checked again.
pub proof fn accepted_votes_are_known(node: Node, peer: PeerId, vote: IndirectSignedApprovalVoteV2, other: PeerId)
    requires
        dict::keys_unique(node.blocks),
        node.has_block(vote.block_hash),
        node.awaiting is None,
    ensures
        ({
            let next = node.approval_judged(peer, vote, ApprovalCheckResult::Accepted);
            &&& next.has_block(vote.block_hash)
            &&& has_message(next.block(vote.block_hash).knowledge, PendingMessage::Approval(vote))
            &&& next.approval_distributed(vote) == next
            &&& next.approval_received(other, vote).awaiting is None
        }),
{
    let hash = vote.block_hash;
    let subject = approval_subject(vote);
    let kind = MessageKind::Approval;
    let scored = node.reported(peer, BENEFIT_VALID_MESSAGE_FIRST);
    let block = node.block(hash).after_learned(subject, kind).after_received(peer, subject, kind);
    lemma_with_block(scored, hash, block);
    lemma_approval_circulated_knows(scored.with_block(hash, block), Some(peer), vote);
    learning_adds_one_message(node.block(hash).knowledge, subject, kind, subject, kind);
    let next = node.approval_judged(peer, vote, ApprovalCheckResult::Accepted);
    let screening = next.block(hash).screened(other, subject, kind);
    lemma_reported_all_frame(next.with_block(hash, screening.block), other, screening.reports);
}

/// No vote is checked before the assignments that it follows from are known.
pub proof fn votes_wait_for_assignments(node: Node, peer: PeerId, vote: IndirectSignedApprovalVoteV2)
    requires
        node.awaiting is None,
        node.approval_received(peer, vote).awaiting is Some,
    ensures
        node.has_block(vote.block_hash),
        node.block(vote.block_hash).contains_candidates(vote.candidate_indices),
        covers_all(
            node.block(vote.block_hash).knowledge,
            vote.validator,
            vote.candidate_indices,
        ),
        !has_message(node.block(vote.block_hash).knowledge, PendingMessage::Approval(vote)),
{
    if node.has_block(vote.block_hash) {
        let screening = node.block(vote.block_hash).screened(
            peer,
            approval_subject(vote),
            MessageKind::Approval,
        );
        lemma_reported_all_frame(
            node.with_block(vote.block_hash, screening.block),
            peer,
            screening.reports,
        );
    }
}

/// Blocks up to the number that has become final are dropped, and no others; what is known of those
/// stays as it is.
pub proof fn finalization_drops_the_final_blocks(node: Node, finalized_number: BlockNumber, hash: BlockHash)
    requires
        dict::keys_unique(node.blocks),
    ensures
        node.pruned(finalized_number).has_block(hash) <==> node.has_block(hash) && node.block(hash).number
            > finalized_number,
        node.pruned(finalized_number).has_block(hash) ==> node.pruned(finalized_number).block(hash) == node.block(
            hash,
        ),
{
    let keep = above(finalized_number);
    let next = node.pruned(finalized_number);
    dict::lemma_filter_keys(node.blocks, keep);
    lists::lemma_filter_satisfies(node.blocks, keep);
    if next.has_block(hash) {
        let i = dict::index_of_key(next.blocks, hash);
        assert(next.blocks[i].0 == hash);
        let j = choose|j: int| 0 <= j < node.blocks.len() && node.blocks[j] == next.blocks[i];
        assert(node.blocks[j].0 == hash);
        dict::lemma_dict_at(node.blocks, j);
        dict::lemma_dict_at(next.blocks, i);
        assert(keep(next.blocks[i]));
    }
    if node.has_block(hash) && node.block(hash).number > finalized_number {
        let j = dict::index_of_key(node.blocks, hash);
        assert(node.blocks[j].0 == hash);
        lists::lemma_filter_contains(node.blocks, keep, node.blocks[j]);
        let i = choose|i: int| 0 <= i < next.blocks.len() && next.blocks[i] == node.blocks[j];
        assert(next.blocks[i].0 == hash);
    }
}

/// A message about a head that the node looks at but does not know yet is kept without any consequence
/// for the peer.
pub proof fn early_messages_are_kept(node: Node, peer: PeerId, message: PendingMessage)
    requires
        dict::keys_unique(node.pending),
        dict::has_key(node.pending, message.about()),
    ensures
        ({
            let next = node.message_stored(peer, message);
            let i = dict::index_of_key(node.pending, message.about());
            &&& next == (Node { pending: next.pending, ..node })
            &&& next.pending.len() == node.pending.len()
            &&& next.pending[i] == (message.about(), node.pending[i].1.push((peer, message)))
        }),
{
}

/// The messages that were kept for a head are among the tasks that are released with it.
proof fn lemma_released_contains(
    pending: Seq<(BlockHash, Seq<(PeerId, PendingMessage)>)>,
    blocks: Seq<(BlockHash, Block)>,
    i: int,
    j: int,
)
    requires
        0 <= i < pending.len(),
        0 <= j < pending[i].1.len(),
        dict::has_key(blocks, pending[i].0),
    ensures
        released(pending, blocks).contains(Task::Import(pending[i].1[j].0, pending[i].1[j].1)),
    decreases pending.len(),
{
    let task = Task::Import(pending[i].1[j].0, pending[i].1[j].1);
    let rest = released(pending.drop_last(), blocks);
    let all = released(pending, blocks);
    if i == pending.len() - 1 {
        assert(imports(pending.last().1)[j] == task);
        assert(all[rest.len() + j] == task);
    } else {
        lemma_released_contains(pending.drop_last(), blocks, i, j);
        let k = choose|k: int| 0 <= k < rest.len() && rest[k] == task;
        assert(all[k] == task);
    }
}

/// A block that comes in is known.
proof fn lemma_arrival_contains(node: Node, metas: Seq<BlockApprovalMeta>, j: int)
    requires
        0 <= j < metas.len(),
        node.sound(),
    ensures
        node.arrival(metas).node.has_block(metas[j].hash),
    decreases metas.len(),
{
    let short = metas.drop_last();
    let rest = node.arrival(short).node;
    let end = node.arrival(metas).node;
    if j == metas.len() - 1 {
        if !rest.has_block(metas.last().hash) {
            assert(end.blocks[rest.blocks.len() as int].0 == metas.last().hash);
        }
    } else {
        lemma_arrival_contains(node, short, j);
        let k = dict::index_of_key(rest.blocks, metas[j].hash);
        assert(rest.blocks[k].0 == metas[j].hash);
        assert(end.blocks[k].0 == metas[j].hash);
    }
}

/// The messages that were kept for a head are imported once the head comes in as a block.
pub proof fn kept_messages_are_imported_with_their_block(
    node: Node,
    metas: Seq<BlockApprovalMeta>,
    m: int,
    i: int,
    j: int,
)
    requires
        node.coherent(),
        0 <= m < metas.len(),
        0 <= i < node.pending.len(),
        node.pending[i].0 == metas[m].hash,
        0 <= j < node.pending[i].1.len(),
    ensures
        node.blocks_arrived(metas).tasks.contains(
            Task::Import(node.pending[i].1[j].0, node.pending[i].1[j].1),
        ),
        !dict::has_key(node.blocks_arrived(metas).pending, metas[m].hash),
{
    let task = Task::Import(node.pending[i].1[j].0, node.pending[i].1[j].1);
    let hash = metas[m].hash;
    lemma_arrival_sound(node, metas);
    lemma_arrival_contains(node, metas, m);
    let arrival = node.arrival(metas);
    assert forall|k: int| 0 <= k < node.peers.len() implies arrival.node.has_peer((#[trigger] node.peers[k]).0) by {}
    lemma_introduced_sound(arrival.node, arrival.hashes, node.peers);
    let introduced = arrival.node.introduced(arrival.hashes, node.peers);
    assert(introduced.has_block(hash));
    lemma_released_contains(introduced.pending, introduced.blocks, i, j);
    let found = released(introduced.pending, introduced.blocks);
    let k = choose|k: int| 0 <= k < found.len() && found[k] == task;
    let end = node.blocks_arrived(metas);
    assert(end.tasks[introduced.tasks.len() + k] == task);
    let keep = missing_from(introduced.blocks);
    lists::lemma_filter_satisfies(introduced.pending, keep);
    if dict::has_key(end.pending, hash) {
        let at = dict::index_of_key(end.pending, hash);
        assert(end.pending[at].0 == hash);
        assert(keep(end.pending[at]));
    }
}

// Peers.

/// Choosing entries for a peer picks all that the topology demands, and changes nothing about them but
/// which peers were chosen at random.
pub proof fn lemma_selected(
    entries: Seq<Entry>,
    peer: PeerId,
    topology: Option<Outlook>,
    n_peers_total: nat,
    luck: Luck,
)
    ensures
        ({
            let selection = select_entries(entries, peer, topology, n_peers_total, luck);
            &&& selection.entries.len() == entries.len()
            &&& selection.picked.len() == entries.len()
            &&& forall|k: int|
                0 <= k < entries.len() ==> {
                    &&& (#[trigger] selection.entries[k]).assignment == entries[k].assignment
                    &&& selection.entries[k].approvals == entries[k].approvals
                    &&& selection.entries[k].routing == entries[k].routing
                    &&& selection.entries[k].local == entries[k].local
                    &&& routed(topology, entries[k].routing, peer) ==> selection.picked[k]
                }
        }),
    decreases entries.len(),
{
    if entries.len() > 0 {
        lemma_selected(entries.drop_last(), peer, topology, n_peers_total, luck);
    }
}

/// A peer that becomes aware of a block gets all messages about it that the topology demands.
pub proof fn greeting_brings_what_is_owed(
    block: Block,
    peer: PeerId,
    topology: Option<Outlook>,
    n_peers_total: nat,
    luck: Luck,
    k: int,
)
    requires
        dict::keys_unique(block.known_by),
        !block.aware(peer),
        0 <= k < block.entries.len(),
        routed(topology, block.entries[k].routing, peer),
    ensures
        ({
            let next = block.greeted(peer, topology, n_peers_total, luck).block;
            &&& next.aware(peer)
            &&& has_entry(next.memory(peer), block.entries[k])
        }),
{
    let selection = select_entries(block.entries, peer, topology, n_peers_total, luck);
    lemma_selected(block.entries, peer, topology, n_peers_total, luck);
    lemma_entries_offered(PeerMemory::blank(), selection.entries, selection.picked);
    let next = block.greeted(peer, topology, n_peers_total, luck).block;
    let memory = next.known_by.last().1;
    dict::lemma_dict_push(block.known_by, peer, memory);
    assert(next.known_by =~= block.known_by.push((peer, memory)));
    assert(next.known_by[block.known_by.len() as int].0 == peer);
    dict::lemma_dict_at(next.known_by, block.known_by.len() as int);
    assert(has_entry(memory, selection.entries[k]));
    assert forall|j: int| 0 <= j < block.entries[k].approvals.len() implies #[trigger] memory.has(
        approval_subject(block.entries[k].approvals[j]),
        MessageKind::Approval,
    ) by {
        assert(memory.has(approval_subject(selection.entries[k].approvals[j]), MessageKind::Approval));
    }
}

/// A walk along the chain makes nobody lose sight of a block.
pub proof fn lemma_walked_aware(tour: Tour, peer: PeerId, finalized_number: BlockNumber, from: BlockHash, i: int)
    requires
        0 <= i < tour.node.blocks.len(),
        tour.node.blocks[i].1.aware(peer),
    ensures
        ({
            let end = tour.walked(peer, finalized_number, from).node;
            i < end.blocks.len() && end.blocks[i].1.aware(peer) && end.blocks[i].1.number
                == tour.node.blocks[i].1.number
        }),
    decreases unaware(tour.node.blocks, peer),
{
    if !tour.ends_at(peer, finalized_number, from) {
        tour.lemma_greeted(peer, finalized_number, from);
        lemma_walked_aware(
            tour.greeted(peer, from),
            peer,
            finalized_number,
            tour.node.block(from).parent_hash,
            i,
        );
    }
}

/// A walk that starts at a block makes the peer aware of it, if it is known and not final for the peer.
pub proof fn walks_make_the_peer_aware(tour: Tour, peer: PeerId, finalized_number: BlockNumber, from: BlockHash)
    requires
        dict::keys_unique(tour.node.blocks),
        tour.node.has_block(from),
        tour.node.block(from).number > finalized_number,
    ensures
        tour.walked(peer, finalized_number, from).node.has_block(from),
        tour.walked(peer, finalized_number, from).node.block(from).aware(peer),
{
    let i = dict::index_of_key(tour.node.blocks, from);
    assert(tour.node.blocks[i].0 == from);
    tour.lemma_walked_frame(peer, finalized_number, from);
    let end = tour.walked(peer, finalized_number, from).node;
    if tour.ends_at(peer, finalized_number, from) {
        lemma_walked_aware(tour, peer, finalized_number, from, i);
    } else {
        let next = tour.greeted(peer, from);
        let known_by = next.node.blocks[i].1.known_by;
        assert(known_by[known_by.len() - 1].0 == peer);
        tour.lemma_greeted(peer, finalized_number, from);
        lemma_walked_aware(next, peer, finalized_number, tour.node.block(from).parent_hash, i);
    }
    assert(tour.node.blocks[i].0 == end.blocks[i].0);
    lemma_same_index(tour.node.blocks, end.blocks, i);
}

/// Lists about the same blocks have them at the same places.
proof fn lemma_same_index(a: Seq<(BlockHash, Block)>, b: Seq<(BlockHash, Block)>, i: int)
    requires
        dict::keys_unique(a),
        same_hashes(a, b),
        0 <= i < a.len(),
    ensures
        dict::keys_unique(b),
        dict::has_key(b, a[i].0),
        dict::index_of_key(b, a[i].0) == i,
{
    assert forall|k: int, j: int| 0 <= k < j < b.len() implies #[trigger] b[k].0 != #[trigger] b[j].0 by {
        assert(a[k].0 == b[k].0);
        assert(a[j].0 == b[j].0);
        assert(a[k].0 != a[j].0);
    }
    assert(a[i].0 == b[i].0);
    dict::lemma_dict_at(b, i);
}

/// Walks from several heads make the peer aware of each of them.
pub proof fn lemma_tours_make_the_peer_aware(
    tour: Tour,
    peer: PeerId,
    finalized_number: BlockNumber,
    heads: Seq<BlockHash>,
    h: int,
    i: int,
)
    requires
        dict::keys_unique(tour.node.blocks),
        0 <= h < heads.len(),
        0 <= i < tour.node.blocks.len(),
        tour.node.blocks[i].0 == heads[h],
        tour.node.blocks[i].1.number > finalized_number,
    ensures
        ({
            let end = tour.toured(peer, finalized_number, heads).node;
            i < end.blocks.len() && end.blocks[i].1.aware(peer)
        }),
    decreases heads.len(),
{
    let short = heads.drop_last();
    let rest = tour.toured(peer, finalized_number, short);
    tour.lemma_toured_frame(peer, finalized_number, short);
    assert(tour.node.blocks[i].0 == rest.node.blocks[i].0);
    lemma_same_index(tour.node.blocks, rest.node.blocks, i);
    if h == heads.len() - 1 {
        lemma_toured_numbers(tour, peer, finalized_number, short, i);
        walks_make_the_peer_aware(rest, peer, finalized_number, heads.last());
        rest.lemma_walked_frame(peer, finalized_number, heads.last());
        let end = rest.walked(peer, finalized_number, heads.last()).node;
        assert(rest.node.blocks[i].0 == end.blocks[i].0);
        lemma_same_index(rest.node.blocks, end.blocks, i);
    } else {
        lemma_tours_make_the_peer_aware(tour, peer, finalized_number, short, h, i);
        lemma_walked_aware(rest, peer, finalized_number, heads.last(), i);
    }
}

/// Walks leave the numbers of blocks alone.
proof fn lemma_walked_numbers(tour: Tour, peer: PeerId, finalized_number: BlockNumber, from: BlockHash, i: int)
    requires
        0 <= i < tour.node.blocks.len(),
    ensures
        ({
            let end = tour.walked(peer, finalized_number, from).node;
            i < end.blocks.len() && end.blocks[i].1.number == tour.node.blocks[i].1.number
        }),
    decreases unaware(tour.node.blocks, peer),
{
    if !tour.ends_at(peer, finalized_number, from) {
        tour.lemma_greeted(peer, finalized_number, from);
        lemma_walked_numbers(
            tour.greeted(peer, from),
            peer,
            finalized_number,
            tour.node.block(from).parent_hash,
            i,
        );
    }
}

proof fn lemma_toured_numbers(
    tour: Tour,
    peer: PeerId,
    finalized_number: BlockNumber,
    heads: Seq<BlockHash>,
    i: int,
)
    requires
        0 <= i < tour.node.blocks.len(),
    ensures
        ({
            let end = tour.toured(peer, finalized_number, heads).node;
            i < end.blocks.len() && end.blocks[i].1.number == tour.node.blocks[i].1.number
        }),
    decreases heads.len(),
{
    if heads.len() > 0 {
        lemma_toured_numbers(tour, peer, finalized_number, heads.drop_last(), i);
        lemma_walked_numbers(
            tour.toured(peer, finalized_number, heads.drop_last()),
            peer,
            finalized_number,
            heads.last(),
            i,
        );
    }
}

/// A peer whose view has changed is aware of every head in it that is known and not final for it.
pub proof fn peers_become_aware_of_their_heads(node: Node, peer: PeerId, view: Horizon, h: int)
    requires
        dict::keys_unique(node.blocks),
        node.has_peer(peer),
        0 <= h < view.heads.len(),
        node.has_block(view.heads[h]),
        node.block(view.heads[h]).number > view.finalized_number,
    ensures
        node.peer_view_changed(peer, view).has_block(view.heads[h]),
        node.peer_view_changed(peer, view).block(view.heads[h]).aware(peer),
{
    let hash = view.heads[h];
    let was = node.peer(peer);
    let i = dict::index_of_key(node.blocks, hash);
    assert(node.blocks[i].0 == hash);
    let seen = Node {
        peers: node.peers.update(dict::index_of_key(node.peers, peer), (peer, Acquaintance { view, ..was })),
        blocks: blocks_without(node.blocks, peer, was.view.finalized_number, view.finalized_number),
        ..node
    };
    assert forall|k: int| 0 <= k < node.blocks.len() implies #[trigger] node.blocks[k].0
        == #[trigger] seen.blocks[k].0 by {}
    lemma_same_index(node.blocks, seen.blocks, i);
    let tour = Tour { node: seen, assignments: Seq::empty(), votes: Seq::empty() };
    lemma_tours_make_the_peer_aware(tour, peer, view.finalized_number, view.heads, h, i);
    seen.lemma_unified_frame(peer, view);
    let end = node.peer_view_changed(peer, view);
    assert(seen.blocks[i].0 == end.blocks[i].0);
    lemma_same_index(seen.blocks, end.blocks, i);
}

/// Walks greet a peer only at blocks that are not final for it.
proof fn lemma_walked_unaware(tour: Tour, peer: PeerId, finalized_number: BlockNumber, from: BlockHash, i: int)
    requires
        0 <= i < tour.node.blocks.len(),
        !tour.node.blocks[i].1.aware(peer),
        tour.node.blocks[i].1.number <= finalized_number,
    ensures
        ({
            let end = tour.walked(peer, finalized_number, from).node;
            i < end.blocks.len() && !end.blocks[i].1.aware(peer) && end.blocks[i].1.number
                == tour.node.blocks[i].1.number
        }),
    decreases unaware(tour.node.blocks, peer),
{
    if !tour.ends_at(peer, finalized_number, from) {
        tour.lemma_greeted(peer, finalized_number, from);
        let next = tour.greeted(peer, from);
        assert(next.node.blocks[i] == tour.node.blocks[i]);
        lemma_walked_unaware(next, peer, finalized_number, tour.node.block(from).parent_hash, i);
    }
}

proof fn lemma_toured_unaware(
    tour: Tour,
    peer: PeerId,
    finalized_number: BlockNumber,
    heads: Seq<BlockHash>,
    i: int,
)
    requires
        0 <= i < tour.node.blocks.len(),
        !tour.node.blocks[i].1.aware(peer),
        tour.node.blocks[i].1.number <= finalized_number,
    ensures
        ({
            let end = tour.toured(peer, finalized_number, heads).node;
            i < end.blocks.len() && !end.blocks[i].1.aware(peer) && end.blocks[i].1.number
                == tour.node.blocks[i].1.number
        }),
    decreases heads.len(),
{
    if heads.len() > 0 {
        lemma_toured_unaware(tour, peer, finalized_number, heads.drop_last(), i);
        lemma_walked_unaware(
            tour.toured(peer, finalized_number, heads.drop_last()),
            peer,
            finalized_number,
            heads.last(),
            i,
        );
    }
}

/// A peer whose view has changed has lost sight of the blocks that have become final for it with the
/// change.
pub proof fn peers_lose_sight_of_final_blocks(node: Node, peer: PeerId, view: Horizon, i: int)
    requires
        node.has_peer(peer),
        0 <= i < node.blocks.len(),
        dict::keys_unique(node.blocks[i].1.known_by),
        node.peer(peer).view.finalized_number <= node.blocks[i].1.number <= view.finalized_number,
    ensures
        node.peer_view_changed(peer, view).blocks[i].0 == node.blocks[i].0,
        !node.peer_view_changed(peer, view).blocks[i].1.aware(peer),
{
    let was = node.peer(peer);
    let block = node.blocks[i].1;
    lemma_without_unaware(block, peer);
    let seen = Node {
        peers: node.peers.update(dict::index_of_key(node.peers, peer), (peer, Acquaintance { view, ..was })),
        blocks: blocks_without(node.blocks, peer, was.view.finalized_number, view.finalized_number),
        ..node
    };
    let tour = Tour { node: seen, assignments: Seq::empty(), votes: Seq::empty() };
    assert(seen.blocks[i] == (node.blocks[i].0, block.without(peer)));
    lemma_toured_unaware(tour, peer, view.finalized_number, view.heads, i);
    seen.lemma_unified_frame(peer, view);
    let end = node.peer_view_changed(peer, view);
    assert(seen.blocks[i].0 == end.blocks[i].0);
}

/// Changes of reputation that are not reported at once are kept, each added to the sum of its peer.
pub proof fn delayed_reports_are_summed(node: Node, peer: PeerId, reps: Seq<Rep>)
    requires
        !node.standing.immediate,
    ensures
        node.reported_all(peer, reps).standing.scores == scored_all(node.standing.scores, peer, reps),
        !node.reported_all(peer, reps).standing.immediate,
        node.reported_all(peer, reps).out == node.out,
    decreases reps.len(),
{
    if reps.len() > 0 {
        delayed_reports_are_summed(node, peer, reps.drop_last());
        assert(node.reported_all(peer, reps).out =~= node.out);
    }
}

/// Changes of reputation that are reported at once are reported one by one, in their order.
pub proof fn immediate_reports_are_sent_one_by_one(node: Node, peer: PeerId, reps: Seq<Rep>)
    requires
        node.standing.immediate,
    ensures
        node.reported_all(peer, reps).standing == node.standing,
        node.reported_all(peer, reps).out == node.out + reps.map_values(|rep: Rep| Effect::Report(peer, rep)),
    decreases reps.len(),
{
    let reports = reps.map_values(|rep: Rep| Effect::Report(peer, rep));
    if reps.len() > 0 {
        let short = reps.drop_last();
        immediate_reports_are_sent_one_by_one(node, peer, short);
        assert(node.reported_all(peer, reps).out =~= node.out + reports);
    } else {
        assert(node.out + reports =~= node.out);
    }
}

/// Whether a peer that is aware of a block is aware of its parent, too, as far as that is known and not
/// final for the peer; one block is left out of account.
pub open spec fn chains_closed_but(
    blocks: Seq<(BlockHash, Block)>,
    peer: PeerId,
    finalized_number: BlockNumber,
    but: Option<BlockHash>,
) -> bool {
    forall|i: int, j: int|
        0 <= i < blocks.len() && 0 <= j < blocks.len() && (#[trigger] blocks[i]).1.aware(peer) && (
        #[trigger] blocks[j]).0 == blocks[i].1.parent_hash && blocks[j].1.number > finalized_number && Some(
            blocks[j].0,
        ) != but ==> blocks[j].1.aware(peer)
}

/// Whether a peer that is aware of a block is aware of its parent, too, as far as that is known and not
/// final for the peer.
pub open spec fn chains_closed(blocks: Seq<(BlockHash, Block)>, peer: PeerId, finalized_number: BlockNumber) -> bool {
    chains_closed_but(blocks, peer, finalized_number, None)
}

/// A walk makes the peer aware of all ancestors of the block that it starts at.
proof fn lemma_walked_closed(tour: Tour, peer: PeerId, finalized_number: BlockNumber, from: BlockHash)
    requires
        dict::keys_unique(tour.node.blocks),
        chains_closed_but(tour.node.blocks, peer, finalized_number, Some(from)),
    ensures
        chains_closed(tour.walked(peer, finalized_number, from).node.blocks, peer, finalized_number),
    decreases unaware(tour.node.blocks, peer),
{
    let blocks = tour.node.blocks;
    if tour.ends_at(peer, finalized_number, from) {
        assert forall|i: int, j: int|
            0 <= i < blocks.len() && 0 <= j < blocks.len() && (#[trigger] blocks[i]).1.aware(peer) && (
            #[trigger] blocks[j]).0 == blocks[i].1.parent_hash && blocks[j].1.number > finalized_number implies
            blocks[j].1.aware(peer) by {
            if blocks[j].0 == from {
                dict::lemma_dict_at(blocks, j);
            }
        }
    } else {
        let at = dict::index_of_key(blocks, from);
        let next = tour.greeted(peer, from);
        let parent = tour.node.block(from).parent_hash;
        let now = next.node.blocks;
        assert(blocks[at].0 == from);
        dict::lemma_dict_update(blocks, at, now[at].1);
        assert(now =~= blocks.update(at, (blocks[at].0, now[at].1)));
        let known_by = now[at].1.known_by;
        assert(known_by[known_by.len() - 1].0 == peer);
        assert forall|i: int, j: int|
            0 <= i < now.len() && 0 <= j < now.len() && (#[trigger] now[i]).1.aware(peer) && (#[trigger] now[j]).0
                == now[i].1.parent_hash && now[j].1.number > finalized_number && Some(now[j].0) != Some(parent) implies
            now[j].1.aware(peer) by {
            if j != at && i != at {
                assert(now[i] == blocks[i]);
                assert(now[j] == blocks[j]);
                assert(blocks[j].0 != from) by {
                    if blocks[j].0 == from {
                        dict::lemma_dict_at(blocks, j);
                    }
                }
            }
        }
        tour.lemma_greeted(peer, finalized_number, from);
        lemma_walked_closed(next, peer, finalized_number, parent);
    }
}

proof fn lemma_toured_closed(tour: Tour, peer: PeerId, finalized_number: BlockNumber, heads: Seq<BlockHash>)
    requires
        dict::keys_unique(tour.node.blocks),
        chains_closed(tour.node.blocks, peer, finalized_number),
    ensures
        dict::keys_unique(tour.toured(peer, finalized_number, heads).node.blocks),
        chains_closed(tour.toured(peer, finalized_number, heads).node.blocks, peer, finalized_number),
    decreases heads.len(),
{
    if heads.len() > 0 {
        let short = heads.drop_last();
        lemma_toured_closed(tour, peer, finalized_number, short);
        let rest = tour.toured(peer, finalized_number, short);
        lemma_walked_closed(rest, peer, finalized_number, heads.last());
        rest.lemma_walked_frame(peer, finalized_number, heads.last());
        let end = rest.walked(peer, finalized_number, heads.last()).node.blocks;
        if end.len() > 0 {
            lemma_same_index(rest.node.blocks, end, 0);
        }
    }
}

/// A peer is brought up to date on whole chains: if it was aware of the parents of the blocks that it
/// was aware of, as far as they are known and not final for it, this still holds after its view has
/// changed, when it is aware of the new heads as well.
pub proof fn peers_become_aware_of_whole_chains(node: Node, peer: PeerId, view: Horizon)
    requires
        dict::keys_unique(node.blocks),
        forall|i: int| 0 <= i < node.blocks.len() ==> dict::keys_unique((#[trigger] node.blocks[i]).1.known_by),
        node.has_peer(peer),
        chains_closed(node.blocks, peer, view.finalized_number),
    ensures
        chains_closed(node.peer_view_changed(peer, view).blocks, peer, view.finalized_number),
{
    let was = node.peer(peer);
    let low = was.view.finalized_number;
    let high = view.finalized_number;
    let seen = Node {
        peers: node.peers.update(dict::index_of_key(node.peers, peer), (peer, Acquaintance { view, ..was })),
        blocks: blocks_without(node.blocks, peer, low, high),
        ..node
    };
    let now = seen.blocks;
    assert forall|i: int, j: int| 0 <= i < j < now.len() implies #[trigger] now[i].0 != #[trigger] now[j].0 by {
        assert(node.blocks[i].0 != node.blocks[j].0);
    }
    assert forall|i: int, j: int|
        0 <= i < now.len() && 0 <= j < now.len() && (#[trigger] now[i]).1.aware(peer) && (#[trigger] now[j]).0
            == now[i].1.parent_hash && now[j].1.number > high implies now[j].1.aware(peer) by {
        assert(now[j] == node.blocks[j]);
        assert(node.blocks[i].1.aware(peer)) by {
            if now[i] != node.blocks[i] {
                lemma_without_unaware(node.blocks[i].1, peer);
            }
        }
    }
    let tour = Tour { node: seen, assignments: Seq::empty(), votes: Seq::empty() };
    lemma_toured_closed(tour, peer, high, view.heads);
}

/// A peer that has lost sight of a block is not aware of it.
proof fn lemma_without_unaware(block: Block, peer: PeerId)
    requires
        dict::keys_unique(block.known_by),
    ensures
        !block.without(peer).aware(peer),
{
    if block.aware(peer) {
        let at = dict::index_of_key(block.known_by, peer);
        assert(block.known_by[at].0 == peer);
        dict::lemma_dict_remove(block.known_by, at);
        if block.without(peer).aware(peer) {
            assert(dict::dict(block.without(peer).known_by).contains_key(peer));
        }
    }
}

/// Changes that were kept for later are reported with the next tick: in one report, which names the peer
/// once with the sum of its changes and nobody else.  There is nothing left to report then.
pub proof fn kept_changes_are_reported_once(node: Node, peer: PeerId, reps: Seq<Rep>)
    requires
        !node.standing.immediate,
        node.standing.scores == Map::<PeerId, i32>::empty(),
        reps.len() > 0,
    ensures
        ({
            let told = node.reported_all(peer, reps).reputation_sent();
            &&& told.out == node.out.push(
                Effect::ReportAll { sums: scored_all(Map::empty(), peer, reps), once_each: true },
            )
            &&& told.reputation_sent() == told
        }),
{
    delayed_reports_are_summed(node, peer, reps);
    assert(scored_all(Map::empty(), peer, reps).contains_key(peer));
    assert(!Map::<PeerId, i32>::empty().contains_key(peer));
}

/// With the tick all sums that have been kept are reported together, and none is kept any longer; where none was kept,
/// nothing is reported.
pub proof fn sums_are_reported_with_the_tick(node: Node, peer: PeerId)
    ensures
        ({
            let next = node.reputation_sent();
            &&& next == (Node { standing: next.standing, out: next.out, ..node })
            &&& next.standing.immediate == node.standing.immediate
            &&& !next.standing.scores.contains_key(peer)
            &&& node.standing.scores.contains_key(peer) ==> next.out == node.out.push(
                Effect::ReportAll { sums: node.standing.scores, once_each: true },
            )
            &&& (forall|p: PeerId| !node.standing.scores.contains_key(p)) ==> next.out == node.out
        }),
{
    if forall|p: PeerId| !node.standing.scores.contains_key(p) {
        assert(node.standing.scores =~= Map::<PeerId, i32>::empty());
    }
    if node.standing.scores.contains_key(peer) {
        assert(node.standing.scores != Map::<PeerId, i32>::empty());
    }
}

/// Nothing is sent to nobody.
proof fn lemma_sent_to_nobody(node: Node, assignments: Seq<Assignment>, receivers: Seq<PeerId>)
    requires
        receivers.len() == 0,
    ensures
        node.assignments_sent(assignments, receivers) == node,
{
    assert(node.assignments_sent(assignments, receivers).out =~= node.out);
}

/// What comes of a valid assignment from a peer that cannot see the block, when changes of reputation are
/// kept for later and nobody is there to pass it on to: its check is asked for and nothing else, not even
/// when it has been accepted; the next tick brings one report with the sum of both changes of the peer's
/// reputation; and the tick after that brings nothing.
pub proof fn out_of_view_assignments_are_reported_with_the_tick(
    node: Node,
    peer: PeerId,
    message: Versioned,
    assignment: Assignment,
)
    requires
        !node.standing.immediate,
        node.standing.scores == Map::<PeerId, i32>::empty(),
        node.awaiting is None,
        node.tasks.len() == 0,
        dict::keys_unique(node.blocks),
        node.has_block(assignment.cert.block_hash),
        !dict::has_key(node.pending, assignment.cert.block_hash),
        node.block(assignment.cert.block_hash).known_by.len() == 0,
        !has_message(
            node.block(assignment.cert.block_hash).knowledge,
            PendingMessage::Assignment(assignment),
        ),
        unpacked(message@) == seq![PendingMessage::Assignment(assignment)],
        unpacking_costs(message@).len() == 0,
    ensures
        ({
            let asked = node.handled(Event::PeerMessage(peer, message));
            let judged = asked.assignment_checked(AssignmentCheckResult::Accepted);
            let told = judged.handled(Event::ReputationTick);
            &&& asked.awaiting == Some((peer, PendingMessage::Assignment(assignment)))
            &&& asked.out == node.out.push(Effect::CheckAssignment(assignment))
            &&& judged.awaiting is None
            &&& judged.out == asked.out
            &&& told.out == judged.out.push(
                Effect::ReportAll {
                    sums: scored_all(
                        Map::empty(),
                        peer,
                        seq![COST_UNEXPECTED_MESSAGE, BENEFIT_VALID_MESSAGE_FIRST],
                    ),
                    once_each: true,
                },
            )
            &&& told.handled(Event::ReputationTick).out == told.out
        }),
{
    reveal_with_fuel(Node::advanced, 3);
    reveal_with_fuel(Node::messages_stored, 3);
    reveal_with_fuel(Node::reported_all, 3);
    reveal_with_fuel(scored_all, 3);
    let hash = assignment.cert.block_hash;
    let subject = assignment_subject(assignment);
    let kind = MessageKind::Assignment;
    let pending = PendingMessage::Assignment(assignment);
    let task = Task::Import(peer, pending);
    let block = node.block(hash);
    let costs: Seq<Rep> = seq![COST_UNEXPECTED_MESSAGE];
    // the message comes in
    let list = seq![pending];
    assert(list.drop_last() =~= Seq::empty());
    let stored = node.digested(Event::PeerMessage(peer, message));
    assert(stored.tasks =~= seq![task]);
    let start = Node { tasks: Seq::empty(), ..stored };
    assert(start == (Node { tasks: Seq::empty(), ..node }));
    assert(seq![task].drop_first() =~= Seq::empty());
    assert(costs.drop_last() =~= Seq::empty());
    let screening = block.screened(peer, subject, kind);
    assert(screening.reports =~= costs);
    assert(screening.block == block);
    lemma_with_block(start, hash, block);
    let asked = node.handled(Event::PeerMessage(peer, message));
    let scores = scored(Map::empty(), peer, COST_UNEXPECTED_MESSAGE);
    let seen = start.with_block(hash, block);
    delayed_reports_are_summed(seen, peer, costs);
    assert(asked.awaiting == Some((peer, pending)));
    assert(asked.out =~= node.out.push(Effect::CheckAssignment(assignment)));
    assert(asked.tasks =~= Seq::empty());
    assert(asked.blocks == seen.blocks);
    assert(asked.standing.scores == scores);
    // it is accepted
    let idle = Node { awaiting: None, ..asked };
    let rewarded = idle.reported(peer, BENEFIT_VALID_MESSAGE_FIRST);
    assert(idle.block(hash) == block);
    let known = block.after_learned(subject, kind).after_received(peer, subject, kind);
    assert(known == block.after_learned(subject, kind));
    lemma_with_block(rewarded, hash, known);
    let next = rewarded.with_block(hash, known);
    let topology = next.topology_of(known.session);
    let passed = known.circulated_assignment(Some(peer), assignment, topology, next.peers.len(), next.luck);
    assert(known.peers().len() == 0);
    assert(passed.receivers.len() == 0) by {
        reveal(Seq::filter);
    }
    let ready = Node { luck: passed.luck, ..next.with_block(hash, passed.block) };
    lemma_sent_to_nobody(ready, seq![assignment], passed.receivers);
    let judged = asked.assignment_checked(AssignmentCheckResult::Accepted);
    assert(judged == (Node { tasks: Seq::empty(), ..ready }));
    assert(judged.out =~= asked.out);
    // the ticks
    let both: Seq<Rep> = seq![COST_UNEXPECTED_MESSAGE, BENEFIT_VALID_MESSAGE_FIRST];
    assert(both.drop_last() =~= costs);
    assert(judged.standing.scores == scored_all(Map::empty(), peer, both));
    assert(judged.standing.scores.contains_key(peer));
    assert(!Map::<PeerId, i32>::empty().contains_key(peer));
}

} // verus!
