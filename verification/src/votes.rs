//! That votes are noted only under assignments of their own validator.
use crate::aggression::{newest, oldest, reached};
use crate::awareness::{new_blocks_are_introduced, peers_become_aware_of_nothing_else};
use crate::block::{Block, Entry};
use crate::chain::{above, among, BlockApprovalMeta};
use crate::dict;
use crate::history::announced_blocks_become_known;
use crate::import::{ApprovalCheckResult, AssignmentCheckResult};
use crate::knowledge::{approval_subject, assignment_subject, MessageKind};
use crate::lag::lemma_reformed_at;
use crate::lists;
use crate::messages::{Assignment, IndirectSignedApprovalVoteV2};
use crate::peers::blocks_without;
use crate::primitives::{BlockHash, BlockNumber, PeerId};
use crate::propagation::{Reform, Scope};
use crate::reputation::Rep;
use crate::routes::{passed_assignments_are_noted, passed_votes_are_noted, share_a_candidate};
use crate::state::{Acquaintance, Horizon, Node, PendingMessage, Task};
use crate::subsystem::{unpacked, unpacking_costs, Event};
use vstd::prelude::*;

verus! {

/// Whether all votes under an assignment are of the validator that is assigned, and each about a candidate that it is
/// assigned to.
pub open spec fn is_followed_by_its_votes(entry: Entry) -> bool {
    forall|j: int|
        0 <= j < entry.approvals.len() ==> (#[trigger] entry.approvals[j]).validator == entry.assignment.cert.validator
            && share_a_candidate(entry, entry.approvals[j])
}

/// Whether that holds of all assignments about a block.
pub open spec fn votes_fit(block: Block) -> bool {
    forall|k: int| 0 <= k < block.entries.len() ==> is_followed_by_its_votes(#[trigger] block.entries[k])
}

/// Whether it holds of all assignments about some blocks.
pub open spec fn all_votes_fit(blocks: Seq<(BlockHash, Block)>) -> bool {
    forall|i: int| 0 <= i < blocks.len() ==> votes_fit((#[trigger] blocks[i]).1)
}

/// Whether entries are for the same assignments with the same votes as others.
spec fn same_votes(was: Seq<Entry>, now: Seq<Entry>) -> bool {
    &&& now.len() == was.len()
    &&& forall|k: int|
        0 <= k < was.len() ==> (#[trigger] now[k]).assignment == was[k].assignment && now[k].approvals
            == was[k].approvals
}

proof fn lemma_same_votes(was: Block, now: Block)
    requires
        votes_fit(was),
        same_votes(was.entries, now.entries),
    ensures
        votes_fit(now),
{
    assert forall|k: int| 0 <= k < now.entries.len() implies is_followed_by_its_votes(#[trigger] now.entries[k]) by {
        let old_entry = was.entries[k];
        let entry = now.entries[k];
        assert(is_followed_by_its_votes(old_entry));
        assert forall|j: int| 0 <= j < entry.approvals.len() implies (#[trigger] entry.approvals[j]).validator
            == entry.assignment.cert.validator && share_a_candidate(entry, entry.approvals[j]) by {
            assert(share_a_candidate(old_entry, old_entry.approvals[j]));
            let c = choose|c: int| #[trigger]
                old_entry.assignment.candidates.has(c) && old_entry.approvals[j].candidate_indices.has(c);
            assert(entry.assignment.candidates.has(c));
        }
    }
}

proof fn lemma_same_votes_everywhere(was: Seq<(BlockHash, Block)>, now: Seq<(BlockHash, Block)>)
    requires
        all_votes_fit(was),
        now.len() == was.len(),
        forall|i: int| 0 <= i < was.len() ==> same_votes((#[trigger] was[i]).1.entries, now[i].1.entries),
    ensures
        all_votes_fit(now),
{
    assert forall|i: int| 0 <= i < now.len() implies votes_fit((#[trigger] now[i]).1) by {
        assert(same_votes(was[i].1.entries, now[i].1.entries));
        lemma_same_votes(was[i].1, now[i].1);
    }
}

proof fn lemma_with_block_fits(node: Node, hash: BlockHash, block: Block)
    requires
        all_votes_fit(node.blocks),
        node.has_block(hash),
        votes_fit(block),
    ensures
        all_votes_fit(node.with_block(hash, block).blocks),
{
    let b = dict::index_of_key(node.blocks, hash);
    assert(node.blocks[b].0 == hash);
    let next = node.with_block(hash, block);
    assert forall|i: int| 0 <= i < next.blocks.len() implies votes_fit((#[trigger] next.blocks[i]).1) by {
        if i != b {
            assert(next.blocks[i] == node.blocks[i]);
        }
    }
}

proof fn lemma_block_fits(node: Node, hash: BlockHash)
    requires
        all_votes_fit(node.blocks),
        node.has_block(hash),
    ensures
        votes_fit(node.block(hash)),
{
    let b = dict::index_of_key(node.blocks, hash);
    assert(node.blocks[b].0 == hash);
}

proof fn lemma_reformed_fits(node: Node, scope: Scope, reform: Reform)
    requires
        all_votes_fit(node.blocks),
    ensures
        all_votes_fit(node.reformed(scope, reform).blocks),
{
    let end = node.reformed(scope, reform);
    assert(end.blocks.len() == node.blocks.len()) by {
        let changed = Node { blocks: node.blocks.map_values(reform.block_change(scope)), ..node };
        changed.lemma_propagated_at(scope);
    }
    assert forall|i: int| 0 <= i < node.blocks.len() implies same_votes(
        (#[trigger] node.blocks[i]).1.entries,
        end.blocks[i].1.entries,
    ) by {
        lemma_reformed_at(node, scope, reform, i);
    }
    lemma_same_votes_everywhere(node.blocks, end.blocks);
}

proof fn lemma_aggression_fits(node: Node, resend: bool)
    requires
        all_votes_fit(node.blocks),
    ensures
        all_votes_fit(node.aggression_enabled(resend).blocks),
{
    let first = if resend {
        node.resent()
    } else {
        node
    };
    if let Some(period) = node.config.resend_unfinalized_period {
        lemma_reformed_fits(node, Scope::Aged { newest: newest(node.blocks), period }, Reform::Resend);
    }
    lemma_reformed_fits(
        first,
        Scope::Number(oldest(first.blocks)),
        Reform::Escalate {
            own_to_all: reached(first.config.l1_threshold, first.lag),
            others_to_grid: reached(first.config.l2_threshold, first.lag),
        },
    );
}

proof fn lemma_unified_fits(node: Node, peer: PeerId, view: Horizon)
    requires
        all_votes_fit(node.blocks),
    ensures
        all_votes_fit(node.unified(peer, view).blocks),
{
    let next = node.unified(peer, view);
    node.lemma_unified_frame(peer, view);
    assert forall|i: int| 0 <= i < node.blocks.len() implies same_votes(
        (#[trigger] node.blocks[i]).1.entries,
        next.blocks[i].1.entries,
    ) by {
        peers_become_aware_of_nothing_else(node, peer, view, i);
        assert(next.blocks[i].0 == node.blocks[i].0);
    }
    lemma_same_votes_everywhere(node.blocks, next.blocks);
}

proof fn lemma_arrived_fits(node: Node, metas: Seq<BlockApprovalMeta>)
    requires
        all_votes_fit(node.blocks),
    ensures
        all_votes_fit(node.blocks_arrived(metas).blocks),
{
    let first = node.arrival(metas).node;
    let next = node.blocks_arrived(metas);
    assert forall|i: int| 0 <= i < next.blocks.len() implies votes_fit((#[trigger] next.blocks[i]).1) by {
        announced_blocks_become_known(node, metas, i, 0);
        lemma_arrived_len(node, metas);
        new_blocks_are_introduced(node, metas, i, PeerId(0));
        if i < node.blocks.len() {
            assert(first.blocks.take(node.blocks.len() as int)[i] == first.blocks[i]);
            assert(first.blocks[i] == node.blocks[i]);
        }
        assert(votes_fit(first.blocks[i].1));
        lemma_same_votes(first.blocks[i].1, next.blocks[i].1);
    }
}

proof fn lemma_arrived_len(node: Node, metas: Seq<BlockApprovalMeta>)
    ensures
        node.blocks_arrived(metas).blocks.len() == node.arrival(metas).node.blocks.len(),
{
    let arrival = node.arrival(metas);
    lemma_introduced_len(arrival.node, arrival.hashes, node.peers);
}

proof fn lemma_introduced_len(node: Node, hashes: Seq<BlockHash>, peers: Seq<(PeerId, Acquaintance)>)
    ensures
        node.introduced(hashes, peers).blocks.len() == node.blocks.len(),
    decreases peers.len(),
{
    if peers.len() > 0 {
        lemma_introduced_len(node, hashes, peers.drop_last());
        let rest = node.introduced(hashes, peers.drop_last());
        let (peer, known) = peers.last();
        rest.lemma_unified_frame(
            peer,
            Horizon { heads: known.view.heads.filter(among(hashes)), ..known.view },
        );
    }
}

proof fn lemma_without_fits(node: Node, peer: PeerId, from: BlockNumber, upto: BlockNumber)
    requires
        all_votes_fit(node.blocks),
    ensures
        all_votes_fit(blocks_without(node.blocks, peer, from, upto)),
{
    lemma_same_votes_everywhere(node.blocks, blocks_without(node.blocks, peer, from, upto));
}

proof fn lemma_pruned_fits(node: Node, number: BlockNumber)
    requires
        all_votes_fit(node.blocks),
    ensures
        all_votes_fit(node.pruned(number).blocks),
{
    let left = node.pruned(number).blocks;
    lists::lemma_filter_satisfies(node.blocks, above(number));
    assert forall|i: int| 0 <= i < left.len() implies votes_fit((#[trigger] left[i]).1) by {
        assert(node.blocks.contains(left[i]));
        let b = choose|b: int| 0 <= b < node.blocks.len() && node.blocks[b] == left[i];
        assert(votes_fit(node.blocks[b].1));
    }
}

proof fn lemma_assignment_circulated_fits(node: Node, source: Option<PeerId>, assignment: Assignment)
    requires
        all_votes_fit(node.blocks),
        node.has_block(assignment.cert.block_hash),
    ensures
        all_votes_fit(node.assignment_circulated(source, assignment).blocks),
{
    let hash = assignment.cert.block_hash;
    let block = node.block(hash);
    lemma_block_fits(node, hash);
    let topology = node.topology_of(block.session);
    let next = block.circulated_assignment(source, assignment, topology, node.peers.len(), node.luck).block;
    passed_assignments_are_noted(block, source, assignment, topology, node.peers.len(), node.luck, 0);
    assert forall|k: int| 0 <= k < next.entries.len() implies is_followed_by_its_votes(#[trigger] next.entries[k]) by {
        if k < block.entries.len() {
            assert(next.entries[k] == next.entries.drop_last()[k]);
            assert(is_followed_by_its_votes(block.entries[k]));
        }
    }
    lemma_with_block_fits(node, hash, next);
}

proof fn lemma_approval_circulated_fits(node: Node, source: Option<PeerId>, vote: IndirectSignedApprovalVoteV2)
    requires
        all_votes_fit(node.blocks),
        node.has_block(vote.block_hash),
    ensures
        all_votes_fit(node.approval_circulated(source, vote).blocks),
{
    let hash = vote.block_hash;
    let block = node.block(hash);
    lemma_block_fits(node, hash);
    let topology = node.topology_of(block.session);
    let next = block.circulated_approval(source, vote, topology).0;
    assert forall|k: int| 0 <= k < next.entries.len() implies is_followed_by_its_votes(#[trigger] next.entries[k]) by {
        passed_votes_are_noted(block, source, vote, topology, k, 0);
        let was = block.entries[k];
        let now = next.entries[k];
        assert(is_followed_by_its_votes(was));
        assert forall|j: int| 0 <= j < now.approvals.len() implies (#[trigger] now.approvals[j]).validator
            == now.assignment.cert.validator && share_a_candidate(now, now.approvals[j]) by {
            let noted = if j < was.approvals.len() {
                was.approvals[j]
            } else {
                vote
            };
            assert(now.approvals[j] == noted);
            assert(share_a_candidate(was, noted));
            let c = choose|c: int| #[trigger] was.assignment.candidates.has(c) && noted.candidate_indices.has(c);
            assert(now.assignment.candidates.has(c));
        }
    }
    lemma_with_block_fits(node, hash, next);
}

proof fn lemma_reported_all_blocks(node: Node, peer: PeerId, reps: Seq<Rep>)
    ensures
        node.reported_all(peer, reps).blocks == node.blocks,
    decreases reps.len(),
{
    if reps.len() > 0 {
        lemma_reported_all_blocks(node, peer, reps.drop_last());
    }
}

proof fn lemma_stored_blocks(node: Node, peer: PeerId, list: Seq<PendingMessage>)
    ensures
        node.messages_stored(peer, list).blocks == node.blocks,
    decreases list.len(),
{
    if list.len() > 0 {
        lemma_stored_blocks(node, peer, list.drop_last());
    }
}

proof fn lemma_awaited_blocks(node: Node, heads: Seq<BlockHash>)
    ensures
        node.heads_awaited(heads).blocks == node.blocks,
    decreases heads.len(),
{
    if heads.len() > 0 {
        lemma_awaited_blocks(node, heads.drop_last());
    }
}

proof fn lemma_performed_fits(node: Node, task: Task)
    requires
        all_votes_fit(node.blocks),
    ensures
        all_votes_fit(node.performed(task).blocks),
{
    match task {
        Task::Import(peer, PendingMessage::Assignment(assignment)) => {
            let hash = assignment.cert.block_hash;
            if node.has_block(hash) {
                let block = node.block(hash);
                let screening = block.screened(peer, assignment_subject(assignment), MessageKind::Assignment);
                lemma_block_fits(node, hash);
                lemma_same_votes(block, screening.block);
                lemma_with_block_fits(node, hash, screening.block);
                lemma_reported_all_blocks(node.with_block(hash, screening.block), peer, screening.reports);
            }
        },
        Task::Import(peer, PendingMessage::Approval(vote)) => {
            let hash = vote.block_hash;
            if node.has_block(hash) {
                let block = node.block(hash);
                let screening = block.screened(peer, approval_subject(vote), MessageKind::Approval);
                lemma_block_fits(node, hash);
                lemma_same_votes(block, screening.block);
                lemma_with_block_fits(node, hash, screening.block);
                lemma_reported_all_blocks(node.with_block(hash, screening.block), peer, screening.reports);
            }
        },
        Task::EnableAggression => {
            lemma_aggression_fits(node, true);
        },
    }
}

proof fn lemma_advanced_fits(node: Node, tasks: Seq<Task>)
    requires
        all_votes_fit(node.blocks),
    ensures
        all_votes_fit(node.advanced(tasks).blocks),
    decreases tasks.len(),
{
    if tasks.len() > 0 && node.awaiting is None {
        lemma_performed_fits(node, tasks[0]);
        lemma_advanced_fits(node.performed(tasks[0]), tasks.drop_first());
    }
}

/// Votes are noted only under assignments of their own validator that they have a candidate in common with: a node that
/// knows no blocks has no others, and every event keeps it so.
pub proof fn events_keep_votes_with_their_validator(node: Node, event: Event)
    requires
        all_votes_fit(node.blocks),
    ensures
        all_votes_fit(node.handled(event).blocks),
{
    match event {
        Event::PeerConnected(peer, version) => {},
        Event::PeerDisconnected(peer) => {
            lemma_without_fits(node, peer, 0, BlockNumber::MAX);
        },
        Event::PeerViewChange(peer, view) => {
            if node.has_peer(peer) {
                let was = node.peer(peer);
                lemma_without_fits(node, peer, was.view.finalized_number, view@.finalized_number);
                let seen = Node {
                    peers: node.peers.update(
                        dict::index_of_key(node.peers, peer),
                        (peer, Acquaintance { view: view@, ..was }),
                    ),
                    blocks: blocks_without(node.blocks, peer, was.view.finalized_number, view@.finalized_number),
                    ..node
                };
                lemma_unified_fits(seen, peer, view@);
            }
        },
        Event::OurViewChange(view) => {
            lemma_awaited_blocks(node, view@.heads);
        },
        Event::NewGossipTopology(new) => {
            if let Some(validator) = new.local_index {
                let seen = if dict::has_key(node.topologies, new.session) {
                    node
                } else {
                    Node {
                        topologies: node.topologies.push((new.session, new.topology@.seen_by(validator))),
                        ..node
                    }
                };
                let grid = seen.topologies[dict::index_of_key(seen.topologies, new.session)].1.grid;
                lemma_reformed_fits(seen, Scope::Session(new.session), Reform::Resolve(grid));
            }
        },
        Event::PeerMessage(peer, message) => {
            lemma_reported_all_blocks(node, peer, unpacking_costs(message@));
            lemma_stored_blocks(
                node.reported_all(peer, unpacking_costs(message@)),
                peer,
                unpacked(message@),
            );
        },
        Event::NewBlocks(metas) => {
            lemma_arrived_fits(node, metas@);
        },
        Event::DistributeAssignment(assignment) => {
            let hash = assignment.cert.block_hash;
            if node.has_block(hash) {
                let noted = node.block(hash).after_learned(assignment_subject(assignment), MessageKind::Assignment);
                lemma_block_fits(node, hash);
                lemma_same_votes(node.block(hash), noted);
                lemma_with_block_fits(node, hash, noted);
                lemma_still_known(node, hash, noted);
                lemma_assignment_circulated_fits(node.with_block(hash, noted), None, assignment);
            }
        },
        Event::DistributeApproval(vote) => {
            let hash = vote.block_hash;
            if node.has_block(hash) {
                let noted = node.block(hash).after_learned(approval_subject(vote), MessageKind::Approval);
                lemma_block_fits(node, hash);
                lemma_same_votes(node.block(hash), noted);
                lemma_with_block_fits(node, hash, noted);
                lemma_still_known(node, hash, noted);
                lemma_approval_circulated_fits(node.with_block(hash, noted), None, vote);
            }
        },
        Event::ApprovalCheckingLagUpdate(lag) => {},
        Event::BlockFinalized(number) => {
            lemma_pruned_fits(node, number);
            lemma_aggression_fits(node.pruned(number), false);
        },
        Event::ReputationTick => {},
    }
    let next = node.digested(event);
    lemma_advanced_fits(Node { tasks: Seq::empty(), ..next }, next.tasks);
}

proof fn lemma_still_known(node: Node, hash: BlockHash, block: Block)
    requires
        node.has_block(hash),
    ensures
        node.with_block(hash, block).has_block(hash),
{
    let b = dict::index_of_key(node.blocks, hash);
    assert(node.blocks[b].0 == hash);
    assert(node.with_block(hash, block).blocks[b].0 == hash);
}

proof fn lemma_assignment_judged_fits(
    node: Node,
    peer: PeerId,
    assignment: Assignment,
    result: AssignmentCheckResult,
)
    requires
        all_votes_fit(node.blocks),
    ensures
        all_votes_fit(node.assignment_judged(peer, assignment, result).blocks),
{
    let told = node.reported(peer, Rep::ValidMessageFirst);
    let hash = assignment.cert.block_hash;
    if node.has_block(hash) {
        let subject = assignment_subject(assignment);
        let received = node.block(hash).after_received(peer, subject, MessageKind::Assignment);
        let noted = node.block(hash).after_learned(subject, MessageKind::Assignment).after_received(
            peer,
            subject,
            MessageKind::Assignment,
        );
        lemma_block_fits(node, hash);
        lemma_same_votes(node.block(hash), received);
        lemma_with_block_fits(node, hash, received);
        lemma_same_votes(node.block(hash), noted);
        lemma_with_block_fits(told, hash, noted);
        lemma_still_known(told, hash, noted);
        lemma_assignment_circulated_fits(told.with_block(hash, noted), Some(peer), assignment);
    }
}

proof fn lemma_approval_judged_fits(
    node: Node,
    peer: PeerId,
    vote: IndirectSignedApprovalVoteV2,
    result: ApprovalCheckResult,
)
    requires
        all_votes_fit(node.blocks),
    ensures
        all_votes_fit(node.approval_judged(peer, vote, result).blocks),
{
    let told = node.reported(peer, Rep::ValidMessageFirst);
    let hash = vote.block_hash;
    if node.has_block(hash) {
        let subject = approval_subject(vote);
        let noted = node.block(hash).after_learned(subject, MessageKind::Approval).after_received(
            peer,
            subject,
            MessageKind::Approval,
        );
        lemma_block_fits(node, hash);
        lemma_same_votes(node.block(hash), noted);
        lemma_with_block_fits(told, hash, noted);
        lemma_still_known(told, hash, noted);
        lemma_approval_circulated_fits(told.with_block(hash, noted), Some(peer), vote);
    }
}

/// Every answer of a check keeps it so, too.
pub proof fn checks_keep_votes_with_their_validator(
    node: Node,
    assignment_result: AssignmentCheckResult,
    vote_result: ApprovalCheckResult,
)
    requires
        all_votes_fit(node.blocks),
    ensures
        all_votes_fit(node.assignment_checked(assignment_result).blocks),
        all_votes_fit(node.approval_checked(vote_result).blocks),
{
    let free = Node { awaiting: None, ..node };
    match node.awaiting {
        Some((peer, PendingMessage::Assignment(assignment))) => {
            lemma_assignment_judged_fits(free, peer, assignment, assignment_result);
            let next = free.assignment_judged(peer, assignment, assignment_result);
            lemma_advanced_fits(Node { tasks: Seq::empty(), ..next }, next.tasks);
        },
        Some((peer, PendingMessage::Approval(vote))) => {
            lemma_approval_judged_fits(free, peer, vote, vote_result);
            let next = free.approval_judged(peer, vote, vote_result);
            lemma_advanced_fits(Node { tasks: Seq::empty(), ..next }, next.tasks);
        },
        None => {},
    }
}

} // verus!
