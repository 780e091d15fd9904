//! How events, and what is queued because of them, are worked off.
use crate::aggression::AggressionConfig;
use crate::batching::{
    ApprovalDistributionMessageV1, ApprovalDistributionMessageV3, Notification, Versioned,
};
use crate::chain::BlockApprovalMeta;
use crate::messages::{
    Assignment, AssignmentV1, IndirectSignedApprovalVote, IndirectSignedApprovalVoteV2,
};
use crate::packing::tasks_are_done_in_order;
use crate::primitives::{BlockNumber, PeerId, ValidationVersion};
use crate::random::Luck;
use crate::state::{ChainView, Node, PendingMessage, Task};
use crate::subsystem::{unpacked, unpacking_costs, Event, NewGossipTopology};
use vstd::prelude::*;

verus! {

/// What a queue leaves undone is its end, and it leaves something undone only for a check that is waited for; while
/// one is waited for, the queue stays as it is.
pub proof fn queues_wait_for_checks(node: Node) -> (done: int)
    ensures
        0 <= done <= node.tasks.len(),
        node.settled().tasks == node.tasks.skip(done),
        node.settled().tasks.len() > 0 ==> node.settled().awaiting is Some,
        node.awaiting is Some ==> node.settled() == node,
{
    tasks_are_done_in_order(Node { tasks: Seq::empty(), ..node }, node.tasks)
}

/// What is queued is what is done: a message is looked at as coming from the peer that sent it, and the lag is looked
/// at after old messages have been sent again.
pub proof fn queued_messages_are_received(
    node: Node,
    peer: PeerId,
    assignment: Assignment,
    vote: IndirectSignedApprovalVoteV2,
)
    ensures
        node.performed(Task::Import(peer, PendingMessage::Assignment(assignment))) == node.assignment_received(
            peer,
            assignment,
        ),
        node.performed(Task::Import(peer, PendingMessage::Approval(vote))) == node.approval_received(peer, vote),
        node.performed(Task::EnableAggression) == node.aggression_enabled(true),
{
}

/// Two messages from a peer about blocks that are not waited for, of which the first needs no check, are looked at one
/// after the other.
pub proof fn messages_are_looked_at_one_by_one(
    node: Node,
    peer: PeerId,
    first: PendingMessage,
    second: PendingMessage,
)
    requires
        node.awaiting is None,
        node.performed(Task::Import(peer, first)).awaiting is None,
    ensures
        node.advanced(seq![Task::Import(peer, first), Task::Import(peer, second)]) == (Node {
            tasks: Seq::empty(),
            ..node.performed(Task::Import(peer, first)).performed(Task::Import(peer, second))
        }),
{
    let tasks = seq![Task::Import(peer, first), Task::Import(peer, second)];
    let next = node.performed(tasks[0]);
    let rest = tasks.drop_first();
    assert(rest =~= seq![Task::Import(peer, second)]);
    assert(rest.drop_first() =~= Seq::empty());
    let end = next.performed(rest[0]);
    assert(end.advanced(Seq::empty()) == (Node { tasks: Seq::empty(), ..end }));
    assert(next.advanced(rest) == end.advanced(rest.drop_first()));
}

/// Each event does what it is there for, before what is queued is worked off.
pub proof fn events_do_what_they_are_for(
    node: Node,
    peer: PeerId,
    version: ValidationVersion,
    view: ChainView,
    new: NewGossipTopology,
    message: Versioned,
    metas: Vec<BlockApprovalMeta>,
    assignment: Assignment,
    vote: IndirectSignedApprovalVoteV2,
    number: BlockNumber,
)
    ensures
        node.digested(Event::PeerConnected(peer, version)) == node.peer_connected(peer, version),
        node.digested(Event::PeerDisconnected(peer)) == node.peer_disconnected(peer),
        node.digested(Event::PeerViewChange(peer, view)) == node.peer_view_changed(peer, view@),
        node.digested(Event::OurViewChange(view)) == node.our_view_changed(view.heads@),
        node.digested(Event::NewGossipTopology(new)) == node.topology_learned(
            new.session,
            new.topology@,
            new.local_index,
        ),
        node.digested(Event::PeerMessage(peer, message)) == node.reported_all(
            peer,
            unpacking_costs(message@),
        ).messages_stored(peer, unpacked(message@)),
        node.digested(Event::NewBlocks(metas)) == node.blocks_arrived(metas@),
        node.digested(Event::DistributeAssignment(assignment)) == node.assignment_distributed(assignment),
        node.digested(Event::DistributeApproval(vote)) == node.approval_distributed(vote),
        node.digested(Event::ApprovalCheckingLagUpdate(number)) == (Node { lag: number, ..node }),
        node.digested(Event::BlockFinalized(number)) == node.pruned(number).aggression_enabled(false),
        node.digested(Event::ReputationTick) == node.reputation_sent(),
{
}

/// A node starts out with nothing but its configuration, the way it reports, and its luck.
pub proof fn fresh_nodes_have_nothing(config: AggressionConfig, immediate: bool, luck: Luck, peer: PeerId)
    ensures
        ({
            let node = Node::fresh(config, immediate, luck);
            &&& node.peers.len() == 0
            &&& node.blocks.len() == 0
            &&& node.pending.len() == 0
            &&& node.topologies.len() == 0
            &&& node.outdated.len() == 0
            &&& node.tasks.len() == 0
            &&& node.out.len() == 0
            &&& node.awaiting is None
            &&& node.lag == 0
            &&& node.config == config
            &&& node.luck == luck
            &&& node.standing.immediate == immediate
            &&& !node.standing.scores.contains_key(peer)
        }),
{
}

/// A message is about the block that it names.
pub proof fn messages_are_about_the_block_they_name(assignment: Assignment, vote: IndirectSignedApprovalVoteV2)
    ensures
        PendingMessage::Assignment(assignment).about() == assignment.cert.block_hash,
        PendingMessage::Approval(vote).about() == vote.block_hash,
{
}

/// The version of a notification is that of the envelope that it comes or goes in, and its messages are those in it.
pub proof fn envelopes_hold_messages_of_their_version(
    old_assignments: Vec<AssignmentV1>,
    old_votes: Vec<IndirectSignedApprovalVote>,
    assignments: Vec<Assignment>,
    votes: Vec<IndirectSignedApprovalVoteV2>,
)
    ensures
        Versioned::V1(ApprovalDistributionMessageV1::Assignments(old_assignments))@ == Notification::OldAssignments(
            ValidationVersion::V1,
            old_assignments@,
        ),
        Versioned::V2(ApprovalDistributionMessageV1::Assignments(old_assignments))@ == Notification::OldAssignments(
            ValidationVersion::V2,
            old_assignments@,
        ),
        Versioned::V3(ApprovalDistributionMessageV3::Assignments(assignments))@ == Notification::NewAssignments(
            assignments@,
        ),
        Versioned::V1(ApprovalDistributionMessageV1::Approvals(old_votes))@ == Notification::OldApprovals(
            ValidationVersion::V1,
            old_votes@,
        ),
        Versioned::V2(ApprovalDistributionMessageV1::Approvals(old_votes))@ == Notification::OldApprovals(
            ValidationVersion::V2,
            old_votes@,
        ),
        Versioned::V3(ApprovalDistributionMessageV3::Approvals(votes))@ == Notification::NewApprovals(votes@),
{
}

} // verus!
