//! That what the node has been asked to do is never taken back.
use crate::actions::Effect;
use crate::aggression;
use crate::batching::{approval_sends, assignment_sends};
use crate::chain::{among, BlockApprovalMeta};
use crate::dict;
use crate::import::{ApprovalCheckResult, AssignmentCheckResult};
use crate::knowledge::{approval_subject, assignment_subject, MessageKind};
use crate::messages::{Assignment, IndirectSignedApprovalVoteV2};
use crate::peers::{blocks_without, Tour};
use crate::primitives::{BlockHash, PeerId};
use crate::propagation::{parcel, Reform, Scope};
use crate::reputation::{
    report_effects, Rep, BENEFIT_VALID_MESSAGE_FIRST, COST_ASSIGNMENT_TOO_FAR_IN_THE_FUTURE,
    COST_INVALID_MESSAGE, COST_UNEXPECTED_MESSAGE,
};
use crate::state::{Acquaintance, Horizon, Node, PendingMessage, Task};
use crate::subsystem::{unpacked, unpacking_costs, Event};
use vstd::prelude::*;

verus! {

/// Whether the effects of an earlier state are the first ones of a later state.
pub open spec fn extended(was: Seq<Effect>, now: Seq<Effect>) -> bool {
    was.len() <= now.len() && now.take(was.len() as int) == was
}

pub proof fn lemma_extended_by(was: Seq<Effect>, more: Seq<Effect>)
    ensures
        extended(was, was + more),
        extended(was, was),
{
    assert((was + more).take(was.len() as int) =~= was);
    assert(was.take(was.len() as int) =~= was);
}

proof fn lemma_extended_transitive(a: Seq<Effect>, b: Seq<Effect>, c: Seq<Effect>)
    requires
        extended(a, b),
        extended(b, c),
    ensures
        extended(a, c),
{
    assert(c.take(a.len() as int) =~= b.take(a.len() as int)) by {
        assert forall|i: int| 0 <= i < a.len() implies c[i] == b[i] by {
            assert(c.take(b.len() as int)[i] == b[i]);
        }
    }
}

proof fn lemma_pushed(was: Seq<Effect>, effect: Effect)
    ensures
        extended(was, was.push(effect)),
{
    lemma_extended_by(was, seq![effect]);
    assert(was.push(effect) =~= was + seq![effect]);
}

proof fn lemma_reported(node: Node, peer: PeerId, rep: Rep)
    ensures
        extended(node.out, node.reported(peer, rep).out),
{
    lemma_extended_by(node.out, report_effects(node.standing, peer, rep));
}

proof fn lemma_reported_all(node: Node, peer: PeerId, reps: Seq<Rep>)
    ensures
        extended(node.out, node.reported_all(peer, reps).out),
    decreases reps.len(),
{
    lemma_extended_by(node.out, Seq::empty());
    if reps.len() > 0 {
        let rest = node.reported_all(peer, reps.drop_last());
        lemma_reported_all(node, peer, reps.drop_last());
        lemma_reported(rest, peer, reps.last());
        lemma_extended_transitive(node.out, rest.out, node.reported_all(peer, reps).out);
    }
}

proof fn lemma_unified(node: Node, peer: PeerId, view: Horizon)
    ensures
        extended(node.out, node.unified(peer, view).out),
{
    let tour = Tour { node, assignments: Seq::empty(), votes: Seq::empty() };
    tour.lemma_toured_frame(peer, view.finalized_number, view.heads);
    let end = tour.toured(peer, view.finalized_number, view.heads);
    let middle = end.node.assignments_sent(end.assignments, seq![peer]);
    lemma_extended_by(
        node.out,
        assignment_sends(end.assignments, end.node.versions_of(seq![peer])),
    );
    lemma_extended_by(
        middle.out,
        approval_sends(end.votes, middle.versions_of(seq![peer])),
    );
    lemma_extended_transitive(node.out, middle.out, node.unified(peer, view).out);
}

proof fn lemma_introduced(node: Node, hashes: Seq<BlockHash>, peers: Seq<(PeerId, Acquaintance)>)
    ensures
        extended(node.out, node.introduced(hashes, peers).out),
    decreases peers.len(),
{
    lemma_extended_by(node.out, Seq::empty());
    if peers.len() > 0 {
        let rest = node.introduced(hashes, peers.drop_last());
        let (peer, known) = peers.last();
        lemma_introduced(node, hashes, peers.drop_last());
        let view = Horizon { heads: known.view.heads.filter(among(hashes)), ..known.view };
        lemma_unified(rest, peer, view);
        lemma_extended_transitive(node.out, rest.out, node.introduced(hashes, peers).out);
    }
}

proof fn lemma_wave(node: Node, scope: Scope, peers: Seq<PeerId>)
    ensures
        extended(node.out, node.wave(scope, peers).node.out),
    decreases peers.len(),
{
    lemma_extended_by(node.out, Seq::empty());
    if peers.len() > 0 {
        let rest = node.wave(scope, peers.drop_last()).node;
        let peer = peers.last();
        lemma_wave(node, scope, peers.drop_last());
        let found = parcel(rest.blocks, scope, peer, rest.topologies);
        let next = Node { blocks: found.blocks, ..rest };
        lemma_extended_by(
            rest.out,
            assignment_sends(found.assignments, next.versions_of(seq![peer])),
        );
        lemma_extended_transitive(node.out, rest.out, node.wave(scope, peers).node.out);
    }
}

/// Packets of votes are put behind what has been asked for before.
pub proof fn lemma_packets(node: Node, packets: Seq<(PeerId, Seq<IndirectSignedApprovalVoteV2>)>)
    ensures
        extended(node.out, node.packets_sent(packets).out),
    decreases packets.len(),
{
    lemma_extended_by(node.out, Seq::empty());
    if packets.len() > 0 {
        let rest = node.packets_sent(packets.drop_last());
        let (peer, votes) = packets.last();
        lemma_packets(node, packets.drop_last());
        lemma_extended_by(rest.out, approval_sends(votes, rest.versions_of(seq![peer])));
        lemma_extended_transitive(node.out, rest.out, node.packets_sent(packets).out);
    }
}

proof fn lemma_reformed(node: Node, scope: Scope, reform: Reform)
    ensures
        extended(node.out, node.reformed(scope, reform).out),
{
    let changed = Node { blocks: node.blocks.map_values(reform.block_change(scope)), ..node };
    let wave = changed.wave(scope, changed.peer_ids());
    lemma_wave(changed, scope, changed.peer_ids());
    lemma_packets(wave.node, wave.votes);
    lemma_extended_transitive(node.out, wave.node.out, node.reformed(scope, reform).out);
}

proof fn lemma_aggression(node: Node, resend: bool)
    ensures
        extended(node.out, node.aggression_enabled(resend).out),
{
    lemma_extended_by(node.out, Seq::empty());
    if let Some(period) = node.config.resend_unfinalized_period {
        lemma_reformed(node, Scope::Aged { newest: aggression::newest(node.blocks), period }, Reform::Resend);
    }
    let middle = if resend {
        node.resent()
    } else {
        node
    };
    lemma_reformed(
        middle,
        Scope::Number(aggression::oldest(middle.blocks)),
        Reform::Escalate {
            own_to_all: aggression::reached(middle.config.l1_threshold, middle.lag),
            others_to_grid: aggression::reached(middle.config.l2_threshold, middle.lag),
        },
    );
    lemma_extended_transitive(node.out, middle.out, middle.escalated().out);
}

proof fn lemma_stored(node: Node, peer: PeerId, list: Seq<PendingMessage>)
    ensures
        node.messages_stored(peer, list).out == node.out,
    decreases list.len(),
{
    if list.len() > 0 {
        lemma_stored(node, peer, list.drop_last());
    }
}

proof fn lemma_awaited(node: Node, heads: Seq<BlockHash>)
    ensures
        node.heads_awaited(heads).out == node.out,
    decreases heads.len(),
{
    if heads.len() > 0 {
        lemma_awaited(node, heads.drop_last());
    }
}

proof fn lemma_arrived(node: Node, metas: Seq<BlockApprovalMeta>)
    ensures
        node.arrival(metas).node.out == node.out,
    decreases metas.len(),
{
    if metas.len() > 0 {
        lemma_arrived(node, metas.drop_last());
    }
}

proof fn lemma_assignment_circulated(node: Node, source: Option<PeerId>, assignment: Assignment)
    ensures
        extended(node.out, node.assignment_circulated(source, assignment).out),
{
    let hash = assignment.cert.block_hash;
    let block = node.block(hash);
    let passed = block.circulated_assignment(
        source,
        assignment,
        node.topology_of(block.session),
        node.peers.len(),
        node.luck,
    );
    let next = Node { luck: passed.luck, ..node.with_block(hash, passed.block) };
    lemma_extended_by(
        node.out,
        assignment_sends(seq![assignment], next.versions_of(passed.receivers)),
    );
}

proof fn lemma_approval_circulated(node: Node, source: Option<PeerId>, vote: IndirectSignedApprovalVoteV2)
    ensures
        extended(node.out, node.approval_circulated(source, vote).out),
{
    let hash = vote.block_hash;
    let block = node.block(hash);
    let (passed, receivers) = block.circulated_approval(source, vote, node.topology_of(block.session));
    let next = node.with_block(hash, passed);
    lemma_extended_by(
        node.out,
        approval_sends(seq![vote], next.versions_of(receivers)),
    );
}

proof fn lemma_assignment_judged(node: Node, peer: PeerId, assignment: Assignment, result: AssignmentCheckResult)
    ensures
        extended(node.out, node.assignment_judged(peer, assignment, result).out),
{
    lemma_extended_by(node.out, Seq::empty());
    lemma_reported(node, peer, BENEFIT_VALID_MESSAGE_FIRST);
    lemma_reported(node, peer, COST_ASSIGNMENT_TOO_FAR_IN_THE_FUTURE);
    lemma_reported(node, peer, COST_INVALID_MESSAGE);
    if result is Accepted && node.has_block(assignment.cert.block_hash) {
        let hash = assignment.cert.block_hash;
        let subject = assignment_subject(assignment);
        let kind = MessageKind::Assignment;
        let scored = node.reported(peer, BENEFIT_VALID_MESSAGE_FIRST);
        let block = node.block(hash).after_learned(subject, kind).after_received(peer, subject, kind);
        lemma_assignment_circulated(scored.with_block(hash, block), Some(peer), assignment);
        lemma_extended_transitive(node.out, scored.out, node.assignment_judged(peer, assignment, result).out);
    }
}

proof fn lemma_approval_judged(
    node: Node,
    peer: PeerId,
    vote: IndirectSignedApprovalVoteV2,
    result: ApprovalCheckResult,
)
    ensures
        extended(node.out, node.approval_judged(peer, vote, result).out),
{
    lemma_reported(node, peer, BENEFIT_VALID_MESSAGE_FIRST);
    lemma_reported(node, peer, COST_INVALID_MESSAGE);
    if result is Accepted && node.has_block(vote.block_hash) {
        let hash = vote.block_hash;
        let subject = approval_subject(vote);
        let kind = MessageKind::Approval;
        let scored = node.reported(peer, BENEFIT_VALID_MESSAGE_FIRST);
        let block = node.block(hash).after_learned(subject, kind).after_received(peer, subject, kind);
        lemma_approval_circulated(scored.with_block(hash, block), Some(peer), vote);
        lemma_extended_transitive(node.out, scored.out, node.approval_judged(peer, vote, result).out);
    }
}

proof fn lemma_received(node: Node, peer: PeerId, message: PendingMessage)
    ensures
        extended(node.out, node.performed(Task::Import(peer, message)).out),
{
    lemma_extended_by(node.out, Seq::empty());
    lemma_reported(node, peer, COST_UNEXPECTED_MESSAGE);
    let hash = message.about();
    if node.has_block(hash) {
        let (subject, kind) = match message {
            PendingMessage::Assignment(assignment) => (
                assignment_subject(assignment),
                MessageKind::Assignment,
            ),
            PendingMessage::Approval(vote) => (
                approval_subject(vote),
                MessageKind::Approval,
            ),
        };
        let screening = node.block(hash).screened(peer, subject, kind);
        let next = node.with_block(hash, screening.block);
        lemma_reported_all(next, peer, screening.reports);
        let scored = next.reported_all(peer, screening.reports);
        let effect = match message {
            PendingMessage::Assignment(assignment) => Effect::CheckAssignment(assignment),
            PendingMessage::Approval(vote) => Effect::CheckApproval(vote),
        };
        lemma_pushed(scored.out, effect);
        lemma_extended_transitive(node.out, scored.out, scored.out.push(effect));
    }
}

proof fn lemma_advanced(node: Node, tasks: Seq<Task>)
    ensures
        extended(node.out, node.advanced(tasks).out),
    decreases tasks.len(),
{
    lemma_extended_by(node.out, Seq::empty());
    if tasks.len() > 0 && node.awaiting is None {
        let task = tasks[0];
        let next = node.performed(task);
        match task {
            Task::Import(peer, message) => lemma_received(node, peer, message),
            Task::EnableAggression => lemma_aggression(node, true),
        }
        lemma_advanced(next, tasks.drop_first());
        lemma_extended_transitive(node.out, next.out, node.advanced(tasks).out);
    }
}

/// What an event makes the node do comes after all that it has been asked to do before.
pub proof fn events_append_to_the_outbox(node: Node, event: Event)
    ensures
        extended(node.out, node.handled(event).out),
{
    lemma_extended_by(node.out, Seq::empty());
    let next = node.digested(event);
    match event {
        Event::PeerConnected(_, _) => {},
        Event::PeerDisconnected(_) => {},
        Event::PeerViewChange(peer, view) => {
            if node.has_peer(peer) {
                let was = node.peer(peer);
                let seen = Node {
                    peers: node.peers.update(
                        dict::index_of_key(node.peers, peer),
                        (peer, Acquaintance { view: view@, ..was }),
                    ),
                    blocks: blocks_without(
                        node.blocks,
                        peer,
                        was.view.finalized_number,
                        view@.finalized_number,
                    ),
                    ..node
                };
                lemma_unified(seen, peer, view@);
            }
        },
        Event::OurViewChange(view) => lemma_awaited(node, view@.heads),
        Event::NewGossipTopology(new) => {
            if let Some(validator) = new.local_index {
                let seen = if dict::has_key(node.topologies, new.session) {
                    node
                } else {
                    Node {
                        topologies: node.topologies.push((new.session, new.topology@.seen_by(validator))),
                        ..node
                    }
                };
                let grid = seen.topologies[dict::index_of_key(seen.topologies, new.session)].1.grid;
                lemma_reformed(seen, Scope::Session(new.session), Reform::Resolve(grid));
            }
        },
        Event::PeerMessage(peer, message) => {
            let scored = node.reported_all(peer, unpacking_costs(message@));
            lemma_reported_all(node, peer, unpacking_costs(message@));
            lemma_stored(scored, peer, unpacked(message@));
        },
        Event::NewBlocks(metas) => {
            lemma_arrived(node, metas@);
            let arrival = node.arrival(metas@);
            lemma_introduced(arrival.node, arrival.hashes, node.peers);
        },
        Event::DistributeAssignment(assignment) => {
            let hash = assignment.cert.block_hash;
            let known = node.block(hash).after_learned(
                assignment_subject(assignment),
                MessageKind::Assignment,
            );
            lemma_assignment_circulated(node.with_block(hash, known), None, assignment);
        },
        Event::DistributeApproval(vote) => {
            let hash = vote.block_hash;
            let known = node.block(hash).after_learned(
                approval_subject(vote),
                MessageKind::Approval,
            );
            lemma_approval_circulated(node.with_block(hash, known), None, vote);
        },
        Event::ApprovalCheckingLagUpdate(_) => {},
        Event::BlockFinalized(number) => lemma_aggression(node.pruned(number), false),
        Event::ReputationTick => lemma_pushed(node.out, Effect::ReportAll { sums: node.standing.scores, once_each: true }),
    }
    assert(extended(node.out, next.out));
    lemma_advanced(Node { tasks: Seq::empty(), ..next }, next.tasks);
    lemma_extended_transitive(node.out, next.out, node.handled(event).out);
}

/// What a check makes the node do comes after all that it has been asked to do before.
pub proof fn checks_append_to_the_outbox(
    node: Node,
    assignment_result: AssignmentCheckResult,
    vote_result: ApprovalCheckResult,
)
    ensures
        extended(node.out, node.assignment_checked(assignment_result).out),
        extended(node.out, node.approval_checked(vote_result).out),
{
    lemma_extended_by(node.out, Seq::empty());
    let idle = Node { awaiting: None, ..node };
    match node.awaiting {
        Some((peer, PendingMessage::Assignment(assignment))) => {
            lemma_assignment_judged(idle, peer, assignment, assignment_result);
            let next = idle.assignment_judged(peer, assignment, assignment_result);
            lemma_advanced(Node { tasks: Seq::empty(), ..next }, next.tasks);
            lemma_extended_transitive(node.out, next.out, node.assignment_checked(assignment_result).out);
        },
        Some((peer, PendingMessage::Approval(vote))) => {
            lemma_approval_judged(idle, peer, vote, vote_result);
            let next = idle.approval_judged(peer, vote, vote_result);
            lemma_advanced(Node { tasks: Seq::empty(), ..next }, next.tasks);
            lemma_extended_transitive(node.out, next.out, node.approval_checked(vote_result).out);
        },
        None => {},
    }
}

} // verus!
