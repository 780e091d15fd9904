//! That nobody gets a message that it is not to get.
use crate::actions::Effect;
use crate::batching::{
    approval_sends, assignment_sends, peers_get_their_own_version, well_addressed, Notification,
    MAX_APPROVAL_BATCH_SIZE, MAX_ASSIGNMENT_BATCH_SIZE,
};
use crate::block::Block;
use crate::choices::votes_are_sent_once;
use crate::circulation::routed;
use crate::delivery::propagation_brings_what_is_owed;
use crate::dict;
use crate::dispatch::{
    lemma_approvals_sent, lemma_assignments_sent, newly_delivers_assignment, newly_delivers_vote,
    understands_assignment, understands_vote,
};
use crate::import::{ApprovalCheckResult, AssignmentCheckResult};
use crate::knowledge::{approval_subject, assignment_subject, MessageKind};
use crate::laws::{assignments_reach_their_receivers, votes_reach_their_receivers};
use crate::messages::{Assignment, IndirectSignedApprovalVoteV2};
use crate::packing::{
    brings_one_assignment, brings_one_vote, holds_only_assignments, holds_only_votes,
    only_the_given_assignments_are_sent, only_the_given_votes_are_sent, receivers_are_looked_up,
};
use crate::peers::Tour;
use crate::primitives::{BlockHash, PeerId, SessionIndex};
use crate::propagation::{parcel, Scope};
use crate::reputation::Rep;
use crate::routes::demanded;
use crate::state::{lookup_topology, Horizon, Node};
use crate::stories::lemma_with_block;
use crate::topology::Outlook;
use vstd::prelude::*;

verus! {

/// Sending assignments to some peers appends notifications that hold only those assignments and go only to those of
/// the peers that are connected, each in the version that they speak.
pub proof fn assignments_go_to_the_receivers_only(
    node: Node,
    assignments: Seq<Assignment>,
    receivers: Seq<PeerId>,
    e: int,
    r: int,
)
    requires
        dict::keys_unique(node.peers),
        node.out.len() <= e < node.assignments_sent(assignments, receivers).out.len(),
    ensures
        node.assignments_sent(assignments, receivers).out[e] matches Effect::Send(list, note) && {
            &&& holds_only_assignments(note, assignments)
            &&& 0 <= r < list.len() ==> {
                &&& receivers.contains(list[r])
                &&& exists|i: int|
                    0 <= i < node.peers.len() && (#[trigger] node.peers[i]).0 == list[r] && node.peers[i].1.version
                        == note.version()
            }
        },
{
    let versions = node.versions_of(receivers);
    let all = assignment_sends(assignments, versions);
    let n = e - node.out.len();
    only_the_given_assignments_are_sent(assignments, versions, n);
    peers_get_their_own_version(assignments, Seq::empty(), versions);
    assert(well_addressed(all[n], versions, MAX_ASSIGNMENT_BATCH_SIZE as nat));
    if let Effect::Send(list, note) = all[n] {
        if 0 <= r < list.len() {
            assert(versions.contains((list[r], note.version())));
            receivers_are_looked_up(node, receivers, list[r], note.version());
        }
    }
}

/// The same of votes.
pub proof fn votes_go_to_the_receivers_only(
    node: Node,
    votes: Seq<IndirectSignedApprovalVoteV2>,
    receivers: Seq<PeerId>,
    e: int,
    r: int,
)
    requires
        dict::keys_unique(node.peers),
        node.out.len() <= e < node.approvals_sent(votes, receivers).out.len(),
    ensures
        node.approvals_sent(votes, receivers).out[e] matches Effect::Send(list, note) && {
            &&& holds_only_votes(note, votes)
            &&& 0 <= r < list.len() ==> {
                &&& receivers.contains(list[r])
                &&& exists|i: int|
                    0 <= i < node.peers.len() && (#[trigger] node.peers[i]).0 == list[r] && node.peers[i].1.version
                        == note.version()
            }
        },
{
    let versions = node.versions_of(receivers);
    let all = approval_sends(votes, versions);
    let n = e - node.out.len();
    only_the_given_votes_are_sent(votes, versions, n);
    peers_get_their_own_version(Seq::empty(), votes, versions);
    assert(well_addressed(all[n], versions, MAX_APPROVAL_BATCH_SIZE as nat));
    if let Effect::Send(list, note) = all[n] {
        if 0 <= r < list.len() {
            assert(versions.contains((list[r], note.version())));
            receivers_are_looked_up(node, receivers, list[r], note.version());
        }
    }
}

/// Passing an assignment on sends nothing but that assignment, and to nobody but those whom the block passes it on to.
pub proof fn passed_assignments_go_to_nobody_else(
    node: Node,
    source: Option<PeerId>,
    assignment: Assignment,
    i: int,
    e: int,
    r: int,
)
    requires
        dict::keys_unique(node.peers),
        dict::keys_unique(node.blocks),
        0 <= i < node.blocks.len(),
        node.blocks[i].0 == assignment.cert.block_hash,
        node.out.len() <= e < node.assignment_circulated(source, assignment).out.len(),
    ensures
        ({
            let block = node.blocks[i].1;
            let receivers = block.circulated_assignment(
                source,
                assignment,
                node.topology_of(block.session),
                node.peers.len(),
                node.luck,
            ).receivers;
            node.assignment_circulated(source, assignment).out[e] matches Effect::Send(list, note) && {
                &&& holds_only_assignments(note, seq![assignment])
                &&& 0 <= r < list.len() ==> receivers.contains(list[r])
            }
        }),
{
    dict::lemma_dict_at(node.blocks, i);
    let block = node.blocks[i].1;
    let passed = block.circulated_assignment(
        source,
        assignment,
        node.topology_of(block.session),
        node.peers.len(),
        node.luck,
    );
    let next = Node { luck: passed.luck, ..node.with_block(assignment.cert.block_hash, passed.block) };
    assignments_go_to_the_receivers_only(next, seq![assignment], passed.receivers, e, r);
}

/// Passing a vote on sends nothing but that vote, and to nobody but those whom the block passes it on to.
pub proof fn passed_votes_go_to_nobody_else(
    node: Node,
    source: Option<PeerId>,
    vote: IndirectSignedApprovalVoteV2,
    i: int,
    e: int,
    r: int,
)
    requires
        dict::keys_unique(node.peers),
        dict::keys_unique(node.blocks),
        0 <= i < node.blocks.len(),
        node.blocks[i].0 == vote.block_hash,
        node.out.len() <= e < node.approval_circulated(source, vote).out.len(),
    ensures
        ({
            let block = node.blocks[i].1;
            let receivers = block.circulated_approval(source, vote, node.topology_of(block.session)).1;
            node.approval_circulated(source, vote).out[e] matches Effect::Send(list, note) && {
                &&& holds_only_votes(note, seq![vote])
                &&& 0 <= r < list.len() ==> receivers.contains(list[r])
            }
        }),
{
    dict::lemma_dict_at(node.blocks, i);
    let block = node.blocks[i].1;
    let (passed, receivers) = block.circulated_approval(source, vote, node.topology_of(block.session));
    votes_go_to_the_receivers_only(node.with_block(vote.block_hash, passed), seq![vote], receivers, e, r);
}

/// Passing a message on sends it to everybody whom the block passes it on to, as far as they are connected and their
/// version has a form for it.
pub proof fn all_receivers_get_what_is_passed_on(
    node: Node,
    source: Option<PeerId>,
    assignment: Assignment,
    vote: IndirectSignedApprovalVoteV2,
    i: int,
    peer: PeerId,
)
    requires
        dict::keys_unique(node.blocks),
        0 <= i < node.blocks.len(),
        node.has_peer(peer),
    ensures
        ({
            let block = node.blocks[i].1;
            let receivers = block.circulated_assignment(
                source,
                assignment,
                node.topology_of(block.session),
                node.peers.len(),
                node.luck,
            ).receivers;
            node.blocks[i].0 == assignment.cert.block_hash && receivers.contains(peer) && understands_assignment(
                node.peer(peer).version,
                assignment,
            ) ==> newly_delivers_assignment(
                node.out,
                node.assignment_circulated(source, assignment).out,
                peer,
                assignment,
            )
        }),
        ({
            let block = node.blocks[i].1;
            let receivers = block.circulated_approval(source, vote, node.topology_of(block.session)).1;
            node.blocks[i].0 == vote.block_hash && receivers.contains(peer) && understands_vote(
                node.peer(peer).version,
                vote,
            ) ==> newly_delivers_vote(node.out, node.approval_circulated(source, vote).out, peer, vote)
        }),
{
    dict::lemma_dict_at(node.blocks, i);
    let block = node.blocks[i].1;
    let topology = node.topology_of(block.session);
    let passed = block.circulated_assignment(source, assignment, topology, node.peers.len(), node.luck);
    if node.blocks[i].0 == assignment.cert.block_hash && passed.receivers.contains(peer) && understands_assignment(
        node.peer(peer).version,
        assignment,
    ) {
        let next = Node { luck: passed.luck, ..node.with_block(assignment.cert.block_hash, passed.block) };
        lemma_assignments_sent(next, seq![assignment], passed.receivers, 0, peer);
    }
    let (followed, receivers) = block.circulated_approval(source, vote, topology);
    if node.blocks[i].0 == vote.block_hash && receivers.contains(peer) && understands_vote(
        node.peer(peer).version,
        vote,
    ) {
        lemma_approvals_sent(node.with_block(vote.block_hash, followed), seq![vote], receivers, 0, peer);
    }
}

/// An assignment that was found good is passed on, but not back to the peer that sent it.
pub proof fn good_assignments_do_not_go_back(node: Node, peer: PeerId, assignment: Assignment, i: int, e: int, r: int)
    requires
        dict::keys_unique(node.peers),
        dict::keys_unique(node.blocks),
        0 <= i < node.blocks.len(),
        node.blocks[i].0 == assignment.cert.block_hash,
        node.reported(peer, Rep::ValidMessageFirst).out.len() <= e < node.assignment_judged(
            peer,
            assignment,
            AssignmentCheckResult::Accepted,
        ).out.len(),
    ensures
        node.assignment_judged(peer, assignment, AssignmentCheckResult::Accepted).out[e] matches Effect::Send(list, note)
            && {
            &&& holds_only_assignments(note, seq![assignment])
            &&& 0 <= r < list.len() ==> list[r] != peer
        },
{
    dict::lemma_dict_at(node.blocks, i);
    let hash = assignment.cert.block_hash;
    let subject = assignment_subject(assignment);
    let told = node.reported(peer, Rep::ValidMessageFirst);
    let noted = node.block(hash).after_learned(subject, MessageKind::Assignment).after_received(
        peer,
        subject,
        MessageKind::Assignment,
    );
    lemma_with_block(told, hash, noted);
    let middle = told.with_block(hash, noted);
    passed_assignments_go_to_nobody_else(middle, Some(peer), assignment, i, e, r);
    let topology = middle.topology_of(noted.session);
    if let Effect::Send(list, _) = middle.assignment_circulated(Some(peer), assignment).out[e] {
        assignments_reach_their_receivers(
            noted,
            Some(peer),
            assignment,
            topology,
            middle.peers.len(),
            middle.luck,
            list[r],
        );
    }
}

/// A vote that was found good is passed on, but not back to the peer that sent it.
pub proof fn good_votes_do_not_go_back(
    node: Node,
    peer: PeerId,
    vote: IndirectSignedApprovalVoteV2,
    i: int,
    e: int,
    r: int,
)
    requires
        dict::keys_unique(node.peers),
        dict::keys_unique(node.blocks),
        0 <= i < node.blocks.len(),
        node.blocks[i].0 == vote.block_hash,
        node.reported(peer, Rep::ValidMessageFirst).out.len() <= e < node.approval_judged(
            peer,
            vote,
            ApprovalCheckResult::Accepted,
        ).out.len(),
    ensures
        node.approval_judged(peer, vote, ApprovalCheckResult::Accepted).out[e] matches Effect::Send(list, note) && {
            &&& holds_only_votes(note, seq![vote])
            &&& 0 <= r < list.len() ==> list[r] != peer
        },
{
    dict::lemma_dict_at(node.blocks, i);
    let hash = vote.block_hash;
    let subject = approval_subject(vote);
    let told = node.reported(peer, Rep::ValidMessageFirst);
    let noted = node.block(hash).after_learned(subject, MessageKind::Approval).after_received(
        peer,
        subject,
        MessageKind::Approval,
    );
    lemma_with_block(told, hash, noted);
    let middle = told.with_block(hash, noted);
    passed_votes_go_to_nobody_else(middle, Some(peer), vote, i, e, r);
    if let Effect::Send(list, _) = middle.approval_circulated(Some(peer), vote).out[e] {
        votes_reach_their_receivers(noted, Some(peer), vote, middle.topology_of(noted.session), list[r]);
    }
}

/// What is sent when a peer catches up goes to that peer and to nobody else.
pub proof fn greetings_go_to_the_newcomer_only(node: Node, peer: PeerId, view: Horizon, e: int, r: int)
    requires
        dict::keys_unique(node.peers),
        node.out.len() <= e < node.unified(peer, view).out.len(),
    ensures
        node.unified(peer, view).out[e] matches Effect::Send(list, _) && (0 <= r < list.len() ==> list[r] == peer),
{
    let start = Tour { node, assignments: Seq::empty(), votes: Seq::empty() };
    let tour = start.toured(peer, view.finalized_number, view.heads);
    start.lemma_toured_frame(peer, view.finalized_number, view.heads);
    let first = tour.node.assignments_sent(tour.assignments, seq![peer]);
    if e < first.out.len() {
        assignments_go_to_the_receivers_only(tour.node, tour.assignments, seq![peer], e, r);
        assert(node.unified(peer, view).out[e] == first.out[e]);
    } else {
        votes_go_to_the_receivers_only(first, tour.votes, seq![peer], e, r);
    }
}

/// Whether a message in a notification follows from an assignment whose routing demands that a peer gets it, about a
/// block that the peer is aware of.
pub open spec fn is_due(node: Node, scope: Scope, peer: PeerId, note: Notification, j: int) -> bool {
    exists|i: int, k: int|
        {
            &&& 0 <= i < node.blocks.len()
            &&& 0 <= k < node.blocks[i].1.entries.len()
            &&& scope.covers(node.blocks[i].1)
            &&& node.blocks[i].1.aware(peer)
            &&& demanded(
                (#[trigger] node.blocks[i].1.entries[k]).routing,
                node.topology_of(node.blocks[i].1.session),
                peer,
            )
            &&& note.brings_assignment(j, node.blocks[i].1.entries[k].assignment) || brings_one_vote(
                note,
                j,
                node.blocks[i].1.entries[k].approvals,
            )
        }
}

/// Whether an effect sends to one connected peer, and only what is due to it.
pub open spec fn is_due_delivery(node: Node, scope: Scope, effect: Effect) -> bool {
    effect matches Effect::Send(list, note) && {
        &&& list.len() > 0
        &&& forall|r: int| 0 <= r < list.len() ==> #[trigger] list[r] == list[0]
        &&& node.has_peer(list[0])
        &&& forall|j: int| 0 <= j < note.size() ==> #[trigger] is_due(node, scope, list[0], note, j)
    }
}

/// Whether some blocks are others with only the memories of peers changed.
spec fn same_shapes(was: Seq<(BlockHash, Block)>, now: Seq<(BlockHash, Block)>) -> bool {
    &&& now.len() == was.len()
    &&& forall|i: int| 0 <= i < was.len() ==> same_shape((#[trigger] was[i]).1, now[i].1)
}

spec fn same_shape(was: Block, now: Block) -> bool {
    &&& now.entries == was.entries
    &&& now.session == was.session
    &&& now.number == was.number
    &&& forall|peer: PeerId| #[trigger] now.aware(peer) ==> was.aware(peer)
    &&& dict::keys_unique(now.known_by)
}

proof fn lemma_propagated_shape(block: Block, peer: PeerId, topology: Option<Outlook>)
    requires
        dict::keys_unique(block.known_by),
    ensures
        same_shape(block, block.propagated(peer, topology).0),
{
    let next = block.propagated(peer, topology).0;
    if block.aware(peer) {
        let p = dict::index_of_key(block.known_by, peer);
        assert(block.known_by[p].0 == peer);
        dict::lemma_dict_update(block.known_by, p, next.known_by[p].1);
        assert forall|other: PeerId| #[trigger] next.aware(other) implies block.aware(other) by {
            let q = dict::index_of_key(next.known_by, other);
            assert(next.known_by[q].0 == other);
            assert(block.known_by[q].0 == other);
        }
    }
}

proof fn lemma_parcel_source(
    blocks: Seq<(BlockHash, Block)>,
    scope: Scope,
    peer: PeerId,
    topologies: Seq<(SessionIndex, Outlook)>,
)
    requires
        forall|i: int| 0 <= i < blocks.len() ==> dict::keys_unique((#[trigger] blocks[i]).1.known_by),
    ensures
        ({
            let found = parcel(blocks, scope, peer, topologies);
            &&& same_shapes(blocks, found.blocks)
            &&& forall|m: int|
                0 <= m < found.assignments.len() ==> owes_assignment(
                    blocks,
                    scope,
                    peer,
                    topologies,
                    #[trigger] found.assignments[m],
                )
            &&& forall|m: int|
                0 <= m < found.votes.len() ==> owes_a_vote(blocks, scope, peer, topologies, #[trigger] found.votes[m])
        }),
    decreases blocks.len(),
{
    if blocks.len() > 0 {
        let short = blocks.drop_last();
        let last = blocks.len() - 1;
        assert forall|i: int| 0 <= i < short.len() implies dict::keys_unique((#[trigger] short[i]).1.known_by) by {
            assert(short[i] == blocks[i]);
        }
        lemma_parcel_source(short, scope, peer, topologies);
        let rest = parcel(short, scope, peer, topologies);
        let found = parcel(blocks, scope, peer, topologies);
        let block = blocks[last].1;
        let topology = lookup_topology(topologies, block.session);
        let (next, assignments, votes) = block.propagated(peer, topology);
        lemma_propagated_shape(block, peer, topology);
        assert forall|i: int| 0 <= i < blocks.len() implies same_shape((#[trigger] blocks[i]).1, found.blocks[i].1) by {
            if i < last {
                assert(short[i] == blocks[i]);
                assert(found.blocks[i] == rest.blocks[i]);
            }
        }
        assert forall|m: int| 0 <= m < found.assignments.len() implies owes_assignment(
            blocks,
            scope,
            peer,
            topologies,
            #[trigger] found.assignments[m],
        ) by {
            if m < rest.assignments.len() {
                assert(found.assignments[m] == rest.assignments[m]);
                let (i, k) = choose|i: int, k: int|
                    owes_at(short, scope, peer, topologies, i, k) && (#[trigger] short[i].1.entries[k]).assignment
                        == rest.assignments[m];
                assert(short[i] == blocks[i]);
                assert(owes_at(blocks, scope, peer, topologies, i, k));
                assert(blocks[i].1.entries[k].assignment == found.assignments[m]);
            } else {
                let a = m - rest.assignments.len();
                assert(found.assignments[m] == assignments[a]);
                propagation_brings_what_is_owed(block, peer, topology);
                let k = choose|k: int|
                    0 <= k < block.entries.len() && (#[trigger] block.entries[k]).assignment == assignments[a]
                        && routed(topology, block.entries[k].routing, peer);
                assert(owes_at(blocks, scope, peer, topologies, last, k));
                assert(blocks[last].1.entries[k].assignment == found.assignments[m]);
            }
        }
        assert forall|m: int| 0 <= m < found.votes.len() implies owes_a_vote(
            blocks,
            scope,
            peer,
            topologies,
            #[trigger] found.votes[m],
        ) by {
            if m < rest.votes.len() {
                assert(found.votes[m] == rest.votes[m]);
                let (i, k) = choose|i: int, k: int|
                    owes_at(short, scope, peer, topologies, i, k) && (
                    #[trigger] short[i].1.entries[k]).approvals.contains(rest.votes[m]);
                assert(short[i] == blocks[i]);
                assert(owes_at(blocks, scope, peer, topologies, i, k));
                assert(blocks[i].1.entries[k].approvals.contains(found.votes[m]));
            } else {
                let a = m - rest.votes.len();
                assert(found.votes[m] == votes[a]);
                let p = dict::index_of_key(block.known_by, peer);
                assert(block.known_by[p].0 == peer);
                votes_are_sent_once(block, peer, topology, p, a, a);
                let k = choose|k: int|
                    0 <= k < block.entries.len() && (#[trigger] block.entries[k]).approvals.contains(votes[a])
                        && demanded(block.entries[k].routing, topology, peer);
                assert(owes_at(blocks, scope, peer, topologies, last, k));
                assert(blocks[last].1.entries[k].approvals.contains(found.votes[m]));
            }
        }
    }
}

spec fn owes_at(
    blocks: Seq<(BlockHash, Block)>,
    scope: Scope,
    peer: PeerId,
    topologies: Seq<(SessionIndex, Outlook)>,
    i: int,
    k: int,
) -> bool {
    &&& 0 <= i < blocks.len()
    &&& 0 <= k < blocks[i].1.entries.len()
    &&& scope.covers(blocks[i].1)
    &&& blocks[i].1.aware(peer)
    &&& demanded(blocks[i].1.entries[k].routing, lookup_topology(topologies, blocks[i].1.session), peer)
}

spec fn owes_assignment(
    blocks: Seq<(BlockHash, Block)>,
    scope: Scope,
    peer: PeerId,
    topologies: Seq<(SessionIndex, Outlook)>,
    assignment: Assignment,
) -> bool {
    exists|i: int, k: int|
        owes_at(blocks, scope, peer, topologies, i, k) && (#[trigger] blocks[i].1.entries[k]).assignment == assignment
}

spec fn owes_a_vote(
    blocks: Seq<(BlockHash, Block)>,
    scope: Scope,
    peer: PeerId,
    topologies: Seq<(SessionIndex, Outlook)>,
    vote: IndirectSignedApprovalVoteV2,
) -> bool {
    exists|i: int, k: int|
        owes_at(blocks, scope, peer, topologies, i, k) && (#[trigger] blocks[i].1.entries[k]).approvals.contains(vote)
}

proof fn lemma_owed_before(
    was: Seq<(BlockHash, Block)>,
    now: Seq<(BlockHash, Block)>,
    scope: Scope,
    peer: PeerId,
    topologies: Seq<(SessionIndex, Outlook)>,
    i: int,
    k: int,
)
    requires
        same_shapes(was, now),
        owes_at(now, scope, peer, topologies, i, k),
    ensures
        owes_at(was, scope, peer, topologies, i, k),
        was[i].1.entries[k] == now[i].1.entries[k],
{
    assert(same_shape(was[i].1, now[i].1));
    assert(now[i].1.aware(peer));
}

proof fn lemma_wave_due(node: Node, scope: Scope, peers: Seq<PeerId>)
    requires
        dict::keys_unique(node.peers),
        forall|i: int| 0 <= i < node.blocks.len() ==> dict::keys_unique((#[trigger] node.blocks[i]).1.known_by),
        forall|p: int| 0 <= p < peers.len() ==> node.has_peer(#[trigger] peers[p]),
    ensures
        ({
            let wave = node.wave(scope, peers);
            &&& wave.node == (Node { blocks: wave.node.blocks, out: wave.node.out, ..node })
            &&& same_shapes(node.blocks, wave.node.blocks)
            &&& node.out.len() <= wave.node.out.len()
            &&& forall|e: int|
                node.out.len() <= e < wave.node.out.len() ==> is_due_delivery(
                    node,
                    scope,
                    #[trigger] wave.node.out[e],
                )
            &&& forall|p: int|
                0 <= p < wave.votes.len() ==> node.has_peer((#[trigger] wave.votes[p]).0) && due_votes(
                    node,
                    scope,
                    wave.votes[p],
                )
        }),
    decreases peers.len(),
{
    if peers.len() == 0 {
        assert forall|i: int| 0 <= i < node.blocks.len() implies same_shape(
            (#[trigger] node.blocks[i]).1,
            node.blocks[i].1,
        ) by {}
    } else {
        let short = peers.drop_last();
        let peer = peers.last();
        assert forall|p: int| 0 <= p < short.len() implies node.has_peer(#[trigger] short[p]) by {
            assert(short[p] == peers[p]);
        }
        lemma_wave_due(node, scope, short);
        let rest = node.wave(scope, short);
        let wave = node.wave(scope, peers);
        let blocks = rest.node.blocks;
        assert forall|i: int| 0 <= i < blocks.len() implies dict::keys_unique((#[trigger] blocks[i]).1.known_by) by {
            assert(same_shape(node.blocks[i].1, blocks[i].1));
        }
        lemma_parcel_source(blocks, scope, peer, node.topologies);
        let found = parcel(blocks, scope, peer, node.topologies);
        assert forall|i: int| 0 <= i < node.blocks.len() implies same_shape(
            (#[trigger] node.blocks[i]).1,
            found.blocks[i].1,
        ) by {
            assert(same_shape(node.blocks[i].1, blocks[i].1));
            assert(same_shape(blocks[i].1, found.blocks[i].1));
            assert forall|other: PeerId| #[trigger] found.blocks[i].1.aware(other) implies node.blocks[i].1.aware(
                other,
            ) by {
                assert(blocks[i].1.aware(other));
            }
        }
        assert(peers[peers.len() - 1] == peer);
        let middle = Node { blocks: found.blocks, ..rest.node };
        assert forall|e: int| node.out.len() <= e < wave.node.out.len() implies is_due_delivery(
            node,
            scope,
            #[trigger] wave.node.out[e],
        ) by {
            if e < rest.node.out.len() {
                assert(wave.node.out[e] == rest.node.out[e]);
            } else {
                lemma_assignments_due(node, scope, peer, middle, found.assignments, blocks, e);
            }
        }
        assert forall|p: int| 0 <= p < wave.votes.len() implies node.has_peer((#[trigger] wave.votes[p]).0)
            && due_votes(node, scope, wave.votes[p]) by {
            if p < rest.votes.len() {
                assert(wave.votes[p] == rest.votes[p]);
            } else {
                let packet = wave.votes[p];
                assert(packet == (peer, found.votes));
                assert forall|m: int| 0 <= m < packet.1.len() implies owes_a_vote(
                    node.blocks,
                    scope,
                    peer,
                    node.topologies,
                    #[trigger] packet.1[m],
                ) by {
                    assert(owes_a_vote(blocks, scope, peer, node.topologies, found.votes[m]));
                    let (i, k) = choose|i: int, k: int|
                        owes_at(blocks, scope, peer, node.topologies, i, k) && (
                        #[trigger] blocks[i].1.entries[k]).approvals.contains(found.votes[m]);
                    lemma_owed_before(node.blocks, blocks, scope, peer, node.topologies, i, k);
                    assert(node.blocks[i].1.entries[k].approvals.contains(packet.1[m]));
                }
            }
        }
    }
}

spec fn due_votes(node: Node, scope: Scope, packet: (PeerId, Seq<IndirectSignedApprovalVoteV2>)) -> bool {
    forall|m: int|
        0 <= m < packet.1.len() ==> owes_a_vote(
            node.blocks,
            scope,
            packet.0,
            node.topologies,
            #[trigger] packet.1[m],
        )
}

proof fn lemma_assignments_due(
    node: Node,
    scope: Scope,
    peer: PeerId,
    middle: Node,
    assignments: Seq<Assignment>,
    blocks: Seq<(BlockHash, Block)>,
    e: int,
)
    requires
        dict::keys_unique(node.peers),
        node.has_peer(peer),
        middle.peers == node.peers,
        same_shapes(node.blocks, blocks),
        middle.out.len() <= e < middle.assignments_sent(assignments, seq![peer]).out.len(),
        forall|m: int|
            0 <= m < assignments.len() ==> owes_assignment(
                blocks,
                scope,
                peer,
                node.topologies,
                #[trigger] assignments[m],
            ),
    ensures
        is_due_delivery(node, scope, middle.assignments_sent(assignments, seq![peer]).out[e]),
{
    assignments_go_to_the_receivers_only(middle, assignments, seq![peer], e, 0);
    let versions = middle.versions_of(seq![peer]);
    peers_get_their_own_version(assignments, Seq::empty(), versions);
    let n = e - middle.out.len();
    assert(well_addressed(
        assignment_sends(assignments, versions)[n],
        versions,
        MAX_ASSIGNMENT_BATCH_SIZE as nat,
    ));
    if let Effect::Send(list, note) = middle.assignments_sent(assignments, seq![peer]).out[e] {
        assert forall|r: int| 0 <= r < list.len() implies #[trigger] list[r] == peer by {
            assignments_go_to_the_receivers_only(middle, assignments, seq![peer], e, r);
        }
        assert forall|j: int| 0 <= j < note.size() implies #[trigger] is_due(node, scope, list[0], note, j) by {
            assert(brings_one_assignment(note, j, assignments));
            let m = choose|m: int| 0 <= m < assignments.len() && #[trigger] note.brings_assignment(j, assignments[m]);
            assert(owes_assignment(blocks, scope, peer, node.topologies, assignments[m]));
            let (i, k) = choose|i: int, k: int|
                owes_at(blocks, scope, peer, node.topologies, i, k) && (#[trigger] blocks[i].1.entries[k]).assignment
                    == assignments[m];
            lemma_owed_before(node.blocks, blocks, scope, peer, node.topologies, i, k);
            assert(note.brings_assignment(j, node.blocks[i].1.entries[k].assignment));
        }
    }
}

proof fn lemma_packets_due(node: Node, scope: Scope, start: Node, packets: Seq<(PeerId, Seq<IndirectSignedApprovalVoteV2>)>)
    requires
        dict::keys_unique(node.peers),
        start.peers == node.peers,
        forall|p: int|
            0 <= p < packets.len() ==> node.has_peer((#[trigger] packets[p]).0) && due_votes(node, scope, packets[p]),
    ensures
        ({
            let end = start.packets_sent(packets);
            &&& end.peers == node.peers
            &&& start.out.len() <= end.out.len()
            &&& forall|e: int| 0 <= e < start.out.len() ==> #[trigger] end.out[e] == start.out[e]
            &&& forall|e: int|
                start.out.len() <= e < end.out.len() ==> is_due_delivery(node, scope, #[trigger] end.out[e])
        }),
    decreases packets.len(),
{
    if packets.len() > 0 {
        let short = packets.drop_last();
        let (peer, votes) = packets.last();
        assert forall|p: int| 0 <= p < short.len() implies node.has_peer((#[trigger] short[p]).0) && due_votes(
            node,
            scope,
            short[p],
        ) by {
            assert(short[p] == packets[p]);
        }
        lemma_packets_due(node, scope, start, short);
        let rest = start.packets_sent(short);
        let end = start.packets_sent(packets);
        assert(packets[packets.len() - 1] == (peer, votes));
        assert(due_votes(node, scope, (peer, votes)));
        assert forall|e: int| start.out.len() <= e < end.out.len() implies is_due_delivery(
            node,
            scope,
            #[trigger] end.out[e],
        ) by {
            if e < rest.out.len() {
                assert(end.out[e] == rest.out[e]);
            } else {
                lemma_votes_due(node, scope, peer, rest, votes, e);
            }
        }
    }
}

proof fn lemma_votes_due(
    node: Node,
    scope: Scope,
    peer: PeerId,
    middle: Node,
    votes: Seq<IndirectSignedApprovalVoteV2>,
    e: int,
)
    requires
        dict::keys_unique(node.peers),
        node.has_peer(peer),
        middle.peers == node.peers,
        middle.out.len() <= e < middle.approvals_sent(votes, seq![peer]).out.len(),
        due_votes(node, scope, (peer, votes)),
    ensures
        is_due_delivery(node, scope, middle.approvals_sent(votes, seq![peer]).out[e]),
{
    votes_go_to_the_receivers_only(middle, votes, seq![peer], e, 0);
    let versions = middle.versions_of(seq![peer]);
    peers_get_their_own_version(Seq::empty(), votes, versions);
    let n = e - middle.out.len();
    assert(well_addressed(approval_sends(votes, versions)[n], versions, MAX_APPROVAL_BATCH_SIZE as nat));
    if let Effect::Send(list, note) = middle.approvals_sent(votes, seq![peer]).out[e] {
        assert forall|r: int| 0 <= r < list.len() implies #[trigger] list[r] == peer by {
            votes_go_to_the_receivers_only(middle, votes, seq![peer], e, r);
        }
        assert forall|j: int| 0 <= j < note.size() implies #[trigger] is_due(node, scope, list[0], note, j) by {
            assert(brings_one_vote(note, j, votes));
            let m = choose|m: int| 0 <= m < votes.len() && #[trigger] note.brings_vote(j, votes[m]);
            let packet = (peer, votes);
            assert(owes_a_vote(node.blocks, scope, packet.0, node.topologies, packet.1[m]));
            let (i, k) = choose|i: int, k: int|
                owes_at(node.blocks, scope, peer, node.topologies, i, k) && (
                #[trigger] node.blocks[i].1.entries[k]).approvals.contains(votes[m]);
            let approvals = node.blocks[i].1.entries[k].approvals;
            let v = choose|v: int| 0 <= v < approvals.len() && approvals[v] == votes[m];
            assert(note.brings_vote(j, approvals[v]));
            assert(brings_one_vote(note, j, node.blocks[i].1.entries[k].approvals));
        }
    }
}

/// Sending the messages about some blocks to everybody sends each peer only what is due to it: every notification goes
/// to one connected peer, and every message in it follows from an assignment about one of those blocks, which the peer
/// is aware of, whose routing demands that the peer gets it.
pub proof fn nobody_gets_what_is_not_due(node: Node, scope: Scope, e: int)
    requires
        dict::keys_unique(node.peers),
        forall|i: int| 0 <= i < node.blocks.len() ==> dict::keys_unique((#[trigger] node.blocks[i]).1.known_by),
        node.out.len() <= e < node.propagated(scope).out.len(),
    ensures
        is_due_delivery(node, scope, node.propagated(scope).out[e]),
{
    let peers = node.peer_ids();
    assert forall|p: int| 0 <= p < peers.len() implies node.has_peer(#[trigger] peers[p]) by {
        assert(node.peers[p].0 == peers[p]);
    }
    lemma_wave_due(node, scope, peers);
    let wave = node.wave(scope, peers);
    lemma_packets_due(node, scope, wave.node, wave.votes);
    if e < wave.node.out.len() {
        assert(node.propagated(scope).out[e] == wave.node.out[e]);
    }
}

} // verus!
