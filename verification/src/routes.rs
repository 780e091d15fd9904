//! Where messages go, said of the peers and the validators in the grid.
use crate::block::{Block, Entry};
use crate::choices::{
    luck_decides_in_larger_networks, newcomers_are_chosen_for_messages, small_networks_choose_the_first_four,
};
use crate::circulation::{eligible, follows, reaches, routing_of};
use crate::dict;
use crate::knowledge::{approval_subject, assignment_subject, MessageKind};
use crate::laws::{
    assignments_reach_their_receivers, few_peers_are_chosen, votes_reach_their_receivers,
};
use crate::lists;
use crate::messages::{Assignment, IndirectSignedApprovalVoteV2};
use crate::peers::Tour;
use crate::primitives::{PeerId, SessionIndex};
use crate::random::Luck;
use crate::state::Node;
use crate::topology::{Outlook, RequiredRouting};
use vstd::prelude::*;

verus! {

/// Whether a peer is noted as aware of a block.
pub open spec fn sees(block: Block, peer: PeerId) -> bool {
    exists|i: int| 0 <= i < block.known_by.len() && (#[trigger] block.known_by[i]).0 == peer
}

/// Whether a routing demands that a peer gets a message: everybody does with `All`, and a neighbor in a dimension
/// that the routing names does.
pub open spec fn demanded(routing: RequiredRouting, topology: Option<Outlook>, peer: PeerId) -> bool {
    topology matches Some(t) && {
        ||| routing is All
        ||| (routing is GridX || routing is GridXY) && t.grid.peers_x.contains(peer)
        ||| (routing is GridY || routing is GridXY) && t.grid.peers_y.contains(peer)
    }
}

/// Whether a peer is on the way of an entry: it was chosen at random, or the routing of the entry demands it.
pub open spec fn on_the_way(entry: Entry, topology: Option<Outlook>, peer: PeerId) -> bool {
    ||| exists|i: int| 0 <= i < entry.randomly_routed.len() && #[trigger] entry.randomly_routed[i] == peer
    ||| demanded(entry.routing, topology, peer)
}

/// Whether a set of assigned candidates and a set of approved ones have one in common.
pub open spec fn share_a_candidate(entry: Entry, vote: IndirectSignedApprovalVoteV2) -> bool {
    exists|c: int| #[trigger] entry.assignment.candidates.has(c) && vote.candidate_indices.has(c)
}

/// The topology of a session is the one that was learned for it, and there is none where none was learned.
pub proof fn topologies_are_those_of_their_session(node: Node, session: SessionIndex, i: int)
    requires
        forall|a: int, b: int|
            0 <= a < b < node.topologies.len() ==> (#[trigger] node.topologies[a]).0 != (
            #[trigger] node.topologies[b]).0,
    ensures
        0 <= i < node.topologies.len() && node.topologies[i].0 == session ==> node.topology_of(session) == Some(
            node.topologies[i].1,
        ),
        (forall|j: int| 0 <= j < node.topologies.len() ==> (#[trigger] node.topologies[j]).0 != session)
            ==> node.topology_of(session) is None,
        node.topology_of(session) is Some ==> exists|j: int|
            0 <= j < node.topologies.len() && #[trigger] node.topologies[j] == (
                session,
                node.topology_of(session)->0,
            ),
{
    let list = node.topologies;
    assert(dict::keys_unique(list));
    if 0 <= i < list.len() && list[i].0 == session {
        dict::lemma_dict_at(list, i);
    }
    if dict::has_key(list, session) {
        let j = dict::index_of_key(list, session);
        assert(list[j].0 == session);
        assert(list[j] == (session, list[j].1));
    }
}

proof fn lemma_on_the_way(entry: Entry, topology: Option<Outlook>, peer: PeerId)
    ensures
        reaches(entry, topology, peer) <==> on_the_way(entry, topology, peer),
{
    if entry.randomly_routed.contains(peer) {
        let i = choose|i: int| 0 <= i < entry.randomly_routed.len() && entry.randomly_routed[i] == peer;
        assert(entry.randomly_routed[i] == peer);
    }
}

/// Who gets a new assignment, and nobody else: the peers that are aware of the block, other than the one
/// that sent it, as far as they were chosen at random or are neighbors.  The node's own goes to all
/// neighbors; that of another validator goes to the neighbors in the column if the validator is in the row,
/// and to those in the row if it is in the column.  Without a topology nobody gets it.
pub proof fn assignments_go_along_the_grid(
    block: Block,
    source: Option<PeerId>,
    assignment: Assignment,
    topology: Option<Outlook>,
    n_peers_total: nat,
    luck: Luck,
    peer: PeerId,
)
    ensures
        ({
            let passed = block.circulated_assignment(source, assignment, topology, n_peers_total, luck);
            let picked = passed.block.entries.last().randomly_routed;
            let validator = assignment.cert.validator;
            &&& topology is None ==> passed.receivers.len() == 0
            &&& topology matches Some(t) ==> (passed.receivers.contains(peer) <==> {
                &&& sees(block, peer)
                &&& source != Some(peer)
                &&& {
                    ||| exists|i: int| 0 <= i < picked.len() && #[trigger] picked[i] == peer
                    ||| source is None && (t.grid.peers_x.contains(peer) || t.grid.peers_y.contains(peer))
                    ||| source is Some && t.grid.validators_x.contains(validator) && t.grid.peers_y.contains(peer)
                    ||| source is Some && t.grid.validators_y.contains(validator) && t.grid.peers_x.contains(peer)
                }
            })
        }),
{
    let passed = block.circulated_assignment(source, assignment, topology, n_peers_total, luck);
    let entry = passed.block.entries.last();
    assignments_reach_their_receivers(block, source, assignment, topology, n_peers_total, luck, peer);
    lemma_on_the_way(entry, topology, peer);
    assert(entry.routing == routing_of(topology, assignment.cert.validator, source is None));
    assert(sees(block, peer) <==> block.aware(peer)) by {
        if block.aware(peer) {
            let i = dict::index_of_key(block.known_by, peer);
            assert(block.known_by[i].0 == peer);
        }
        if sees(block, peer) {
            let i = choose|i: int| 0 <= i < block.known_by.len() && (#[trigger] block.known_by[i]).0 == peer;
            assert(block.known_by[i].0 == peer);
        }
    }
    if topology is None {
        few_peers_are_chosen(
            block.peers(),
            eligible(source, topology, entry.routing),
            n_peers_total,
            luck,
        );
        if passed.receivers.len() > 0 {
            let other = passed.receivers[0];
            assert(passed.receivers.contains(other));
            assignments_reach_their_receivers(block, source, assignment, topology, n_peers_total, luck, other);
            assert(entry.randomly_routed.contains(other));
        }
    }
}

/// Who is chosen at random for a new assignment: at most four peers that are aware of the block, act for a
/// validator of the session, did not send the assignment, and are not among the neighbors that get it
/// anyway.
pub proof fn random_receivers_are_other_members(
    block: Block,
    source: Option<PeerId>,
    assignment: Assignment,
    topology: Option<Outlook>,
    n_peers_total: nat,
    luck: Luck,
    i: int,
)
    requires
        0 <= i < block.circulated_assignment(
            source,
            assignment,
            topology,
            n_peers_total,
            luck,
        ).block.entries.last().randomly_routed.len(),
    ensures
        ({
            let entry = block.circulated_assignment(
                source,
                assignment,
                topology,
                n_peers_total,
                luck,
            ).block.entries.last();
            let peer = entry.randomly_routed[i];
            let validator = assignment.cert.validator;
            &&& entry.randomly_routed.len() <= 4
            &&& sees(block, peer)
            &&& source != Some(peer)
            &&& topology matches Some(t) && {
                &&& t.members.contains(peer)
                &&& source is None ==> !t.grid.peers_x.contains(peer) && !t.grid.peers_y.contains(peer)
                &&& source is Some && t.grid.validators_x.contains(validator) ==> !t.grid.peers_y.contains(peer)
                &&& source is Some && t.grid.validators_y.contains(validator) ==> !t.grid.peers_x.contains(peer)
            }
        }),
{
    let passed = block.circulated_assignment(source, assignment, topology, n_peers_total, luck);
    let entry = passed.block.entries.last();
    let peer = entry.randomly_routed[i];
    few_peers_are_chosen(
        block.peers(),
        eligible(source, topology, entry.routing),
        n_peers_total,
        luck,
    );
    assert(entry.randomly_routed.contains(peer));
    assert(block.peers().contains(peer));
    let j = choose|j: int| 0 <= j < block.peers().len() && block.peers()[j] == peer;
    assert(block.known_by[j].0 == peer);
}

/// What is noted of a new assignment: one entry more, with the assignment, without votes, the node's own if
/// nobody sent it; and for every peer that gets it, and for nobody else, that it was sent.
pub proof fn passed_assignments_are_noted(
    block: Block,
    source: Option<PeerId>,
    assignment: Assignment,
    topology: Option<Outlook>,
    n_peers_total: nat,
    luck: Luck,
    i: int,
)
    ensures
        ({
            let passed = block.circulated_assignment(source, assignment, topology, n_peers_total, luck);
            let next = passed.block;
            let entry = next.entries.last();
            &&& next.entries.len() == block.entries.len() + 1
            &&& next.entries.drop_last() == block.entries
            &&& entry.assignment == assignment
            &&& entry.approvals.len() == 0
            &&& entry.local <==> source is None
            &&& next.knowledge == block.knowledge
            &&& next.known_by.len() == block.known_by.len()
            &&& 0 <= i < block.known_by.len() ==> {
                let was = block.known_by[i].1;
                let now = next.known_by[i].1;
                let subject = assignment_subject(assignment);
                &&& next.known_by[i].0 == block.known_by[i].0
                &&& now.received == was.received
                &&& !passed.receivers.contains(block.known_by[i].0) ==> now.sent == was.sent
                &&& passed.receivers.contains(block.known_by[i].0) ==> now.sent == if was.sent.contains_key(subject) {
                    was.sent
                } else {
                    was.sent.insert(subject, MessageKind::Assignment)
                }
            }
        }),
{
    let next = block.circulated_assignment(source, assignment, topology, n_peers_total, luck).block;
    assert(next.entries.drop_last() =~= block.entries);
}

/// Who gets a vote that is passed on, and nobody else: the peers that are aware of the block, other than the
/// one that sent it, as far as they are on the way of an assignment of the same validator that has a
/// candidate in common with the vote.
pub proof fn votes_go_the_way_of_their_validators_assignments(
    block: Block,
    source: Option<PeerId>,
    vote: IndirectSignedApprovalVoteV2,
    topology: Option<Outlook>,
    peer: PeerId,
)
    ensures
        block.circulated_approval(source, vote, topology).1.contains(peer) <==> {
            &&& sees(block, peer)
            &&& source != Some(peer)
            &&& exists|k: int|
                {
                    &&& 0 <= k < block.entries.len()
                    &&& (#[trigger] block.entries[k]).assignment.cert.validator == vote.validator
                    &&& share_a_candidate(block.entries[k], vote)
                    &&& on_the_way(block.entries[k], topology, peer)
                }
        },
{
    votes_reach_their_receivers(block, source, vote, topology, peer);
    assert(sees(block, peer) <==> block.aware(peer)) by {
        if block.aware(peer) {
            let i = dict::index_of_key(block.known_by, peer);
            assert(block.known_by[i].0 == peer);
        }
        if sees(block, peer) {
            let i = choose|i: int| 0 <= i < block.known_by.len() && (#[trigger] block.known_by[i]).0 == peer;
            assert(block.known_by[i].0 == peer);
        }
    }
    assert forall|k: int| 0 <= k < block.entries.len() implies (follows(#[trigger] block.entries[k], vote) <==> {
        &&& block.entries[k].assignment.cert.validator == vote.validator
        &&& share_a_candidate(block.entries[k], vote)
    }) by {
        lemma_follows(block.entries[k], vote);
    }
    assert forall|k: int| 0 <= k < block.entries.len() implies (reaches(#[trigger] block.entries[k], topology, peer)
        <==> on_the_way(block.entries[k], topology, peer)) by {
        lemma_on_the_way(block.entries[k], topology, peer);
    }
    if exists|k: int|
        0 <= k < block.entries.len() && follows(#[trigger] block.entries[k], vote) && reaches(
            block.entries[k],
            topology,
            peer,
        ) {
        let k = choose|k: int|
            0 <= k < block.entries.len() && follows(#[trigger] block.entries[k], vote) && reaches(
                block.entries[k],
                topology,
                peer,
            );
        assert(block.entries[k].assignment.cert.validator == vote.validator);
    }
}

proof fn lemma_follows(entry: Entry, vote: IndirectSignedApprovalVoteV2)
    ensures
        follows(entry, vote) <==> entry.assignment.cert.validator == vote.validator && share_a_candidate(entry, vote),
{
}

/// Where a vote that is passed on is noted: under the assignments of its own validator that have a candidate
/// in common with it, as their last vote, and nowhere else; and for every peer that gets it, and for nobody
/// else, that it was sent.
pub proof fn passed_votes_are_noted(
    block: Block,
    source: Option<PeerId>,
    vote: IndirectSignedApprovalVoteV2,
    topology: Option<Outlook>,
    k: int,
    i: int,
)
    ensures
        ({
            let (next, receivers) = block.circulated_approval(source, vote, topology);
            &&& next.entries.len() == block.entries.len()
            &&& 0 <= k < block.entries.len() ==> {
                let was = block.entries[k];
                let now = next.entries[k];
                &&& now == (Entry { approvals: now.approvals, ..was })
                &&& was.assignment.cert.validator == vote.validator && share_a_candidate(was, vote) ==> now.approvals
                    == was.approvals.push(vote)
                &&& !(was.assignment.cert.validator == vote.validator && share_a_candidate(was, vote))
                    ==> now.approvals == was.approvals
            }
            &&& next.knowledge == block.knowledge
            &&& next.known_by.len() == block.known_by.len()
            &&& 0 <= i < block.known_by.len() ==> {
                let was = block.known_by[i].1;
                let now = next.known_by[i].1;
                let subject = approval_subject(vote);
                &&& next.known_by[i].0 == block.known_by[i].0
                &&& now.received == was.received
                &&& !receivers.contains(block.known_by[i].0) ==> now.sent == was.sent
                &&& receivers.contains(block.known_by[i].0) ==> now.sent == was.sent.insert(
                    subject,
                    MessageKind::Approval,
                )
            }
        }),
{
    let (next, receivers) = block.circulated_approval(source, vote, topology);
    if 0 <= k < block.entries.len() {
        lemma_follows(block.entries[k], vote);
    }
    if 0 <= i < block.known_by.len() && receivers.contains(block.known_by[i].0) {
        let was = block.known_by[i].1;
        let subject = approval_subject(vote);
        assert(next.known_by[i].1.sent =~= was.sent.insert(subject, MessageKind::Approval));
    }
}

/// In a network of fewer than twenty-five connected peers a new assignment goes, besides the neighbors, to everybody
/// who acts for a validator of the session and is aware of the block, up to four; no draw is used up.
pub proof fn small_networks_pass_assignments_to_all_members(
    node: Node,
    source: Option<PeerId>,
    assignment: Assignment,
    i: int,
    p: int,
)
    requires
        dict::keys_unique(node.blocks),
        0 <= i < node.blocks.len(),
        node.blocks[i].0 == assignment.cert.block_hash,
        0 < node.peers.len() < 25,
        0 <= p < node.blocks[i].1.known_by.len(),
        source != Some(node.blocks[i].1.known_by[p].0),
        node.topology_of(node.blocks[i].1.session) matches Some(t) && t.members.contains(
            node.blocks[i].1.known_by[p].0,
        ),
    ensures
        ({
            let next = node.assignment_circulated(source, assignment);
            let entry = next.blocks[i].1.entries.last();
            let topology = node.topology_of(node.blocks[i].1.session);
            let peer = node.blocks[i].1.known_by[p].0;
            &&& next.luck == node.luck
            &&& demanded(entry.routing, topology, peer) || entry.randomly_routed.contains(peer)
                || entry.randomly_routed.len() == 4
        }),
{
    dict::lemma_dict_at(node.blocks, i);
    let block = node.blocks[i].1;
    let peer = block.known_by[p].0;
    let topology = node.topology_of(block.session);
    let routing = routing_of(topology, assignment.cert.validator, source is None);
    let fit = eligible(source, topology, routing);
    small_networks_choose_the_first_four(block.peers(), fit, node.peers.len(), node.luck);
    lists::lemma_filter_contains(block.peers(), fit, peer);
    assert(block.peers()[p] == peer);
    assert(block.peers().contains(peer));
    if !demanded(routing, topology, peer) {
        assert(fit(peer));
    }
}

/// In a network of at least twenty-five connected peers a new assignment goes to nobody but the neighbors if no draw
/// is lucky.
pub proof fn large_networks_choose_by_luck(
    node: Node,
    source: Option<PeerId>,
    assignment: Assignment,
    i: int,
    outcomes: Seq<bool>,
)
    requires
        dict::keys_unique(node.blocks),
        0 <= i < node.blocks.len(),
        node.blocks[i].0 == assignment.cert.block_hash,
        node.peers.len() >= 25,
        node.luck == (Luck::Scripted { outcomes }),
        forall|o: int| 0 <= o < outcomes.len() ==> !#[trigger] outcomes[o],
    ensures
        node.assignment_circulated(source, assignment).blocks[i].1.entries.last().randomly_routed.len() == 0,
{
    dict::lemma_dict_at(node.blocks, i);
    let block = node.blocks[i].1;
    let topology = node.topology_of(block.session);
    let routing = routing_of(topology, assignment.cert.validator, source is None);
    luck_decides_in_larger_networks(
        block.peers(),
        eligible(source, topology, routing),
        node.peers.len(),
        outcomes,
    );
}

/// In a network of fewer than twenty-five connected peers one that becomes aware of a block is chosen for every
/// assignment that was given to fewer than four, if it acts for a validator of the session and does not get it anyway.
pub proof fn small_networks_choose_newcomers(tour: Tour, peer: PeerId, i: int, k: int)
    requires
        dict::keys_unique(tour.node.blocks),
        0 <= i < tour.node.blocks.len(),
        0 <= k < tour.node.blocks[i].1.entries.len(),
        0 < tour.node.peers.len() < 25,
        tour.node.topology_of(tour.node.blocks[i].1.session) matches Some(t) && t.members.contains(peer),
    ensures
        ({
            let was = tour.node.blocks[i].1.entries[k];
            let now = tour.greeted(peer, tour.node.blocks[i].0).node.blocks[i].1.entries[k];
            let topology = tour.node.topology_of(tour.node.blocks[i].1.session);
            now.randomly_routed == if demanded(was.routing, topology, peer) || was.randomly_routed.len() >= 4 {
                was.randomly_routed
            } else {
                was.randomly_routed.push(peer)
            }
        }),
{
    dict::lemma_dict_at(tour.node.blocks, i);
    let block = tour.node.blocks[i].1;
    newcomers_are_chosen_for_messages(
        block.entries,
        peer,
        tour.node.topology_of(block.session),
        tour.node.peers.len(),
        tour.node.luck,
        k,
    );
}

} // verus!
