//! What holds of whole sequences of messages.
use crate::block::Block;
use crate::circulation::{eligible, follows, pick_random, reaches, receiver_of, routed, vote_due};
use crate::dict;
use crate::knowledge::{knows, MessageKind, MessageSubject, PeerMemory};
use crate::lists;
use crate::messages::{Assignment, IndirectSignedApprovalVoteV2};
use crate::primitives::PeerId;
use crate::random::{Luck, RANDOM_CIRCULATION};
use crate::reputation::{BENEFIT_VALID_MESSAGE, COST_DUPLICATE_MESSAGE, COST_UNEXPECTED_MESSAGE};
use crate::topology::Outlook;
use vstd::prelude::*;

verus! {

/// The memory of a peer, once it has been replaced, is the new one, and every peer is still noted once.
proof fn lemma_memory_update(block: Block, peer: PeerId, memory: PeerMemory)
    requires
        dict::keys_unique(block.known_by),
        block.aware(peer),
    ensures
        block.with_memory(peer, memory).aware(peer),
        block.with_memory(peer, memory).memory(peer) == memory,
        dict::keys_unique(block.with_memory(peer, memory).known_by),
{
    let i = dict::index_of_key(block.known_by, peer);
    assert(0 <= i < block.known_by.len() && block.known_by[i].0 == peer);
    dict::lemma_dict_update(block.known_by, i, memory);
    let next = block.with_memory(peer, memory).known_by;
    assert(next =~= block.known_by.update(i, (block.known_by[i].0, memory)));
    assert(next[i].0 == peer);
    dict::lemma_dict_at(next, i);
}

/// A peer may send a message that it was sent itself once without being punished; from then on every
/// repetition is.
pub proof fn duplicates_are_punished_from_the_second_time(
    block: Block,
    peer: PeerId,
    subject: MessageSubject,
    kind: MessageKind,
)
    requires
        dict::keys_unique(block.known_by),
        block.aware(peer),
        knows(block.memory(peer).sent, subject, kind),
        !knows(block.memory(peer).received, subject, kind),
    ensures
        block.screened(peer, subject, kind).reports.len() == 0,
        !block.screened(peer, subject, kind).proceed,
        ({
            let second = block.screened(peer, subject, kind).block.screened(peer, subject, kind);
            &&& second.reports == seq![COST_DUPLICATE_MESSAGE]
            &&& !second.proceed
            &&& second.block.screened(peer, subject, kind) == second
        }),
{
    let memory = block.memory(peer);
    lemma_memory_update(block, peer, memory.after_received(subject, kind));
    let once = block.screened(peer, subject, kind).block;
    assert(knows(once.memory(peer).received, subject, kind));
    let twice = once.screened(peer, subject, kind).block;
    let i = dict::index_of_key(once.known_by, peer);
    assert(twice.known_by =~= once.known_by);
    assert(twice == once);
}

/// A peer that is not aware of a block is punished for every message about it that the node has, not
/// only for the first one, and the block is left as it is.
pub proof fn out_of_view_messages_cost_every_time(
    block: Block,
    peer: PeerId,
    subject: MessageSubject,
    kind: MessageKind,
)
    requires
        !block.aware(peer),
        knows(block.knowledge, subject, kind),
    ensures
        block.screened(peer, subject, kind).block == block,
        block.screened(peer, subject, kind).reports == seq![COST_UNEXPECTED_MESSAGE, BENEFIT_VALID_MESSAGE],
        !block.screened(peer, subject, kind).proceed,
{
    assert(block.screened(peer, subject, kind).reports =~= seq![COST_UNEXPECTED_MESSAGE, BENEFIT_VALID_MESSAGE]);
}

/// A message that the node has learned of is not checked again, whoever sends it.
pub proof fn known_messages_are_not_checked_again(
    block: Block,
    peer: PeerId,
    subject: MessageSubject,
    kind: MessageKind,
)
    ensures
        !block.after_learned(subject, kind).screened(peer, subject, kind).proceed,
{
}

/// No more than [`RANDOM_CIRCULATION`] peers are chosen at random, and all of them are eligible.
pub proof fn few_peers_are_chosen(
    peers: Seq<PeerId>,
    fit: spec_fn(PeerId) -> bool,
    n_peers_total: nat,
    luck: Luck,
)
    ensures
        pick_random(peers, fit, n_peers_total, luck).0.len() <= RANDOM_CIRCULATION,
        forall|peer: PeerId| #[trigger]
            pick_random(peers, fit, n_peers_total, luck).0.contains(peer) ==> fit(peer) && peers.contains(peer),
    decreases peers.len(),
{
    if peers.len() > 0 {
        few_peers_are_chosen(peers.drop_last(), fit, n_peers_total, luck);
        let rest = pick_random(peers.drop_last(), fit, n_peers_total, luck).0;
        let all = pick_random(peers, fit, n_peers_total, luck).0;
        assert forall|peer: PeerId| #[trigger] all.contains(peer) implies fit(peer) && peers.contains(peer) by {
            let i = choose|i: int| 0 <= i < all.len() && all[i] == peer;
            if i < rest.len() {
                assert(rest[i] == peer);
                assert(rest.contains(peer));
                let j = choose|j: int| 0 <= j < peers.drop_last().len() && peers.drop_last()[j] == peer;
                assert(peers[j] == peer);
            } else {
                assert(peers[peers.len() - 1] == peer);
            }
        }
    }
}

/// Who gets a new assignment: every peer that is aware of the block, did not send it, and is demanded
/// by the topology or among the few that are chosen at random.
pub proof fn assignments_reach_their_receivers(
    block: Block,
    source: Option<PeerId>,
    assignment: Assignment,
    topology: Option<Outlook>,
    n_peers_total: nat,
    luck: Luck,
    peer: PeerId,
)
    ensures
        ({
            let passed = block.circulated_assignment(source, assignment, topology, n_peers_total, luck);
            let entry = passed.block.entries.last();
            &&& passed.receivers.contains(peer) <==> block.aware(peer) && source != Some(peer) && reaches(
                entry,
                topology,
                peer,
            )
            &&& entry.randomly_routed.len() <= RANDOM_CIRCULATION
            &&& entry.randomly_routed.contains(peer) ==> !routed(topology, entry.routing, peer)
        }),
{
    let passed = block.circulated_assignment(source, assignment, topology, n_peers_total, luck);
    let entry = passed.block.entries.last();
    few_peers_are_chosen(block.peers(), eligible(source, topology, entry.routing), n_peers_total, luck);
    lists::lemma_filter_contains(block.peers(), receiver_of(entry, source, topology), peer);
    lemma_peers_aware(block, peer);
}

/// The list of the peers that are aware of a block holds exactly those.
pub proof fn lemma_peers_aware(block: Block, peer: PeerId)
    ensures
        block.peers().contains(peer) <==> block.aware(peer),
{
    if block.peers().contains(peer) {
        let i = choose|i: int| 0 <= i < block.peers().len() && block.peers()[i] == peer;
        assert(block.known_by[i].0 == peer);
    }
    if block.aware(peer) {
        let i = dict::index_of_key(block.known_by, peer);
        assert(block.peers()[i] == peer);
    }
}

/// Who gets a new vote: every peer that is aware of the block, did not send it, and gets the messages
/// of an assignment that the vote follows from.
pub proof fn votes_reach_their_receivers(
    block: Block,
    source: Option<PeerId>,
    vote: IndirectSignedApprovalVoteV2,
    topology: Option<Outlook>,
    peer: PeerId,
)
    ensures
        block.circulated_approval(source, vote, topology).1.contains(peer) <==> block.aware(peer) && source != Some(
            peer,
        ) && exists|k: int|
            0 <= k < block.entries.len() && follows(#[trigger] block.entries[k], vote) && reaches(
                block.entries[k],
                topology,
                peer,
            ),
{
    lists::lemma_filter_contains(block.peers(), vote_due(block.entries, source, vote, topology), peer);
    lemma_peers_aware(block, peer);
}

/// A vote that follows from one assignment alone goes to the same peers as that assignment did, in the
/// same order: the random choice is made once.
pub proof fn votes_take_the_way_of_their_assignment(
    block: Block,
    source: Option<PeerId>,
    assignment: Assignment,
    vote: IndirectSignedApprovalVoteV2,
    topology: Option<Outlook>,
    n_peers_total: nat,
    luck: Luck,
)
    requires
        vote.validator == assignment.cert.validator,
        assignment.candidates.overlaps(vote.candidate_indices),
        forall|k: int| 0 <= k < block.entries.len() ==> !follows(#[trigger] block.entries[k], vote),
    ensures
        ({
            let passed = block.circulated_assignment(source, assignment, topology, n_peers_total, luck);
            passed.block.circulated_approval(source, vote, topology).1 == passed.receivers
        }),
{
    let passed = block.circulated_assignment(source, assignment, topology, n_peers_total, luck);
    let entries = passed.block.entries;
    let entry = entries.last();
    let last = block.entries.len() as int;
    assert(passed.block.peers() =~= block.peers());
    let by_vote = vote_due(entries, source, vote, topology);
    let by_entry = receiver_of(entry, source, topology);
    assert forall|peer: PeerId| #[trigger] by_vote(peer) == by_entry(peer) by {
        assert(follows(entries[last], vote));
        if by_vote(peer) {
            let k = choose|k: int|
                0 <= k < entries.len() && follows(#[trigger] entries[k], vote) && reaches(entries[k], topology, peer);
            if k < last {
                assert(entries[k] == block.entries[k]);
            }
        }
    }
    assert(by_vote =~= by_entry);
}

} // verus!
