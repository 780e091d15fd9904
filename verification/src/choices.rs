//! Who is chosen at random, and what is offered to whom, said of the peers and the messages themselves.
use crate::block::{Block, Entry};
use crate::circulation::{pick_random, routed};
use crate::delivery::{lemma_entries_offered, sends_about, sends_vote_about};
use crate::dict;
use crate::knowledge::{
    approval_subject, assignment_subject, knows, Known, MessageKind, MessageSubject, PeerMemory,
};
use crate::messages::{Assignment, IndirectSignedApprovalVoteV2};
use crate::offers::{routed_entries, select_entries, Offer};
use crate::peers::{unaware, Tour};
use crate::primitives::{BlockHash, BlockNumber, PeerId, SessionIndex};
use crate::propagation::{parcel, Scope};
use crate::random::{luck_after_sample, ratio_draw, sampled, Luck};
use crate::routes::demanded;
use crate::stories::lemma_selected;
use crate::topology::Outlook;
use vstd::prelude::*;

verus! {

/// Four peers at most are chosen for a message.  In a network of fewer than twenty-five everybody who is asked about
/// is, up to that; in a larger one a draw decides, with odds of twenty-five to the size of the network, and only
/// then a draw is used up.
pub proof fn chances_depend_on_the_size_of_the_network(sent: nat, n_peers_total: nat, luck: Luck)
    ensures
        sent >= 4 || n_peers_total == 0 ==> !sampled(sent, n_peers_total, luck),
        sent < 4 && 0 < n_peers_total < 25 ==> sampled(sent, n_peers_total, luck),
        sent < 4 && 25 <= n_peers_total <= u32::MAX ==> {
            &&& sampled(sent, n_peers_total, luck) == luck.outcome(25, n_peers_total as u32)
            &&& luck_after_sample(sent, n_peers_total, luck) == luck.rest(25, n_peers_total as u32)
        },
        sent < 4 && n_peers_total > u32::MAX ==> {
            &&& sampled(sent, n_peers_total, luck) == luck.outcome(25, u32::MAX)
            &&& luck_after_sample(sent, n_peers_total, luck) == luck.rest(25, u32::MAX)
        },
        sent >= 4 || n_peers_total < 25 ==> luck_after_sample(sent, n_peers_total, luck) == luck,
{
}

/// A draw that is written down gives what is written first, and leaves the rest; where nothing is left it gives no.
/// One from a seed gives what the generator gives at its position.
pub proof fn draws_are_used_up_in_order(outcomes: Seq<bool>, seed: u64, word_pos: u128, numerator: u32, denominator: u32)
    ensures
        ({
            let written = Luck::Scripted { outcomes };
            &&& outcomes.len() == 0 ==> !written.outcome(numerator, denominator) && written.rest(
                numerator,
                denominator,
            ) == written
            &&& outcomes.len() > 0 ==> written.outcome(numerator, denominator) == outcomes[0] && written.rest(
                numerator,
                denominator,
            ) == (Luck::Scripted { outcomes: outcomes.skip(1) })
        }),
        ({
            let seeded = Luck::Seeded { seed, word_pos };
            let drawn = ratio_draw(seed, word_pos, numerator, denominator);
            &&& seeded.outcome(numerator, denominator) == drawn.0
            &&& seeded.rest(numerator, denominator) == (Luck::Seeded { seed, word_pos: drawn.1 })
        }),
{
    if outcomes.len() > 0 {
        assert(outcomes.skip(1) =~= outcomes.drop_first());
    }
}

/// In a network of fewer than twenty-five the first four of those who come into question are chosen, in their order,
/// and no draw is used up.
pub proof fn small_networks_choose_the_first_four(
    peers: Seq<PeerId>,
    fit: spec_fn(PeerId) -> bool,
    n_peers_total: nat,
    luck: Luck,
)
    requires
        0 < n_peers_total < 25,
    ensures
        ({
            let all = peers.filter(fit);
            let (picked, left) = pick_random(peers, fit, n_peers_total, luck);
            &&& left == luck
            &&& all.len() <= 4 ==> picked == all
            &&& all.len() > 4 ==> picked == all.take(4)
        }),
    decreases peers.len(),
{
    reveal(Seq::filter);
    if peers.len() > 0 {
        small_networks_choose_the_first_four(peers.drop_last(), fit, n_peers_total, luck);
        let before = peers.drop_last().filter(fit);
        let all = peers.filter(fit);
        let picked = pick_random(peers, fit, n_peers_total, luck).0;
        if fit(peers.last()) {
            assert(all =~= before.push(peers.last()));
            if all.len() <= 4 {
                assert(picked =~= all);
            } else {
                assert(picked =~= all.take(4));
            }
        } else {
            assert(all =~= before);
        }
    }
}

/// Asking about one peer more changes nothing of who was chosen before.  It uses up a draw, and lets the draw decide, only
/// where the peer comes into question, fewer than four have been chosen, and the network is not small.
pub proof fn each_peer_is_asked_about_once(
    peers: Seq<PeerId>,
    peer: PeerId,
    fit: spec_fn(PeerId) -> bool,
    n_peers_total: nat,
    luck: Luck,
)
    requires
        n_peers_total <= u32::MAX,
    ensures
        ({
            let (before, left) = pick_random(peers, fit, n_peers_total, luck);
            let (after, rest) = pick_random(peers.push(peer), fit, n_peers_total, luck);
            &&& !fit(peer) || before.len() >= 4 || n_peers_total == 0 ==> after == before && rest == left
            &&& fit(peer) && before.len() < 4 && 0 < n_peers_total < 25 ==> after == before.push(peer) && rest == left
            &&& fit(peer) && before.len() < 4 && n_peers_total >= 25 ==> {
                &&& left.outcome(25, n_peers_total as u32) ==> after == before.push(peer)
                &&& !left.outcome(25, n_peers_total as u32) ==> after == before
                &&& rest == left.rest(25, n_peers_total as u32)
            }
        }),
{
    assert(peers.push(peer).drop_last() =~= peers);
}

/// The same of the messages that a peer may be chosen for: one message more changes nothing of the others.
pub proof fn each_message_is_decided_once(
    entries: Seq<Entry>,
    entry: Entry,
    peer: PeerId,
    topology: Option<Outlook>,
    n_peers_total: nat,
    luck: Luck,
)
    requires
        n_peers_total <= u32::MAX,
    ensures
        ({
            let before = select_entries(entries, peer, topology, n_peers_total, luck);
            let after = select_entries(entries.push(entry), peer, topology, n_peers_total, luck);
            let belongs = topology matches Some(t) && t.members.contains(peer);
            let asked = !demanded(entry.routing, topology, peer) && belongs && entry.randomly_routed.len() < 4;
            &&& after.entries.drop_last() == before.entries
            &&& after.picked.drop_last() == before.picked
            &&& !asked || n_peers_total < 25 ==> after.luck == before.luck
            &&& asked && n_peers_total >= 25 ==> {
                &&& after.luck == before.luck.rest(25, n_peers_total as u32)
                &&& after.picked.last() == before.luck.outcome(25, n_peers_total as u32)
            }
        }),
{
    let before = select_entries(entries, peer, topology, n_peers_total, luck);
    let after = select_entries(entries.push(entry), peer, topology, n_peers_total, luck);
    assert(entries.push(entry).drop_last() =~= entries);
    assert(after.entries.drop_last() =~= before.entries);
    assert(after.picked.drop_last() =~= before.picked);
}

/// In a larger network nobody is chosen without luck, and the first four are with nothing but luck.
pub proof fn luck_decides_in_larger_networks(
    peers: Seq<PeerId>,
    fit: spec_fn(PeerId) -> bool,
    n_peers_total: nat,
    outcomes: Seq<bool>,
)
    requires
        n_peers_total >= 25,
    ensures
        ({
            let all = peers.filter(fit);
            let picked = pick_random(peers, fit, n_peers_total, Luck::Scripted { outcomes }).0;
            &&& (forall|i: int| 0 <= i < outcomes.len() ==> !#[trigger] outcomes[i]) ==> picked.len() == 0
            &&& (forall|i: int| 0 <= i < outcomes.len() ==> #[trigger] outcomes[i]) && outcomes.len() >= peers.len()
                ==> {
                &&& all.len() <= 4 ==> picked == all
                &&& all.len() > 4 ==> picked == all.take(4)
            }
        }),
{
    if forall|i: int| 0 <= i < outcomes.len() ==> !#[trigger] outcomes[i] {
        lemma_no_luck(peers, fit, n_peers_total, outcomes);
    }
    if (forall|i: int| 0 <= i < outcomes.len() ==> #[trigger] outcomes[i]) && outcomes.len() >= peers.len() {
        lemma_all_luck(peers, fit, n_peers_total, outcomes);
    }
}

proof fn lemma_no_luck(peers: Seq<PeerId>, fit: spec_fn(PeerId) -> bool, n_peers_total: nat, outcomes: Seq<bool>)
    requires
        n_peers_total >= 25,
        forall|i: int| 0 <= i < outcomes.len() ==> !#[trigger] outcomes[i],
    ensures
        ({
            let (picked, left) = pick_random(peers, fit, n_peers_total, Luck::Scripted { outcomes });
            &&& picked.len() == 0
            &&& left matches Luck::Scripted { outcomes: rest } && forall|i: int|
                0 <= i < rest.len() ==> !#[trigger] rest[i]
        }),
    decreases peers.len(),
{
    if peers.len() > 0 {
        lemma_no_luck(peers.drop_last(), fit, n_peers_total, outcomes);
        let (picked, left) = pick_random(peers.drop_last(), fit, n_peers_total, Luck::Scripted { outcomes });
        if let Luck::Scripted { outcomes: rest } = left {
            assert(rest.len() > 0 ==> !rest[0]);
            assert forall|i: int| 0 <= i < rest.drop_first().len() && rest.len() > 0 implies !#[trigger]
            rest.drop_first()[i] by {
                assert(!rest[i + 1]);
            }
        }
    }
}

proof fn lemma_all_luck(peers: Seq<PeerId>, fit: spec_fn(PeerId) -> bool, n_peers_total: nat, outcomes: Seq<bool>)
    requires
        n_peers_total >= 25,
        outcomes.len() >= peers.len(),
        forall|i: int| 0 <= i < outcomes.len() ==> #[trigger] outcomes[i],
    ensures
        ({
            let all = peers.filter(fit);
            let (picked, left) = pick_random(peers, fit, n_peers_total, Luck::Scripted { outcomes });
            &&& all.len() <= 4 ==> picked == all
            &&& all.len() > 4 ==> picked == all.take(4)
            &&& left matches Luck::Scripted { outcomes: rest } && rest.len() >= outcomes.len() - peers.len() && forall|
                i: int,
            |
                0 <= i < rest.len() ==> #[trigger] rest[i]
        }),
    decreases peers.len(),
{
    reveal(Seq::filter);
    if peers.len() > 0 {
        let short = peers.drop_last();
        lemma_all_luck(short, fit, n_peers_total, outcomes);
        let (before, left) = pick_random(short, fit, n_peers_total, Luck::Scripted { outcomes });
        let picked = pick_random(peers, fit, n_peers_total, Luck::Scripted { outcomes }).0;
        let all = peers.filter(fit);
        if let Luck::Scripted { outcomes: rest } = left {
            assert(rest[0]);
            assert forall|i: int| 0 <= i < rest.drop_first().len() implies #[trigger] rest.drop_first()[i] by {
                assert(rest[i + 1]);
            }
        }
        if fit(peers.last()) {
            assert(all =~= short.filter(fit).push(peers.last()));
            if all.len() <= 4 {
                assert(picked =~= all);
            } else {
                assert(picked =~= all.take(4));
            }
        } else {
            assert(all =~= short.filter(fit));
        }
    }
}

/// Which messages a peer that becomes aware of a block is offered: those whose routing demands it, and those for
/// which it is chosen at random now, as one of at most four, if it acts for a validator of the session.  Being chosen
/// is noted; nothing else about the messages changes.
pub proof fn newcomers_are_chosen_for_messages(
    entries: Seq<Entry>,
    peer: PeerId,
    topology: Option<Outlook>,
    n_peers_total: nat,
    luck: Luck,
    k: int,
)
    requires
        0 <= k < entries.len(),
    ensures
        ({
            let selection = select_entries(entries, peer, topology, n_peers_total, luck);
            let was = entries[k];
            let now = selection.entries[k];
            let demands = demanded(was.routing, topology, peer);
            let belongs = topology matches Some(t) && t.members.contains(peer);
            &&& selection.entries.len() == entries.len()
            &&& selection.picked.len() == entries.len()
            &&& now == (Entry { randomly_routed: now.randomly_routed, ..was })
            &&& demands ==> selection.picked[k] && now == was
            &&& !demands && !belongs ==> !selection.picked[k] && now == was
            &&& !demands && !selection.picked[k] ==> now == was
            &&& !demands && selection.picked[k] ==> was.randomly_routed.len() < 4 && now.randomly_routed
                == was.randomly_routed.push(peer)
            &&& !demands && belongs && was.randomly_routed.len() < 4 && 0 < n_peers_total < 25 ==> selection.picked[k]
        }),
    decreases entries.len(),
{
    if k < entries.len() - 1 {
        let short = entries.drop_last();
        assert(short[k] == entries[k]);
        newcomers_are_chosen_for_messages(short, peer, topology, n_peers_total, luck, k);
    } else if entries.len() > 1 {
        newcomers_are_chosen_for_messages(entries.drop_last(), peer, topology, n_peers_total, luck, 0);
    } else {
        assert(entries.drop_last() =~= Seq::empty());
    }
}

/// Whether all that was newly noted as sent is among the messages of an offer.
pub open spec fn truly_noted(was: PeerMemory, offer: Offer) -> bool {
    &&& offer.memory.received == was.received
    &&& forall|subject: MessageSubject| #[trigger]
        offer.memory.sent.contains_key(subject) ==> {
            ||| was.sent.contains_key(subject) && (offer.memory.sent[subject] == was.sent[subject])
            ||| offer.memory.sent[subject] is Approval && sends_vote_about(offer.votes, subject)
            ||| offer.memory.sent[subject] is Assignment && sends_about(offer.assignments, subject)
        }
    &&& forall|subject: MessageSubject|
        was.sent.contains_key(subject) ==> #[trigger] offer.memory.sent.contains_key(subject)
}

proof fn lemma_assignment_truly_noted(was: PeerMemory, offer: Offer, assignment: Assignment)
    requires
        truly_noted(was, offer),
    ensures
        truly_noted(was, offer.with_assignment(assignment)),
{
    let next = offer.with_assignment(assignment);
    let about = assignment_subject(assignment);
    if !offer.memory.has(about, MessageKind::Assignment) {
        assert forall|subject: MessageSubject| #[trigger] next.memory.sent.contains_key(subject) implies {
            ||| was.sent.contains_key(subject) && (next.memory.sent[subject] == was.sent[subject])
            ||| next.memory.sent[subject] is Approval && sends_vote_about(next.votes, subject)
            ||| next.memory.sent[subject] is Assignment && sends_about(next.assignments, subject)
        } by {
            if subject == about {
                assert(sends_about(next.assignments, about)) by {
                    assert(assignment_subject(next.assignments[offer.assignments.len() as int]) == about);
                }
            } else {
                assert(offer.memory.sent.contains_key(subject));
                if sends_about(offer.assignments, subject) {
                    let i = choose|i: int|
                        0 <= i < offer.assignments.len() && assignment_subject(#[trigger] offer.assignments[i])
                            == subject;
                    assert(assignment_subject(next.assignments[i]) == subject);
                }
            }
        }
        assert forall|subject: MessageSubject| was.sent.contains_key(subject) implies #[trigger]
        next.memory.sent.contains_key(subject) by {
            assert(offer.memory.sent.contains_key(subject));
        }
    }
}

proof fn lemma_vote_truly_noted(was: PeerMemory, offer: Offer, vote: IndirectSignedApprovalVoteV2)
    requires
        truly_noted(was, offer),
    ensures
        truly_noted(was, offer.with_vote(vote)),
{
    let next = offer.with_vote(vote);
    let about = approval_subject(vote);
    if !offer.memory.has(about, MessageKind::Approval) {
        assert forall|subject: MessageSubject| #[trigger] next.memory.sent.contains_key(subject) implies {
            ||| was.sent.contains_key(subject) && (next.memory.sent[subject] == was.sent[subject])
            ||| next.memory.sent[subject] is Approval && sends_vote_about(next.votes, subject)
            ||| next.memory.sent[subject] is Assignment && sends_about(next.assignments, subject)
        } by {
            if subject == about {
                assert(sends_vote_about(next.votes, about)) by {
                    assert(approval_subject(next.votes[offer.votes.len() as int]) == about);
                }
            } else {
                assert(offer.memory.sent.contains_key(subject));
                if sends_vote_about(offer.votes, subject) {
                    let i = choose|i: int|
                        0 <= i < offer.votes.len() && approval_subject(#[trigger] offer.votes[i]) == subject;
                    assert(approval_subject(next.votes[i]) == subject);
                }
            }
        }
        assert forall|subject: MessageSubject| was.sent.contains_key(subject) implies #[trigger]
        next.memory.sent.contains_key(subject) by {
            assert(offer.memory.sent.contains_key(subject));
        }
    }
}

proof fn lemma_votes_truly_noted(was: PeerMemory, offer: Offer, votes: Seq<IndirectSignedApprovalVoteV2>)
    requires
        truly_noted(was, offer),
    ensures
        truly_noted(was, offer.with_votes(votes)),
    decreases votes.len(),
{
    if votes.len() > 0 {
        lemma_votes_truly_noted(was, offer, votes.drop_last());
        lemma_vote_truly_noted(was, offer.with_votes(votes.drop_last()), votes.last());
    }
}

proof fn lemma_truly_noted(was: PeerMemory, entries: Seq<Entry>, picked: Seq<bool>)
    ensures
        truly_noted(was, Offer::nothing(was).with_entries(entries, picked)),
    decreases entries.len(),
{
    if entries.len() > 0 {
        let rest = Offer::nothing(was).with_entries(entries.drop_last(), picked);
        lemma_truly_noted(was, entries.drop_last(), picked);
        if picked[entries.len() - 1] {
            lemma_assignment_truly_noted(was, rest, entries.last().assignment);
            lemma_votes_truly_noted(
                was,
                rest.with_assignment(entries.last().assignment),
                entries.last().approvals,
            );
        }
    }
}

/// What a peer is noted to have been sent is sent to it: after sending messages about a block to a peer, whatever is
/// noted that was not before is among the assignments or the votes for it; what it has sent stays noted as it was.
pub proof fn nothing_is_noted_without_being_sent(
    block: Block,
    peer: PeerId,
    topology: Option<Outlook>,
    i: int,
    subject: MessageSubject,
)
    requires
        dict::keys_unique(block.known_by),
        0 <= i < block.known_by.len(),
        block.known_by[i].0 == peer,
    ensures
        ({
            let (next, assignments, votes) = block.propagated(peer, topology);
            let was = block.known_by[i].1;
            let now = next.known_by[i].1;
            &&& next.known_by[i].0 == peer
            &&& now.received == was.received
            &&& now.sent.contains_key(subject) && !was.sent.contains_key(subject) ==> {
                ||| exists|a: int| 0 <= a < assignments.len() && assignment_subject(#[trigger] assignments[a]) == subject
                ||| exists|v: int| 0 <= v < votes.len() && approval_subject(#[trigger] votes[v]) == subject
            }
            &&& now.sent.contains_key(subject) && now.sent[subject] is Approval && !(was.sent.contains_key(subject)
                && was.sent[subject] is Approval) ==> exists|v: int|
                0 <= v < votes.len() && approval_subject(#[trigger] votes[v]) == subject
            &&& was.sent.contains_key(subject) ==> now.sent.contains_key(subject)
        }),
{
    dict::lemma_dict_at(block.known_by, i);
    assert(block.aware(peer));
    lemma_truly_noted(block.memory(peer), block.entries, routed_entries(block.entries, peer, topology));
    let offer = Offer::nothing(block.memory(peer)).with_entries(
        block.entries,
        routed_entries(block.entries, peer, topology),
    );
    let (next, assignments, votes) = block.propagated(peer, topology);
    assert(next.known_by[i].1 == offer.memory);
    assert(sends_vote_about(offer.votes, subject) <==> exists|v: int|
        0 <= v < votes.len() && approval_subject(#[trigger] votes[v]) == subject);
    assert(sends_about(offer.assignments, subject) <==> exists|a: int|
        0 <= a < assignments.len() && assignment_subject(#[trigger] assignments[a]) == subject);
}

/// A peer that becomes aware of a block is noted to have been sent what it is greeted with, and to have sent nothing.
pub proof fn newcomers_are_noted_to_have_their_greeting(
    block: Block,
    peer: PeerId,
    topology: Option<Outlook>,
    n_peers_total: nat,
    luck: Luck,
    subject: MessageSubject,
)
    ensures
        ({
            let greeting = block.greeted(peer, topology, n_peers_total, luck);
            let now = greeting.block.known_by.last().1;
            &&& greeting.block == (Block {
                known_by: greeting.block.known_by,
                entries: greeting.block.entries,
                ..block
            })
            &&& greeting.block.known_by.len() == block.known_by.len() + 1
            &&& greeting.block.known_by.drop_last() == block.known_by
            &&& greeting.block.known_by.last().0 == peer
            &&& now.received == Known::empty()
            &&& now.sent.contains_key(subject) ==> {
                ||| now.sent[subject] is Approval && exists|v: int|
                    0 <= v < greeting.votes.len() && approval_subject(#[trigger] greeting.votes[v]) == subject
                ||| now.sent[subject] is Assignment && exists|a: int|
                    0 <= a < greeting.assignments.len() && assignment_subject(#[trigger] greeting.assignments[a])
                        == subject
            }
        }),
{
    let greeting = block.greeted(peer, topology, n_peers_total, luck);
    let selection = select_entries(block.entries, peer, topology, n_peers_total, luck);
    lemma_truly_noted(PeerMemory::blank(), selection.entries, selection.picked);
    assert(greeting.block.known_by.drop_last() =~= block.known_by);
    let offer = Offer::nothing(PeerMemory::blank()).with_entries(selection.entries, selection.picked);
    assert(greeting.votes == offer.votes && greeting.assignments == offer.assignments);
    if sends_vote_about(offer.votes, subject) {
        let v = choose|v: int| 0 <= v < offer.votes.len() && approval_subject(#[trigger] offer.votes[v]) == subject;
        assert(approval_subject(greeting.votes[v]) == subject);
    }
    if sends_about(offer.assignments, subject) {
        let a = choose|a: int|
            0 <= a < offer.assignments.len() && assignment_subject(#[trigger] offer.assignments[a]) == subject;
        assert(assignment_subject(greeting.assignments[a]) == subject);
    }
}

/// Whether the votes of an offer come from some entries, were not had before, and are each about something else.
pub open spec fn fresh_votes(was: PeerMemory, offer: Offer, entries: Seq<Entry>, picked: Seq<bool>) -> bool {
    &&& forall|i: int|
        0 <= i < offer.votes.len() ==> {
            &&& !was.has(approval_subject(#[trigger] offer.votes[i]), MessageKind::Approval)
            &&& knows(offer.memory.sent, approval_subject(offer.votes[i]), MessageKind::Approval)
            &&& exists|k: int|
                0 <= k < entries.len() && picked[k] && (#[trigger] entries[k]).approvals.contains(offer.votes[i])
        }
    &&& forall|i: int, j: int|
        0 <= i < j < offer.votes.len() ==> approval_subject(#[trigger] offer.votes[i]) != approval_subject(
            #[trigger] offer.votes[j],
        )
    &&& forall|subject: MessageSubject|
        was.has(subject, MessageKind::Approval) ==> #[trigger] offer.memory.has(subject, MessageKind::Approval)
}

proof fn lemma_fresh_votes_more(
    was: PeerMemory,
    offer: Offer,
    list: Seq<IndirectSignedApprovalVoteV2>,
    entries: Seq<Entry>,
    picked: Seq<bool>,
)
    requires
        fresh_votes(was, offer, entries, picked),
        entries.len() > 0,
        picked[entries.len() - 1],
        forall|j: int| 0 <= j < list.len() ==> entries.last().approvals.contains(#[trigger] list[j]),
    ensures
        fresh_votes(was, offer.with_votes(list), entries, picked),
    decreases list.len(),
{
    if list.len() > 0 {
        let short = list.drop_last();
        let vote = list.last();
        assert forall|j: int| 0 <= j < short.len() implies entries.last().approvals.contains(#[trigger] short[j]) by {
            assert(short[j] == list[j]);
        }
        lemma_fresh_votes_more(was, offer, short, entries, picked);
        let rest = offer.with_votes(short);
        let next = offer.with_votes(list);
        let about = approval_subject(vote);
        if !rest.memory.has(about, MessageKind::Approval) {
            assert(next.votes == rest.votes.push(vote));
            assert(list[list.len() - 1] == vote);
            assert(entries[entries.len() - 1].approvals.contains(vote));
            assert forall|i: int| 0 <= i < next.votes.len() implies {
                &&& !was.has(approval_subject(#[trigger] next.votes[i]), MessageKind::Approval)
                &&& knows(next.memory.sent, approval_subject(next.votes[i]), MessageKind::Approval)
                &&& exists|k: int|
                    0 <= k < entries.len() && picked[k] && (#[trigger] entries[k]).approvals.contains(next.votes[i])
            } by {
                if i < rest.votes.len() {
                    assert(next.votes[i] == rest.votes[i]);
                }
            }
            assert forall|i: int, j: int| 0 <= i < j < next.votes.len() implies approval_subject(
                #[trigger] next.votes[i],
            ) != approval_subject(#[trigger] next.votes[j]) by {
                assert(next.votes[i] == rest.votes[i]);
                assert(knows(rest.memory.sent, approval_subject(rest.votes[i]), MessageKind::Approval));
                if j < rest.votes.len() {
                    assert(next.votes[j] == rest.votes[j]);
                }
            }
            assert forall|subject: MessageSubject| was.has(subject, MessageKind::Approval) implies #[trigger]
            next.memory.has(subject, MessageKind::Approval) by {
                assert(rest.memory.has(subject, MessageKind::Approval));
            }
        }
    }
}

proof fn lemma_fresh_votes(was: PeerMemory, entries: Seq<Entry>, picked: Seq<bool>)
    ensures
        fresh_votes(was, Offer::nothing(was).with_entries(entries, picked), entries, picked),
    decreases entries.len(),
{
    if entries.len() > 0 {
        let short = entries.drop_last();
        lemma_fresh_votes(was, short, picked);
        let rest = Offer::nothing(was).with_entries(short, picked);
        assert(fresh_votes(was, rest, entries, picked)) by {
            assert forall|i: int| 0 <= i < rest.votes.len() implies {
                &&& !was.has(approval_subject(#[trigger] rest.votes[i]), MessageKind::Approval)
                &&& knows(rest.memory.sent, approval_subject(rest.votes[i]), MessageKind::Approval)
                &&& exists|k: int|
                    0 <= k < entries.len() && picked[k] && (#[trigger] entries[k]).approvals.contains(rest.votes[i])
            } by {
                let k = choose|k: int|
                    0 <= k < short.len() && picked[k] && (#[trigger] short[k]).approvals.contains(rest.votes[i]);
                assert(entries[k] == short[k]);
            }
        }
        if picked[entries.len() - 1] {
            let middle = rest.with_assignment(entries.last().assignment);
            assert(fresh_votes(was, middle, entries, picked)) by {
                assert forall|i: int| 0 <= i < middle.votes.len() implies {
                    &&& !was.has(approval_subject(#[trigger] middle.votes[i]), MessageKind::Approval)
                    &&& knows(middle.memory.sent, approval_subject(middle.votes[i]), MessageKind::Approval)
                    &&& exists|k: int|
                        0 <= k < entries.len() && picked[k] && (#[trigger] entries[k]).approvals.contains(
                            middle.votes[i],
                        )
                } by {
                    assert(middle.votes[i] == rest.votes[i]);
                }
                assert forall|subject: MessageSubject| was.has(subject, MessageKind::Approval) implies #[trigger]
                middle.memory.has(subject, MessageKind::Approval) by {
                    assert(rest.memory.has(subject, MessageKind::Approval));
                }
                assert(middle.votes == rest.votes);
            }
            let list = entries.last().approvals;
            assert forall|j: int| 0 <= j < list.len() implies entries.last().approvals.contains(#[trigger] list[j]) by {}
            lemma_fresh_votes_more(was, middle, list, entries, picked);
        }
    }
}

/// The votes that are sent to a peer about a block follow from assignments whose routing demands it, were not had by
/// it before, and are each about something else.
pub proof fn votes_are_sent_once(block: Block, peer: PeerId, topology: Option<Outlook>, p: int, i: int, j: int)
    requires
        dict::keys_unique(block.known_by),
        0 <= p < block.known_by.len(),
        block.known_by[p].0 == peer,
        0 <= i < block.propagated(peer, topology).2.len(),
    ensures
        ({
            let votes = block.propagated(peer, topology).2;
            &&& !block.known_by[p].1.has(approval_subject(votes[i]), MessageKind::Approval)
            &&& 0 <= j < votes.len() && j != i ==> approval_subject(votes[i]) != approval_subject(votes[j])
            &&& exists|k: int|
                0 <= k < block.entries.len() && (#[trigger] block.entries[k]).approvals.contains(votes[i])
                    && demanded(block.entries[k].routing, topology, peer)
        }),
{
    dict::lemma_dict_at(block.known_by, p);
    assert(block.aware(peer));
    let picked = routed_entries(block.entries, peer, topology);
    lemma_fresh_votes(block.memory(peer), block.entries, picked);
    let votes = block.propagated(peer, topology).2;
    let offer = Offer::nothing(block.memory(peer)).with_entries(block.entries, picked);
    assert(votes == offer.votes);
    let k = choose|k: int|
        0 <= k < block.entries.len() && picked[k] && (#[trigger] block.entries[k]).approvals.contains(offer.votes[i]);
    assert(routed(topology, block.entries[k].routing, peer));
    if 0 <= j < votes.len() && j != i {
        if i < j {
            assert(approval_subject(offer.votes[i]) != approval_subject(offer.votes[j]));
        } else {
            assert(approval_subject(offer.votes[j]) != approval_subject(offer.votes[i]));
        }
    }
}

/// The messages that a peer is greeted with follow from assignments whose routing demands it or for which it has just
/// been chosen.
pub proof fn greetings_hold_nothing_else(
    block: Block,
    peer: PeerId,
    topology: Option<Outlook>,
    n_peers_total: nat,
    luck: Luck,
    i: int,
)
    ensures
        ({
            let greeting = block.greeted(peer, topology, n_peers_total, luck);
            let picked = select_entries(block.entries, peer, topology, n_peers_total, luck).picked;
            &&& 0 <= i < greeting.assignments.len() ==> exists|k: int|
                0 <= k < block.entries.len() && picked[k] && (#[trigger] block.entries[k]).assignment
                    == greeting.assignments[i]
            &&& 0 <= i < greeting.votes.len() ==> exists|k: int|
                0 <= k < block.entries.len() && picked[k] && (#[trigger] block.entries[k]).approvals.contains(
                    greeting.votes[i],
                )
        }),
{
    let greeting = block.greeted(peer, topology, n_peers_total, luck);
    let selection = select_entries(block.entries, peer, topology, n_peers_total, luck);
    let picked = selection.picked;
    lemma_selected(block.entries, peer, topology, n_peers_total, luck);
    lemma_fresh_votes(PeerMemory::blank(), selection.entries, picked);
    lemma_entries_offered(PeerMemory::blank(), selection.entries, picked);
    let offer = Offer::nothing(PeerMemory::blank()).with_entries(selection.entries, picked);
    if 0 <= i < greeting.assignments.len() {
        assert(offer.assignments[i] == greeting.assignments[i]);
        let k = choose|k: int|
            0 <= k < selection.entries.len() && picked[k] && (#[trigger] selection.entries[k]).assignment
                == offer.assignments[i];
        assert(block.entries[k].assignment == greeting.assignments[i]);
    }
    if 0 <= i < greeting.votes.len() {
        assert(offer.votes[i] == greeting.votes[i]);
        let k = choose|k: int|
            0 <= k < selection.entries.len() && picked[k] && (#[trigger] selection.entries[k]).approvals.contains(
                offer.votes[i],
            );
        assert(block.entries[k].approvals == selection.entries[k].approvals);
    }
}

/// Whether a list begins with another one.
pub open spec fn begins_with<T>(all: Seq<T>, first: Seq<T>) -> bool {
    first.len() <= all.len() && all.take(first.len() as int) == first
}

proof fn lemma_votes_append(offer: Offer, list: Seq<IndirectSignedApprovalVoteV2>)
    ensures
        offer.with_votes(list).assignments == offer.assignments,
        begins_with(offer.with_votes(list).votes, offer.votes),
    decreases list.len(),
{
    if list.len() > 0 {
        lemma_votes_append(offer, list.drop_last());
        let rest = offer.with_votes(list.drop_last()).votes;
        let all = offer.with_votes(list).votes;
        assert(all.take(offer.votes.len() as int) =~= rest.take(offer.votes.len() as int));
    } else {
        assert(offer.votes.take(offer.votes.len() as int) =~= offer.votes);
    }
}

proof fn lemma_entries_append(memory: PeerMemory, entries: Seq<Entry>, picked: Seq<bool>, n: int)
    requires
        0 <= n <= entries.len(),
    ensures
        ({
            let first = Offer::nothing(memory).with_entries(entries.take(n), picked);
            let all = Offer::nothing(memory).with_entries(entries, picked);
            begins_with(all.assignments, first.assignments) && begins_with(all.votes, first.votes)
        }),
    decreases entries.len(),
{
    let first = Offer::nothing(memory).with_entries(entries.take(n), picked);
    let all = Offer::nothing(memory).with_entries(entries, picked);
    if n == entries.len() {
        assert(entries.take(n) =~= entries);
        assert(all.assignments.take(all.assignments.len() as int) =~= all.assignments);
        assert(all.votes.take(all.votes.len() as int) =~= all.votes);
    } else {
        let short = entries.drop_last();
        lemma_entries_append(memory, short, picked, n);
        assert(short.take(n) =~= entries.take(n));
        let rest = Offer::nothing(memory).with_entries(short, picked);
        if picked[entries.len() - 1] {
            let middle = rest.with_assignment(entries.last().assignment);
            lemma_votes_append(middle, entries.last().approvals);
            assert(all.assignments.take(first.assignments.len() as int) =~= rest.assignments.take(
                first.assignments.len() as int,
            ));
            assert(all.votes.take(first.votes.len() as int) =~= rest.votes.take(first.votes.len() as int));
        }
    }
}

/// The messages about a block are sent in the order in which they became known: what would be sent if only the first of
/// them were known comes first.
pub proof fn older_messages_are_sent_first(block: Block, peer: PeerId, topology: Option<Outlook>, n: int)
    requires
        0 <= n <= block.entries.len(),
    ensures
        ({
            let short = Block { entries: block.entries.take(n), ..block };
            &&& begins_with(block.propagated(peer, topology).1, short.propagated(peer, topology).1)
            &&& begins_with(block.propagated(peer, topology).2, short.propagated(peer, topology).2)
        }),
{
    let short = Block { entries: block.entries.take(n), ..block };
    if block.aware(peer) {
        let picked = routed_entries(block.entries, peer, topology);
        lemma_entries_append(block.memory(peer), block.entries, picked, n);
        lemma_same_picks(block.memory(peer), short.entries, picked, routed_entries(short.entries, peer, topology));
    } else {
        let none = Seq::<Assignment>::empty();
        assert(none.take(0) =~= none);
        let nothing = Seq::<IndirectSignedApprovalVoteV2>::empty();
        assert(nothing.take(0) =~= nothing);
    }
}

proof fn lemma_same_picks(memory: PeerMemory, entries: Seq<Entry>, a: Seq<bool>, b: Seq<bool>)
    requires
        forall|k: int| 0 <= k < entries.len() ==> #[trigger] a[k] == b[k],
    ensures
        Offer::nothing(memory).with_entries(entries, a) == Offer::nothing(memory).with_entries(entries, b),
    decreases entries.len(),
{
    if entries.len() > 0 {
        lemma_same_picks(memory, entries.drop_last(), a, b);
        assert(a[entries.len() - 1] == b[entries.len() - 1]);
    }
}

/// The messages about several blocks are sent in the order in which the blocks became known.
pub proof fn messages_about_older_blocks_are_sent_first(
    blocks: Seq<(BlockHash, Block)>,
    scope: Scope,
    peer: PeerId,
    topologies: Seq<(SessionIndex, Outlook)>,
    n: int,
)
    requires
        0 <= n <= blocks.len(),
    ensures
        begins_with(
            parcel(blocks, scope, peer, topologies).assignments,
            parcel(blocks.take(n), scope, peer, topologies).assignments,
        ),
        begins_with(
            parcel(blocks, scope, peer, topologies).votes,
            parcel(blocks.take(n), scope, peer, topologies).votes,
        ),
    decreases blocks.len(),
{
    let first = parcel(blocks.take(n), scope, peer, topologies);
    let all = parcel(blocks, scope, peer, topologies);
    if n == blocks.len() {
        assert(blocks.take(n) =~= blocks);
        assert(all.assignments.take(all.assignments.len() as int) =~= all.assignments);
        assert(all.votes.take(all.votes.len() as int) =~= all.votes);
    } else {
        let short = blocks.drop_last();
        messages_about_older_blocks_are_sent_first(short, scope, peer, topologies, n);
        assert(short.take(n) =~= blocks.take(n));
        let rest = parcel(short, scope, peer, topologies);
        assert(all.assignments.take(first.assignments.len() as int) =~= rest.assignments.take(
            first.assignments.len() as int,
        ));
        assert(all.votes.take(first.votes.len() as int) =~= rest.votes.take(first.votes.len() as int));
    }
}

proof fn lemma_walk_appends(tour: Tour, peer: PeerId, finalized_number: BlockNumber, from: BlockHash)
    ensures
        ({
            let end = tour.walked(peer, finalized_number, from);
            begins_with(end.assignments, tour.assignments) && begins_with(end.votes, tour.votes)
        }),
    decreases unaware(tour.node.blocks, peer),
{
    let end = tour.walked(peer, finalized_number, from);
    if tour.ends_at(peer, finalized_number, from) {
        assert(tour.assignments.take(tour.assignments.len() as int) =~= tour.assignments);
        assert(tour.votes.take(tour.votes.len() as int) =~= tour.votes);
    } else {
        tour.lemma_greeted(peer, finalized_number, from);
        let next = tour.greeted(peer, from);
        lemma_walk_appends(next, peer, finalized_number, tour.node.block(from).parent_hash);
        assert(next.assignments.take(tour.assignments.len() as int) =~= tour.assignments);
        assert(next.votes.take(tour.votes.len() as int) =~= tour.votes);
        assert(end.assignments.take(tour.assignments.len() as int) =~= end.assignments.take(
            next.assignments.len() as int,
        ).take(tour.assignments.len() as int));
        assert(end.votes.take(tour.votes.len() as int) =~= end.votes.take(next.votes.len() as int).take(
            tour.votes.len() as int,
        ));
    }
}

/// A peer that catches up gets the messages about the first heads of its view first.
pub proof fn first_heads_come_first(tour: Tour, peer: PeerId, finalized_number: BlockNumber, heads: Seq<BlockHash>, n: int)
    requires
        0 <= n <= heads.len(),
    ensures
        ({
            let first = tour.toured(peer, finalized_number, heads.take(n));
            let all = tour.toured(peer, finalized_number, heads);
            begins_with(all.assignments, first.assignments) && begins_with(all.votes, first.votes)
        }),
    decreases heads.len(),
{
    let first = tour.toured(peer, finalized_number, heads.take(n));
    let all = tour.toured(peer, finalized_number, heads);
    if n == heads.len() {
        assert(heads.take(n) =~= heads);
        assert(all.assignments.take(all.assignments.len() as int) =~= all.assignments);
        assert(all.votes.take(all.votes.len() as int) =~= all.votes);
    } else {
        let short = heads.drop_last();
        first_heads_come_first(tour, peer, finalized_number, short, n);
        assert(short.take(n) =~= heads.take(n));
        let rest = tour.toured(peer, finalized_number, short);
        lemma_walk_appends(rest, peer, finalized_number, heads.last());
        assert(all.assignments.take(first.assignments.len() as int) =~= all.assignments.take(
            rest.assignments.len() as int,
        ).take(first.assignments.len() as int));
        assert(all.votes.take(first.votes.len() as int) =~= all.votes.take(rest.votes.len() as int).take(
            first.votes.len() as int,
        ));
    }
}

} // verus!
