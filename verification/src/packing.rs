//! How messages are packed for peers and unpacked from them, said of the messages themselves.
use crate::actions::Effect;
use crate::batching::{
    approval_notifications, approval_sends, assignment_notifications, assignment_sends, in_old_form, peers_of,
    sends, vote_in_old_form, Notification, MAX_APPROVAL_BATCH_SIZE, MAX_ASSIGNMENT_BATCH_SIZE,
};
use crate::bitfield::{singletons_hold_one_index, Bitfield};
use crate::dict;
use crate::lists;
use crate::messages::{
    downgraded_assignment, downgraded_vote, only_index, upgraded_assignment, upgraded_vote, Assignment,
    AssignmentCertKind, AssignmentCertKindV2, AssignmentV1, IndirectAssignmentCert, IndirectAssignmentCertV2,
    IndirectSignedApprovalVote, IndirectSignedApprovalVoteV2,
};
use crate::peers::Tour;
use crate::primitives::{PeerId, ValidationVersion};
use crate::propagation::{parcel, Scope};
use crate::reputation::Rep;
use crate::state::{version_in, Horizon, Node, PendingMessage, Task};
use crate::subsystem::{
    assignment_cost, assignment_message, unpacked, unpacking_costs, vote_cost, vote_message,
};
use vstd::prelude::*;

verus! {

/// Whether an old and a new certificate say the same.
pub open spec fn same_cert(old: IndirectAssignmentCert, new: IndirectAssignmentCertV2) -> bool {
    &&& new.block_hash == old.block_hash
    &&& new.validator == old.validator
    &&& new.cert.vrf == old.cert.vrf
    &&& match old.cert.kind {
        AssignmentCertKind::RelayVRFModulo { sample } => new.cert.kind == (AssignmentCertKindV2::RelayVRFModulo {
            sample,
        }),
        AssignmentCertKind::RelayVRFDelay { core_index } => new.cert.kind == (AssignmentCertKindV2::RelayVRFDelay {
            core_index,
        }),
    }
}

/// Whether a candidate is the only one in a set.
pub open spec fn is_the_only_one(field: Bitfield, index: int) -> bool {
    forall|i: int| #[trigger] field.has(i) <==> i == index
}

/// An assignment has an old form exactly if there is an old one that says the same of its only candidate, and that is
/// the form.
pub proof fn old_assignments_say_the_same(old: AssignmentV1, new: Assignment)
    ensures
        downgraded_assignment(new) == Some(old) <==> same_cert(old.cert, new.cert) && is_the_only_one(
            new.candidates,
            old.candidate_index as int,
        ),
{
    if is_the_only_one(new.candidates, old.candidate_index as int) {
        assert(new.candidates.is_single(old.candidate_index as int));
        let index = only_index(new.candidates)->0;
        assert(new.candidates.has(index as int));
    }
    if downgraded_assignment(new) == Some(old) {
        assert(new.candidates.is_single(old.candidate_index as int));
    }
}

/// A vote has an old form exactly if there is an old one that says the same of its only candidate, and that is the
/// form.
pub proof fn old_votes_say_the_same(old: IndirectSignedApprovalVote, new: IndirectSignedApprovalVoteV2)
    ensures
        downgraded_vote(new) == Some(old) <==> new.block_hash == old.block_hash && new.validator == old.validator
            && new.signature == old.signature && is_the_only_one(new.candidate_indices, old.candidate_index as int),
{
    if is_the_only_one(new.candidate_indices, old.candidate_index as int) {
        assert(new.candidate_indices.is_single(old.candidate_index as int));
        let index = only_index(new.candidate_indices)->0;
        assert(new.candidate_indices.has(index as int));
    }
    if downgraded_vote(new) == Some(old) {
        assert(new.candidate_indices.is_single(old.candidate_index as int));
    }
}

/// An old message has a new form exactly if the index of its candidate is below 512, and that says the same.
pub proof fn new_forms_say_the_same(assignment: AssignmentV1, vote: IndirectSignedApprovalVote)
    ensures
        upgraded_assignment(assignment) is Some <==> assignment.candidate_index < 512,
        upgraded_assignment(assignment) matches Some(new) ==> same_cert(assignment.cert, new.cert) && is_the_only_one(
            new.candidates,
            assignment.candidate_index as int,
        ),
        upgraded_vote(vote) is Some <==> vote.candidate_index < 512,
        upgraded_vote(vote) matches Some(new) ==> {
            &&& new.block_hash == vote.block_hash
            &&& new.validator == vote.validator
            &&& new.signature == vote.signature
            &&& is_the_only_one(new.candidate_indices, vote.candidate_index as int)
        },
{
    if assignment.candidate_index < 512 {
        singletons_hold_one_index(assignment.candidate_index as int);
    }
    if vote.candidate_index < 512 {
        singletons_hold_one_index(vote.candidate_index as int);
    }
}

/// A message is sent in the version that a peer speaks: of those who are to get it, exactly the connected ones are
/// looked up, each with its version.
pub proof fn receivers_are_looked_up(node: Node, receivers: Seq<PeerId>, peer: PeerId, version: ValidationVersion)
    requires
        dict::keys_unique(node.peers),
    ensures
        node.versions_of(receivers).contains((peer, version)) <==> receivers.contains(peer) && exists|i: int|
            0 <= i < node.peers.len() && (#[trigger] node.peers[i]).0 == peer && node.peers[i].1.version == version,
    decreases receivers.len(),
{
    let all = node.versions_of(receivers);
    if receivers.len() > 0 {
        let short = receivers.drop_last();
        let last = receivers.last();
        receivers_are_looked_up(node, short, peer, version);
        let rest = node.versions_of(short);
        let found = version_in(node.peers)(last);
        assert(receivers.contains(peer) <==> short.contains(peer) || peer == last) by {
            assert(receivers =~= short.push(last));
            if short.contains(peer) {
                let r = choose|r: int| 0 <= r < short.len() && short[r] == peer;
                assert(receivers[r] == peer);
            }
            assert(receivers[receivers.len() - 1] == last);
        }
        if dict::has_key(node.peers, last) {
            let at = dict::index_of_key(node.peers, last);
            assert(node.peers[at].0 == last);
            let pair = (last, node.peers[at].1.version);
            assert(all == rest.push(pair));
            if rest.contains((peer, version)) {
                let r = choose|r: int| 0 <= r < rest.len() && rest[r] == (peer, version);
                assert(all[r] == (peer, version));
            }
            assert(all[rest.len() as int] == pair);
            if all.contains((peer, version)) {
                let r = choose|r: int| 0 <= r < all.len() && all[r] == (peer, version);
                if r < rest.len() {
                    assert(rest[r] == (peer, version));
                } else {
                    assert(node.peers[at].0 == peer && node.peers[at].1.version == version);
                }
            }
            if peer == last && exists|i: int|
                0 <= i < node.peers.len() && (#[trigger] node.peers[i]).0 == peer && node.peers[i].1.version
                    == version {
                let i = choose|i: int|
                    0 <= i < node.peers.len() && (#[trigger] node.peers[i]).0 == peer && node.peers[i].1.version
                        == version;
                dict::lemma_dict_at(node.peers, i);
                assert(pair == (peer, version));
            }
        } else {
            assert(all == rest);
            if peer == last && exists|i: int|
                0 <= i < node.peers.len() && (#[trigger] node.peers[i]).0 == peer && node.peers[i].1.version
                    == version {
                let i = choose|i: int|
                    0 <= i < node.peers.len() && (#[trigger] node.peers[i]).0 == peer && node.peers[i].1.version
                        == version;
                assert(dict::has_key(node.peers, last));
            }
        }
    }
}

proof fn lemma_filter_mapped_source<T, U>(items: Seq<T>, f: spec_fn(T) -> Option<U>, m: int) -> (i: int)
    requires
        0 <= m < lists::filter_mapped(items, f).len(),
    ensures
        0 <= i < items.len(),
        f(items[i]) == Some(lists::filter_mapped(items, f)[m]),
    decreases items.len(),
{
    let short = items.drop_last();
    let rest = lists::filter_mapped(short, f);
    if m < rest.len() {
        let i = lemma_filter_mapped_source(short, f, m);
        assert(items[i] == short[i]);
        i
    } else {
        items.len() - 1
    }
}

/// Whether a message in a notification is one of some assignments.
pub open spec fn brings_one_assignment(note: Notification, j: int, assignments: Seq<Assignment>) -> bool {
    exists|i: int| 0 <= i < assignments.len() && #[trigger] note.brings_assignment(j, assignments[i])
}

/// Whether every message in a notification is one of some assignments.
pub open spec fn holds_only_assignments(note: Notification, assignments: Seq<Assignment>) -> bool {
    forall|j: int| 0 <= j < note.size() ==> #[trigger] brings_one_assignment(note, j, assignments)
}

/// Whether a message in a notification is one of some votes.
pub open spec fn brings_one_vote(note: Notification, j: int, votes: Seq<IndirectSignedApprovalVoteV2>) -> bool {
    exists|i: int| 0 <= i < votes.len() && #[trigger] note.brings_vote(j, votes[i])
}

/// Whether every message in a notification is one of some votes.
pub open spec fn holds_only_votes(note: Notification, votes: Seq<IndirectSignedApprovalVoteV2>) -> bool {
    forall|j: int| 0 <= j < note.size() ==> #[trigger] brings_one_vote(note, j, votes)
}

proof fn lemma_assignment_note(assignments: Seq<Assignment>, version: ValidationVersion, n: int)
    requires
        0 <= n < assignment_notifications(assignments, version).len(),
    ensures
        holds_only_assignments(assignment_notifications(assignments, version)[n], assignments),
{
    let size = MAX_ASSIGNMENT_BATCH_SIZE as int;
    let note = assignment_notifications(assignments, version)[n];
    assert forall|j: int| 0 <= j < note.size() implies #[trigger] brings_one_assignment(note, j, assignments) by {
        if version == ValidationVersion::V3 {
            lists::pieces_are_consecutive(assignments, size, n, j);
            let i = n * size + j;
            lemma_nonnegative(n, size, j);
            assert(note.brings_assignment(j, assignments[i]));
        } else {
            let list = lists::filter_mapped(assignments, in_old_form());
            lists::pieces_are_consecutive(list, size, n, j);
            lemma_nonnegative(n, size, j);
            let i = lemma_filter_mapped_source(assignments, in_old_form(), n * size + j);
            assert(note.brings_assignment(j, assignments[i]));
        }
    }
}

proof fn lemma_vote_note(votes: Seq<IndirectSignedApprovalVoteV2>, version: ValidationVersion, n: int)
    requires
        0 <= n < approval_notifications(votes, version).len(),
    ensures
        holds_only_votes(approval_notifications(votes, version)[n], votes),
{
    let size = MAX_APPROVAL_BATCH_SIZE as int;
    let note = approval_notifications(votes, version)[n];
    assert forall|j: int| 0 <= j < note.size() implies #[trigger] brings_one_vote(note, j, votes) by {
        if version == ValidationVersion::V3 {
            lists::pieces_are_consecutive(votes, size, n, j);
            let i = n * size + j;
            lemma_nonnegative(n, size, j);
            assert(note.brings_vote(j, votes[i]));
        } else {
            let list = lists::filter_mapped(votes, vote_in_old_form());
            lists::pieces_are_consecutive(list, size, n, j);
            lemma_nonnegative(n, size, j);
            let i = lemma_filter_mapped_source(votes, vote_in_old_form(), n * size + j);
            assert(note.brings_vote(j, votes[i]));
        }
    }
}

proof fn lemma_nonnegative(n: int, size: int, j: int)
    requires
        n >= 0,
        size >= 0,
        j >= 0,
    ensures
        n * size + j >= 0,
{
    assert(n * size >= 0) by (nonlinear_arith)
        requires
            n >= 0,
            size >= 0,
    ;
}

/// Only the assignments that are to be sent are: every notification is one of assignments, and each message in it is
/// one of those.
pub proof fn only_the_given_assignments_are_sent(
    assignments: Seq<Assignment>,
    peers: Seq<(PeerId, ValidationVersion)>,
    e: int,
)
    requires
        0 <= e < assignment_sends(assignments, peers).len(),
    ensures
        assignment_sends(assignments, peers)[e] matches Effect::Send(_, note) && holds_only_assignments(
            note,
            assignments,
        ) && (note is OldAssignments || note is NewAssignments),
{
    let v1 = ValidationVersion::V1;
    let v2 = ValidationVersion::V2;
    let v3 = ValidationVersion::V3;
    let a = sends(peers_of(peers, v1), assignment_notifications(assignments, v1));
    let b = sends(peers_of(peers, v2), assignment_notifications(assignments, v2));
    let c = sends(peers_of(peers, v3), assignment_notifications(assignments, v3));
    assert(assignment_sends(assignments, peers) =~= a + b + c);
    if e < a.len() {
        lemma_assignment_note(assignments, v1, e);
    } else if e < a.len() + b.len() {
        lemma_assignment_note(assignments, v2, e - a.len());
    } else {
        lemma_assignment_note(assignments, v3, e - a.len() - b.len());
    }
}

/// Only the votes that are to be sent are: every notification is one of votes, and each message in it is one of those.
pub proof fn only_the_given_votes_are_sent(
    votes: Seq<IndirectSignedApprovalVoteV2>,
    peers: Seq<(PeerId, ValidationVersion)>,
    e: int,
)
    requires
        0 <= e < approval_sends(votes, peers).len(),
    ensures
        approval_sends(votes, peers)[e] matches Effect::Send(_, note) && holds_only_votes(note, votes) && (note
            is OldApprovals || note is NewApprovals),
{
    let v1 = ValidationVersion::V1;
    let v2 = ValidationVersion::V2;
    let v3 = ValidationVersion::V3;
    let a = sends(peers_of(peers, v1), approval_notifications(votes, v1));
    let b = sends(peers_of(peers, v2), approval_notifications(votes, v2));
    let c = sends(peers_of(peers, v3), approval_notifications(votes, v3));
    assert(approval_sends(votes, peers) =~= a + b + c);
    if e < a.len() {
        lemma_vote_note(votes, v1, e);
    } else if e < a.len() + b.len() {
        lemma_vote_note(votes, v2, e - a.len());
    } else {
        lemma_vote_note(votes, v3, e - a.len() - b.len());
    }
}

/// Whether an effect sends assignments.
pub open spec fn is_of_assignments(effect: Effect) -> bool {
    effect matches Effect::Send(_, note) && (note is OldAssignments || note is NewAssignments)
}

/// Whether an effect sends votes.
pub open spec fn is_of_votes(effect: Effect) -> bool {
    effect matches Effect::Send(_, note) && (note is OldApprovals || note is NewApprovals)
}

proof fn lemma_wave_of_assignments(node: Node, scope: Scope, peers: Seq<PeerId>)
    ensures
        ({
            let out = node.wave(scope, peers).node.out;
            &&& node.out.len() <= out.len()
            &&& forall|e: int| 0 <= e < node.out.len() ==> #[trigger] out[e] == node.out[e]
            &&& forall|e: int| node.out.len() <= e < out.len() ==> is_of_assignments(#[trigger] out[e])
        }),
    decreases peers.len(),
{
    if peers.len() > 0 {
        lemma_wave_of_assignments(node, scope, peers.drop_last());
        let rest = node.wave(scope, peers.drop_last()).node;
        let found = parcel(rest.blocks, scope, peers.last(), rest.topologies);
        let next = Node { blocks: found.blocks, ..rest };
        let versions = next.versions_of(seq![peers.last()]);
        let out = node.wave(scope, peers).node.out;
        assert forall|e: int| rest.out.len() <= e < out.len() implies is_of_assignments(#[trigger] out[e]) by {
            only_the_given_assignments_are_sent(found.assignments, versions, e - rest.out.len());
        }
    }
}

proof fn lemma_packets_of_votes(node: Node, packets: Seq<(PeerId, Seq<IndirectSignedApprovalVoteV2>)>)
    ensures
        ({
            let out = node.packets_sent(packets).out;
            &&& node.out.len() <= out.len()
            &&& forall|e: int| 0 <= e < node.out.len() ==> #[trigger] out[e] == node.out[e]
            &&& forall|e: int| node.out.len() <= e < out.len() ==> is_of_votes(#[trigger] out[e])
        }),
    decreases packets.len(),
{
    if packets.len() > 0 {
        lemma_packets_of_votes(node, packets.drop_last());
        let rest = node.packets_sent(packets.drop_last());
        let versions = rest.versions_of(seq![packets.last().0]);
        let out = node.packets_sent(packets).out;
        assert forall|e: int| rest.out.len() <= e < out.len() implies is_of_votes(#[trigger] out[e]) by {
            only_the_given_votes_are_sent(packets.last().1, versions, e - rest.out.len());
        }
    }
}

/// Messages that are sent to everybody go out assignments first: nobody gets votes before all assignments have been
/// sent.
pub proof fn assignments_go_out_before_votes(node: Node, scope: Scope) -> (m: int)
    ensures
        node.out.len() <= m <= node.propagated(scope).out.len(),
        forall|e: int| node.out.len() <= e < m ==> is_of_assignments(#[trigger] node.propagated(scope).out[e]),
        forall|e: int|
            m <= e < node.propagated(scope).out.len() ==> is_of_votes(#[trigger] node.propagated(scope).out[e]),
{
    let wave = node.wave(scope, node.peer_ids());
    lemma_wave_of_assignments(node, scope, node.peer_ids());
    lemma_packets_of_votes(wave.node, wave.votes);
    wave.node.out.len() as int
}

/// A peer that catches up is sent assignments first, too.
pub proof fn newcomers_get_assignments_before_votes(node: Node, peer: PeerId, view: Horizon) -> (m: int)
    ensures
        node.out.len() <= m <= node.unified(peer, view).out.len(),
        forall|e: int| node.out.len() <= e < m ==> is_of_assignments(#[trigger] node.unified(peer, view).out[e]),
        forall|e: int|
            m <= e < node.unified(peer, view).out.len() ==> is_of_votes(#[trigger] node.unified(peer, view).out[e]),
{
    let tour = Tour { node, assignments: Seq::empty(), votes: Seq::empty() }.toured(
        peer,
        view.finalized_number,
        view.heads,
    );
    Tour { node, assignments: Seq::empty(), votes: Seq::empty() }.lemma_toured_frame(
        peer,
        view.finalized_number,
        view.heads,
    );
    let first = tour.node.assignments_sent(tour.assignments, seq![peer]);
    let out = node.unified(peer, view).out;
    let m = first.out.len() as int;
    assert forall|e: int| node.out.len() <= e < m implies is_of_assignments(#[trigger] out[e]) by {
        only_the_given_assignments_are_sent(
            tour.assignments,
            tour.node.versions_of(seq![peer]),
            e - node.out.len(),
        );
    }
    assert forall|e: int| m <= e < out.len() implies is_of_votes(#[trigger] out[e]) by {
        only_the_given_votes_are_sent(tour.votes, first.versions_of(seq![peer]), e - m);
    }
    m
}

/// New messages are unpacked one by one, in their order, at no cost.
pub proof fn new_messages_are_unpacked_in_order(
    assignments: Seq<Assignment>,
    votes: Seq<IndirectSignedApprovalVoteV2>,
    i: int,
)
    ensures
        unpacked(Notification::NewAssignments(assignments)).len() == assignments.len(),
        0 <= i < assignments.len() ==> unpacked(Notification::NewAssignments(assignments))[i]
            == PendingMessage::Assignment(assignments[i]),
        unpacking_costs(Notification::NewAssignments(assignments)).len() == 0,
        unpacked(Notification::NewApprovals(votes)).len() == votes.len(),
        0 <= i < votes.len() ==> unpacked(Notification::NewApprovals(votes))[i] == PendingMessage::Approval(votes[i]),
        unpacking_costs(Notification::NewApprovals(votes)).len() == 0,
{
}

proof fn lemma_no_costs<T>(list: Seq<T>, cost: spec_fn(T) -> Option<Rep>)
    requires
        forall|i: int| 0 <= i < list.len() ==> cost(#[trigger] list[i]) is None,
    ensures
        lists::filter_mapped(list, cost).len() == 0,
    decreases list.len(),
{
    if list.len() > 0 {
        let short = list.drop_last();
        assert forall|i: int| 0 <= i < short.len() implies cost(#[trigger] short[i]) is None by {
            assert(short[i] == list[i]);
        }
        lemma_no_costs(short, cost);
        assert(cost(list[list.len() - 1]) is None);
    }
}

/// Old messages about candidates with indices below 512 are unpacked one by one, in their order, each saying the same
/// in its new form, at no cost.
pub proof fn old_assignments_are_unpacked_in_order(version: ValidationVersion, list: Seq<AssignmentV1>, i: int)
    requires
        forall|j: int| 0 <= j < list.len() ==> (#[trigger] list[j]).candidate_index < 512,
    ensures
        unpacking_costs(Notification::OldAssignments(version, list)).len() == 0,
        unpacked(Notification::OldAssignments(version, list)).len() == list.len(),
        0 <= i < list.len() ==> {
            &&& unpacked(Notification::OldAssignments(version, list))[i] matches PendingMessage::Assignment(new)
            &&& same_cert(list[i].cert, new.cert)
            &&& is_the_only_one(new.candidates, list[i].candidate_index as int)
        },
{
    let f = assignment_message();
    assert forall|j: int| 0 <= j < list.len() implies f(#[trigger] list[j]) is Some by {
        assert(list[j].candidate_index < 512);
    }
    lists::lemma_filter_mapped_all(list, f);
    lemma_no_costs(list, assignment_cost());
    if 0 <= i < list.len() {
        assert(Some(lists::filter_mapped(list, f)[i]) == f(list[i]));
        assert(list[i].candidate_index < 512);
        singletons_hold_one_index(list[i].candidate_index as int);
    }
}

/// The same of old votes.
pub proof fn old_votes_are_unpacked_in_order(
    version: ValidationVersion,
    list: Seq<IndirectSignedApprovalVote>,
    i: int,
)
    requires
        forall|j: int| 0 <= j < list.len() ==> (#[trigger] list[j]).candidate_index < 512,
    ensures
        unpacking_costs(Notification::OldApprovals(version, list)).len() == 0,
        unpacked(Notification::OldApprovals(version, list)).len() == list.len(),
        0 <= i < list.len() ==> {
            &&& unpacked(Notification::OldApprovals(version, list))[i] matches PendingMessage::Approval(new)
            &&& new.block_hash == list[i].block_hash
            &&& new.validator == list[i].validator
            &&& new.signature == list[i].signature
            &&& is_the_only_one(new.candidate_indices, list[i].candidate_index as int)
        },
{
    let f = vote_message();
    assert forall|j: int| 0 <= j < list.len() implies f(#[trigger] list[j]) is Some by {
        assert(list[j].candidate_index < 512);
    }
    lists::lemma_filter_mapped_all(list, f);
    lemma_no_costs(list, vote_cost());
    if 0 <= i < list.len() {
        assert(Some(lists::filter_mapped(list, f)[i]) == f(list[i]));
        assert(list[i].candidate_index < 512);
        singletons_hold_one_index(list[i].candidate_index as int);
    }
}

proof fn lemma_split<T>(list: Seq<T>, f: spec_fn(T) -> Option<PendingMessage>, g: spec_fn(T) -> Option<Rep>)
    requires
        forall|t: T| #[trigger] f(t) is Some <==> g(t) is None,
        forall|t: T| #[trigger] g(t) is Some ==> g(t) == Some(Rep::OversizedBitfield),
    ensures
        lists::filter_mapped(list, f).len() + lists::filter_mapped(list, g).len() == list.len(),
        forall|i: int|
            0 <= i < lists::filter_mapped(list, g).len() ==> #[trigger] lists::filter_mapped(list, g)[i]
                == Rep::OversizedBitfield,
    decreases list.len(),
{
    if list.len() > 0 {
        lemma_split(list.drop_last(), f, g);
        assert(f(list.last()) is Some <==> g(list.last()) is None);
    }
}

/// Each old message whose candidate has too large an index costs the peer something, and is left out; all the others
/// are unpacked.
pub proof fn oversized_messages_cost(
    version: ValidationVersion,
    assignments: Seq<AssignmentV1>,
    votes: Seq<IndirectSignedApprovalVote>,
    i: int,
)
    ensures
        ({
            let costs = unpacking_costs(Notification::OldAssignments(version, assignments));
            &&& unpacked(Notification::OldAssignments(version, assignments)).len() + costs.len() == assignments.len()
            &&& 0 <= i < costs.len() ==> costs[i] == Rep::OversizedBitfield
            &&& 0 <= i < assignments.len() && assignments[i].candidate_index >= 512 ==> costs.len() > 0
        }),
        ({
            let costs = unpacking_costs(Notification::OldApprovals(version, votes));
            &&& unpacked(Notification::OldApprovals(version, votes)).len() + costs.len() == votes.len()
            &&& 0 <= i < costs.len() ==> costs[i] == Rep::OversizedBitfield
            &&& 0 <= i < votes.len() && votes[i].candidate_index >= 512 ==> costs.len() > 0
        }),
{
    let f = assignment_message();
    let g = assignment_cost();
    assert forall|t: AssignmentV1| #[trigger] f(t) is Some <==> g(t) is None by {}
    lemma_split(assignments, f, g);
    if 0 <= i < assignments.len() && assignments[i].candidate_index >= 512 {
        let m = lists::lemma_filter_mapped_keeps(assignments, g, i);
    }
    let h = vote_message();
    let l = vote_cost();
    assert forall|t: IndirectSignedApprovalVote| #[trigger] h(t) is Some <==> l(t) is None by {}
    lemma_split(votes, h, l);
    if 0 <= i < votes.len() && votes[i].candidate_index >= 512 {
        let m = lists::lemma_filter_mapped_keeps(votes, l, i);
    }
}

/// Messages about blocks that the node does not wait for are queued in their order, behind what is queued already, as
/// coming from the peer that sent them; nothing else happens.
pub proof fn messages_are_queued_in_order(node: Node, peer: PeerId, list: Seq<PendingMessage>, i: int)
    requires
        forall|j: int| 0 <= j < list.len() ==> !dict::has_key(node.pending, (#[trigger] list[j]).about()),
    ensures
        ({
            let next = node.messages_stored(peer, list);
            &&& next == (Node { tasks: next.tasks, ..node })
            &&& next.tasks.len() == node.tasks.len() + list.len()
            &&& next.tasks.take(node.tasks.len() as int) == node.tasks
            &&& 0 <= i < list.len() ==> next.tasks[node.tasks.len() + i] == Task::Import(peer, list[i])
        }),
    decreases list.len(),
{
    if list.len() == 0 {
        assert(node.tasks.take(node.tasks.len() as int) =~= node.tasks);
    } else {
        let short = list.drop_last();
        assert forall|j: int| 0 <= j < short.len() implies !dict::has_key(node.pending, (#[trigger] short[j]).about()) by {
            assert(short[j] == list[j]);
        }
        messages_are_queued_in_order(node, peer, short, i);
        assert(!dict::has_key(node.pending, list[list.len() - 1].about()));
        let next = node.messages_stored(peer, list);
        let rest = node.messages_stored(peer, short);
        assert(next.tasks.take(node.tasks.len() as int) =~= rest.tasks.take(node.tasks.len() as int));
    }
}

/// What is queued is done in order: what is left after some of it has been done is the rest of the queue, and nothing
/// is left unless a check is waited for; and while one is waited for nothing is done.
pub proof fn tasks_are_done_in_order(node: Node, tasks: Seq<Task>) -> (done: int)
    ensures
        0 <= done <= tasks.len(),
        node.advanced(tasks).tasks == tasks.skip(done),
        node.advanced(tasks).tasks.len() > 0 ==> node.advanced(tasks).awaiting is Some,
        node.awaiting is Some ==> node.advanced(tasks) == (Node { tasks, ..node }),
        node.awaiting is None && tasks.len() > 0 ==> done > 0,
    decreases tasks.len(),
{
    if tasks.len() == 0 || node.awaiting is Some {
        assert(tasks.skip(0) =~= tasks);
        0
    } else {
        let next = node.performed(tasks[0]);
        let done = tasks_are_done_in_order(next, tasks.drop_first());
        assert(tasks.drop_first().skip(done) =~= tasks.skip(done + 1));
        done + 1
    }
}

} // verus!
