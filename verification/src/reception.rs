//! What becomes of the messages that come in, said of what the node and the peer are known to have.
use crate::actions::Effect;
use crate::block::{Block, Entry};
use crate::dict;
use crate::import::{ApprovalCheckError, ApprovalCheckResult, AssignmentCheckResult};
use crate::knowledge::{
    approval_subject, assignment_subject, knows, learned, Known, MessageKind, MessageSubject,
};
use crate::messages::{Assignment, IndirectSignedApprovalVoteV2};
use crate::outbox::{extended, lemma_extended_by};
use crate::primitives::PeerId;
use crate::reputation::Rep;
use crate::routes::{passed_votes_are_noted, sees, share_a_candidate};
use crate::state::{Node, PendingMessage};
use crate::stories::lemma_with_block;
use vstd::prelude::*;

verus! {

/// An assignment is known if anything is known about the same candidates of the same block by the same
/// validator, and a vote only if a vote is.
pub proof fn votes_count_as_assignments(known: Known, subject: MessageSubject)
    ensures
        knows(known, subject, MessageKind::Assignment) <==> known.contains_key(subject),
        knows(known, subject, MessageKind::Approval) <==> known.contains_key(subject) && known[subject] is Approval,
{
}

/// Learning a message leaves what is known of others as it is, and a vote is not forgotten over the assignment
/// that it follows from.
pub proof fn learning_leaves_other_messages_alone(
    known: Known,
    subject: MessageSubject,
    kind: MessageKind,
    other: MessageSubject,
)
    ensures
        learned(known, subject, kind).contains_key(subject),
        learned(known, subject, kind)[subject] is Approval <==> kind is Approval || (known.contains_key(subject)
            && known[subject] is Approval),
        other != subject ==> (learned(known, subject, kind).contains_key(other) <==> known.contains_key(other)),
        other != subject ==> learned(known, subject, kind)[other] == known[other],
{
}

/// Two messages are about the same if they are about the same candidates of the same block and by the same
/// validator, whatever else is in them.
pub proof fn subjects_are_blocks_candidates_and_validators(
    a: Assignment,
    b: Assignment,
    v: IndirectSignedApprovalVoteV2,
    w: IndirectSignedApprovalVoteV2,
)
    ensures
        assignment_subject(a) == assignment_subject(b) <==> a.cert.block_hash == b.cert.block_hash && a.candidates
            == b.candidates && a.cert.validator == b.cert.validator,
        approval_subject(v) == approval_subject(w) <==> v.block_hash == w.block_hash && v.candidate_indices
            == w.candidate_indices && v.validator == w.validator,
        assignment_subject(a) == approval_subject(v) <==> a.cert.block_hash == v.block_hash && a.candidates
            == v.candidate_indices && a.cert.validator == v.validator,
{
}

/// Whether something that is known covers a message.
pub open spec fn recorded(known: Known, subject: MessageSubject, kind: MessageKind) -> bool {
    known.contains_key(subject) && (kind is Assignment || known[subject] is Approval)
}

/// What a peer is given for a message about a block: for one that it has sent before, a punishment; for one that
/// it has only been sent, nothing; for any other, something good if the node has the message already, and a
/// punishment before that if the peer is not aware of the block.
pub proof fn peers_are_judged_by_what_they_have(
    block: Block,
    i: int,
    peer: PeerId,
    subject: MessageSubject,
    kind: MessageKind,
)
    requires
        dict::keys_unique(block.known_by),
    ensures
        ({
            let screening = block.screened(peer, subject, kind);
            let was = block.known_by[i].1;
            &&& 0 <= i < block.known_by.len() && block.known_by[i].0 == peer ==> screening.reports
                == if recorded(was.received, subject, kind) {
                seq![Rep::DuplicateMessage]
            } else if recorded(was.sent, subject, kind) {
                Seq::empty()
            } else if recorded(block.knowledge, subject, kind) {
                seq![Rep::ValidMessage]
            } else {
                Seq::empty()
            }
            &&& !sees(block, peer) ==> screening.reports == if recorded(block.knowledge, subject, kind) {
                seq![Rep::UnexpectedMessage, Rep::ValidMessage]
            } else {
                seq![Rep::UnexpectedMessage]
            }
        }),
{
    if 0 <= i < block.known_by.len() && block.known_by[i].0 == peer {
        dict::lemma_dict_at(block.known_by, i);
        assert(block.aware(peer));
    } else if !sees(block, peer) {
        assert(!block.aware(peer)) by {
            if block.aware(peer) {
                let p = dict::index_of_key(block.known_by, peer);
                assert(block.known_by[p].0 == peer);
            }
        }
        let reports = block.screened(peer, subject, kind).reports;
        if recorded(block.knowledge, subject, kind) {
            assert(reports =~= seq![Rep::UnexpectedMessage, Rep::ValidMessage]);
        } else {
            assert(reports =~= seq![Rep::UnexpectedMessage]);
        }
    }
}

/// A message is checked exactly if neither the node has it nor, as far as the peer is aware of the block, the
/// peer is known to.
pub proof fn only_news_are_checked(block: Block, i: int, peer: PeerId, subject: MessageSubject, kind: MessageKind)
    requires
        dict::keys_unique(block.known_by),
    ensures
        ({
            let proceed = block.screened(peer, subject, kind).proceed;
            let was = block.known_by[i].1;
            &&& 0 <= i < block.known_by.len() && block.known_by[i].0 == peer ==> (proceed <==> !recorded(
                was.received,
                subject,
                kind,
            ) && !recorded(was.sent, subject, kind) && !recorded(block.knowledge, subject, kind))
            &&& !sees(block, peer) ==> (proceed <==> !recorded(block.knowledge, subject, kind))
        }),
{
    if 0 <= i < block.known_by.len() && block.known_by[i].0 == peer {
        dict::lemma_dict_at(block.known_by, i);
        assert(block.aware(peer));
    } else if !sees(block, peer) {
        assert(!block.aware(peer)) by {
            if block.aware(peer) {
                let p = dict::index_of_key(block.known_by, peer);
                assert(block.known_by[p].0 == peer);
            }
        }
    }
}

/// What is noted when a message comes in: that the peer has sent it, unless it is to be checked first; of other
/// peers and of the block nothing.
pub proof fn senders_are_noted(
    block: Block,
    i: int,
    peer: PeerId,
    subject: MessageSubject,
    kind: MessageKind,
    other: MessageSubject,
)
    requires
        dict::keys_unique(block.known_by),
        0 <= i < block.known_by.len(),
    ensures
        ({
            let screening = block.screened(peer, subject, kind);
            let was = block.known_by[i].1;
            let now = screening.block.known_by[i].1;
            &&& screening.block == (Block { known_by: screening.block.known_by, ..block })
            &&& screening.block.known_by.len() == block.known_by.len()
            &&& screening.block.known_by[i].0 == block.known_by[i].0
            &&& now.sent == was.sent
            &&& block.known_by[i].0 != peer || screening.proceed ==> now == was
            &&& block.known_by[i].0 == peer && !screening.proceed ==> {
                &&& recorded(now.received, subject, kind)
                &&& recorded(was.received, subject, kind) ==> now == was
                &&& other != subject ==> (now.received.contains_key(other) <==> was.received.contains_key(other))
                &&& other != subject ==> now.received[other] == was.received[other]
            }
        }),
{
    if block.aware(peer) {
        let p = dict::index_of_key(block.known_by, peer);
        assert(block.known_by[p].0 == peer);
    }
    if block.known_by[i].0 == peer {
        dict::lemma_dict_at(block.known_by, i);
        assert(block.aware(peer));
    }
}

/// A message about a block that the node does not know costs the peer something, unless the block has just become
/// final; nothing else happens.
pub proof fn messages_about_unknown_blocks_are_unexpected(
    node: Node,
    peer: PeerId,
    assignment: Assignment,
    vote: IndirectSignedApprovalVoteV2,
    i: int,
)
    ensures
        (forall|b: int| 0 <= b < node.blocks.len() ==> (#[trigger] node.blocks[b]).0 != assignment.cert.block_hash)
            ==> {
            &&& 0 <= i < node.outdated.len() && node.outdated[i] == assignment.cert.block_hash
                ==> node.assignment_received(peer, assignment) == node
            &&& (forall|o: int|
                0 <= o < node.outdated.len() ==> #[trigger] node.outdated[o] != assignment.cert.block_hash)
                ==> node.assignment_received(peer, assignment) == node.reported(peer, Rep::UnexpectedMessage)
        },
        (forall|b: int| 0 <= b < node.blocks.len() ==> (#[trigger] node.blocks[b]).0 != vote.block_hash) ==> {
            &&& 0 <= i < node.outdated.len() && node.outdated[i] == vote.block_hash ==> node.approval_received(
                peer,
                vote,
            ) == node
            &&& (forall|o: int| 0 <= o < node.outdated.len() ==> #[trigger] node.outdated[o] != vote.block_hash)
                ==> node.approval_received(peer, vote) == node.reported(peer, Rep::UnexpectedMessage)
        },
{
}

/// A vote about candidates that the block does not have, or about one that its validator is not known to be
/// assigned to, costs the peer something; nothing else happens.
pub proof fn votes_without_assignment_are_unexpected(
    node: Node,
    peer: PeerId,
    vote: IndirectSignedApprovalVoteV2,
    i: int,
    candidate: int,
)
    requires
        dict::keys_unique(node.blocks),
        0 <= i < node.blocks.len(),
        node.blocks[i].0 == vote.block_hash,
        vote.candidate_indices.has(candidate),
        forall|o: int| 0 <= o < node.outdated.len() ==> #[trigger] node.outdated[o] != vote.block_hash,
        candidate >= node.blocks[i].1.candidates || forall|subject: MessageSubject|
            #[trigger] node.blocks[i].1.knowledge.contains_key(subject) && subject.validator == vote.validator
                ==> !subject.candidates.has(candidate),
    ensures
        node.approval_received(peer, vote) == node.reported(peer, Rep::UnexpectedMessage),
{
    dict::lemma_dict_at(node.blocks, i);
    assert(node.has_block(vote.block_hash));
    assert(node.block(vote.block_hash) == node.blocks[i].1);
}

/// A vote about candidates of a known block to each of which its validator is known to be assigned is looked at
/// like any other message.
pub proof fn votes_with_assignments_are_looked_at(
    node: Node,
    peer: PeerId,
    vote: IndirectSignedApprovalVoteV2,
    i: int,
)
    requires
        dict::keys_unique(node.blocks),
        0 <= i < node.blocks.len(),
        node.blocks[i].0 == vote.block_hash,
        forall|c: int| #[trigger]
            vote.candidate_indices.has(c) ==> c < node.blocks[i].1.candidates && exists|subject: MessageSubject|
                #[trigger] node.blocks[i].1.knowledge.contains_key(subject) && subject.validator == vote.validator
                    && subject.candidates.has(c),
    ensures
        ({
            let screening = node.blocks[i].1.screened(peer, approval_subject(vote), MessageKind::Approval);
            let next = node.approval_received(peer, vote);
            let told = node.reported_all(peer, screening.reports);
            &&& next.blocks == node.blocks.update(i, (vote.block_hash, screening.block))
            &&& next.standing == told.standing
            &&& screening.proceed ==> next.awaiting == Some((peer, PendingMessage::Approval(vote))) && next.out
                == told.out.push(Effect::CheckApproval(vote))
            &&& !screening.proceed ==> next.awaiting == node.awaiting && next.out == told.out
            &&& next == (Node {
                blocks: next.blocks,
                standing: next.standing,
                awaiting: next.awaiting,
                out: next.out,
                ..node
            })
        }),
{
    dict::lemma_dict_at(node.blocks, i);
    assert(node.has_block(vote.block_hash));
    assert(node.block(vote.block_hash) == node.blocks[i].1);
    let screening = node.blocks[i].1.screened(peer, approval_subject(vote), MessageKind::Approval);
    lemma_reported_all_apart(node, node.with_block(vote.block_hash, screening.block), peer, screening.reports);
}

/// An assignment about a known block is looked at: what is noted and reported is what its screening says, and a
/// new one is handed out to be checked, with the peer that sent it remembered.
pub proof fn assignments_are_looked_at(node: Node, peer: PeerId, assignment: Assignment, i: int)
    requires
        dict::keys_unique(node.blocks),
        0 <= i < node.blocks.len(),
        node.blocks[i].0 == assignment.cert.block_hash,
    ensures
        ({
            let screening = node.blocks[i].1.screened(
                peer,
                assignment_subject(assignment),
                MessageKind::Assignment,
            );
            let next = node.assignment_received(peer, assignment);
            let told = node.reported_all(peer, screening.reports);
            &&& next.blocks == node.blocks.update(i, (assignment.cert.block_hash, screening.block))
            &&& next.standing == told.standing
            &&& screening.proceed ==> next.awaiting == Some((peer, PendingMessage::Assignment(assignment)))
                && next.out == told.out.push(Effect::CheckAssignment(assignment))
            &&& !screening.proceed ==> next.awaiting == node.awaiting && next.out == told.out
            &&& next == (Node {
                blocks: next.blocks,
                standing: next.standing,
                awaiting: next.awaiting,
                out: next.out,
                ..node
            })
        }),
{
    dict::lemma_dict_at(node.blocks, i);
    assert(node.has_block(assignment.cert.block_hash));
    assert(node.block(assignment.cert.block_hash) == node.blocks[i].1);
    let screening = node.blocks[i].1.screened(peer, assignment_subject(assignment), MessageKind::Assignment);
    lemma_reported_all_apart(
        node,
        node.with_block(assignment.cert.block_hash, screening.block),
        peer,
        screening.reports,
    );
}

/// What is reported does not depend on the blocks.
proof fn lemma_reported_all_apart(a: Node, b: Node, peer: PeerId, reps: Seq<Rep>)
    requires
        b == (Node { blocks: b.blocks, ..a }),
    ensures
        b.reported_all(peer, reps) == (Node {
            standing: a.reported_all(peer, reps).standing,
            out: a.reported_all(peer, reps).out,
            ..b
        }),
    decreases reps.len(),
{
    if reps.len() > 0 {
        lemma_reported_all_apart(a, b, peer, reps.drop_last());
    }
}

/// Bad messages and assignments from too far in the future cost the peer that sent them something, each its own;
/// nothing else happens.
pub proof fn bad_messages_are_punished(
    node: Node,
    peer: PeerId,
    assignment: Assignment,
    vote: IndirectSignedApprovalVoteV2,
    error: ApprovalCheckError,
)
    ensures
        node.assignment_judged(peer, assignment, AssignmentCheckResult::Bad) == node.reported(
            peer,
            Rep::InvalidMessage,
        ),
        node.assignment_judged(peer, assignment, AssignmentCheckResult::TooFarInFuture) == node.reported(
            peer,
            Rep::AssignmentTooFarInTheFuture,
        ),
        node.approval_judged(peer, vote, ApprovalCheckResult::Bad(error)) == node.reported(peer, Rep::InvalidMessage),
{
}

/// An assignment that is known elsewhere already is only noted as received from the peer: nothing is reported,
/// learned or sent.
pub proof fn duplicates_known_elsewhere_are_noted_only(node: Node, peer: PeerId, assignment: Assignment, i: int, p: int)
    requires
        dict::keys_unique(node.blocks),
        0 <= i < node.blocks.len(),
        node.blocks[i].0 == assignment.cert.block_hash,
        dict::keys_unique(node.blocks[i].1.known_by),
        0 <= p < node.blocks[i].1.known_by.len(),
    ensures
        ({
            let next = node.assignment_judged(peer, assignment, AssignmentCheckResult::AcceptedDuplicate);
            let was = node.blocks[i].1;
            let now = next.blocks[i].1;
            &&& next == (Node { blocks: next.blocks, ..node })
            &&& next.blocks == node.blocks.update(i, (assignment.cert.block_hash, now))
            &&& now == (Block { known_by: now.known_by, ..was })
            &&& now.known_by.len() == was.known_by.len()
            &&& now.known_by[p].0 == was.known_by[p].0
            &&& now.known_by[p].1.sent == was.known_by[p].1.sent
            &&& was.known_by[p].0 != peer ==> now.known_by[p] == was.known_by[p]
            &&& was.known_by[p].0 == peer ==> now.known_by[p].1.received.contains_key(assignment_subject(assignment))
        }),
{
    dict::lemma_dict_at(node.blocks, i);
    assert(node.has_block(assignment.cert.block_hash));
    assert(node.block(assignment.cert.block_hash) == node.blocks[i].1);
    let block = node.blocks[i].1;
    dict::lemma_dict_at(block.known_by, p);
    if block.aware(peer) {
        let q = dict::index_of_key(block.known_by, peer);
        assert(block.known_by[q].0 == peer);
    }
}

/// A message that is found good earns the peer that sent it the reward for the first one, also where the block is
/// no longer known; of nobody else's reputation anything changes.
pub proof fn good_messages_are_rewarded(
    node: Node,
    peer: PeerId,
    assignment: Assignment,
    vote: IndirectSignedApprovalVoteV2,
)
    ensures
        ({
            let next = node.assignment_judged(peer, assignment, AssignmentCheckResult::Accepted);
            let told = node.reported(peer, Rep::ValidMessageFirst);
            &&& next.standing == told.standing
            &&& extended(told.out, next.out)
            &&& !node.has_block(assignment.cert.block_hash) ==> next == told
        }),
        ({
            let next = node.approval_judged(peer, vote, ApprovalCheckResult::Accepted);
            let told = node.reported(peer, Rep::ValidMessageFirst);
            &&& next.standing == told.standing
            &&& extended(told.out, next.out)
            &&& !node.has_block(vote.block_hash) ==> next == told
        }),
{
    let told = node.reported(peer, Rep::ValidMessageFirst);
    let next = node.assignment_judged(peer, assignment, AssignmentCheckResult::Accepted);
    lemma_extended_by(told.out, next.out.skip(told.out.len() as int));
    assert(node.has_block(assignment.cert.block_hash) ==> next.out =~= told.out + next.out.skip(
        told.out.len() as int,
    ));
    let last = node.approval_judged(peer, vote, ApprovalCheckResult::Accepted);
    lemma_extended_by(told.out, last.out.skip(told.out.len() as int));
    assert(node.has_block(vote.block_hash) ==> last.out =~= told.out + last.out.skip(told.out.len() as int));
}

/// What an assignment that was found good leaves behind at its block: the node knows it, the peer that sent it is
/// noted to have it, and it is the last of those that are passed on, not as the node's own.
pub proof fn good_assignments_are_passed_on(node: Node, peer: PeerId, assignment: Assignment, i: int)
    requires
        dict::keys_unique(node.blocks),
        0 <= i < node.blocks.len(),
        node.blocks[i].0 == assignment.cert.block_hash,
        dict::keys_unique(node.blocks[i].1.known_by),
    ensures
        ({
            let next = node.assignment_judged(peer, assignment, AssignmentCheckResult::Accepted);
            let was = node.blocks[i].1;
            let now = next.blocks[i].1;
            let subject = assignment_subject(assignment);
            &&& next.blocks == node.blocks.update(i, (assignment.cert.block_hash, now))
            &&& next == (Node {
                blocks: next.blocks,
                standing: next.standing,
                luck: next.luck,
                out: next.out,
                ..node
            })
            &&& now.knowledge == learned(was.knowledge, subject, MessageKind::Assignment)
            &&& now.entries.len() == was.entries.len() + 1
            &&& now.entries.drop_last() == was.entries
            &&& now.entries.last().assignment == assignment
            &&& !now.entries.last().local
            &&& now.entries.last().approvals.len() == 0
            &&& was.aware(peer) ==> now.aware(peer) && now.memory(peer).received.contains_key(subject)
        }),
{
    dict::lemma_dict_at(node.blocks, i);
    let hash = assignment.cert.block_hash;
    let subject = assignment_subject(assignment);
    assert(node.has_block(hash));
    assert(node.block(hash) == node.blocks[i].1);
    let was = node.blocks[i].1;
    let noted = was.after_learned(subject, MessageKind::Assignment).after_received(
        peer,
        subject,
        MessageKind::Assignment,
    );
    let told = node.reported(peer, Rep::ValidMessageFirst);
    lemma_with_block(told, hash, noted);
    let middle = told.with_block(hash, noted);
    dict::lemma_dict_at(middle.blocks, i);
    let next = node.assignment_judged(peer, assignment, AssignmentCheckResult::Accepted);
    let now = next.blocks[i].1;
    assert(next.blocks =~= node.blocks.update(i, (hash, now)));
    assert(now.entries.drop_last() =~= was.entries);
    if was.aware(peer) {
        let p = dict::index_of_key(was.known_by, peer);
        assert(was.known_by[p].0 == peer);
        assert(now.known_by[p].0 == peer);
        assert(dict::keys_unique(now.known_by)) by {
            assert forall|a: int, b: int| 0 <= a < b < now.known_by.len() implies #[trigger] now.known_by[a].0
                != #[trigger] now.known_by[b].0 by {
                assert(was.known_by[a].0 != was.known_by[b].0);
                assert(noted.known_by[a].0 == was.known_by[a].0);
                assert(noted.known_by[b].0 == was.known_by[b].0);
            }
        }
        dict::lemma_dict_at(now.known_by, p);
    }
}

/// What a vote that was found good leaves behind at its block: the node knows it, it is noted under the assignments of
/// its validator that it has a candidate in common with, and the peer that sent it is noted to have it.
pub proof fn good_votes_are_passed_on(node: Node, peer: PeerId, vote: IndirectSignedApprovalVoteV2, i: int, k: int)
    requires
        dict::keys_unique(node.blocks),
        0 <= i < node.blocks.len(),
        node.blocks[i].0 == vote.block_hash,
        dict::keys_unique(node.blocks[i].1.known_by),
    ensures
        ({
            let next = node.approval_judged(peer, vote, ApprovalCheckResult::Accepted);
            let was = node.blocks[i].1;
            let now = next.blocks[i].1;
            let subject = approval_subject(vote);
            &&& next.blocks == node.blocks.update(i, (vote.block_hash, now))
            &&& next == (Node { blocks: next.blocks, standing: next.standing, out: next.out, ..node })
            &&& now.knowledge == learned(was.knowledge, subject, MessageKind::Approval)
            &&& now.entries.len() == was.entries.len()
            &&& 0 <= k < was.entries.len() ==> now.entries[k] == if was.entries[k].assignment.cert.validator
                == vote.validator && share_a_candidate(was.entries[k], vote) {
                (Entry { approvals: was.entries[k].approvals.push(vote), ..was.entries[k] })
            } else {
                was.entries[k]
            }
            &&& was.aware(peer) ==> now.aware(peer) && recorded(
                now.memory(peer).received,
                subject,
                MessageKind::Approval,
            )
        }),
{
    dict::lemma_dict_at(node.blocks, i);
    let hash = vote.block_hash;
    let subject = approval_subject(vote);
    assert(node.has_block(hash));
    assert(node.block(hash) == node.blocks[i].1);
    let was = node.blocks[i].1;
    let noted = was.after_learned(subject, MessageKind::Approval).after_received(
        peer,
        subject,
        MessageKind::Approval,
    );
    let told = node.reported(peer, Rep::ValidMessageFirst);
    lemma_with_block(told, hash, noted);
    let middle = told.with_block(hash, noted);
    dict::lemma_dict_at(middle.blocks, i);
    let next = node.approval_judged(peer, vote, ApprovalCheckResult::Accepted);
    let now = next.blocks[i].1;
    assert(next.blocks =~= node.blocks.update(i, (hash, now)));
    passed_votes_are_noted(noted, Some(peer), vote, node.topology_of(was.session), k, 0);
    if was.aware(peer) {
        let p = dict::index_of_key(was.known_by, peer);
        assert(was.known_by[p].0 == peer);
        assert(now.known_by[p].0 == peer);
        assert(dict::keys_unique(now.known_by)) by {
            assert forall|a: int, b: int| 0 <= a < b < now.known_by.len() implies #[trigger] now.known_by[a].0
                != #[trigger] now.known_by[b].0 by {
                assert(was.known_by[a].0 != was.known_by[b].0);
                assert(noted.known_by[a].0 == was.known_by[a].0);
                assert(noted.known_by[b].0 == was.known_by[b].0);
            }
        }
        dict::lemma_dict_at(now.known_by, p);
    }
}

/// The node does nothing with own assignments and votes about blocks that it does not know, with those that it already
/// has, and with votes about candidates that the block does not have.
pub proof fn own_messages_are_passed_on_once(
    node: Node,
    assignment: Assignment,
    vote: IndirectSignedApprovalVoteV2,
    candidate: int,
)
    requires
        dict::keys_unique(node.blocks),
    ensures
        (forall|b: int| 0 <= b < node.blocks.len() ==> (#[trigger] node.blocks[b]).0 != assignment.cert.block_hash)
            ==> node.assignment_distributed(assignment) == node,
        (forall|b: int| 0 <= b < node.blocks.len() ==> (#[trigger] node.blocks[b]).0 != vote.block_hash)
            ==> node.approval_distributed(vote) == node,
        node.has_block(assignment.cert.block_hash) && node.block(
            assignment.cert.block_hash,
        ).knowledge.contains_key(assignment_subject(assignment)) ==> node.assignment_distributed(assignment) == node,
        node.has_block(vote.block_hash) && recorded(
            node.block(vote.block_hash).knowledge,
            approval_subject(vote),
            MessageKind::Approval,
        ) ==> node.approval_distributed(vote) == node,
        node.has_block(vote.block_hash) && vote.candidate_indices.has(candidate) && candidate >= node.block(
            vote.block_hash,
        ).candidates ==> node.approval_distributed(vote) == node,
{
}

/// What an assignment of the node's own leaves behind at its block, and nowhere else: the node knows it, and it is
/// the last of those that are passed on, as the node's own.
pub proof fn own_assignments_are_noted(node: Node, assignment: Assignment, i: int)
    requires
        dict::keys_unique(node.blocks),
        0 <= i < node.blocks.len(),
        node.blocks[i].0 == assignment.cert.block_hash,
        !node.blocks[i].1.knowledge.contains_key(assignment_subject(assignment)),
    ensures
        ({
            let next = node.assignment_distributed(assignment);
            let was = node.blocks[i].1;
            let now = next.blocks[i].1;
            &&& next.blocks == node.blocks.update(i, (assignment.cert.block_hash, now))
            &&& next == (Node { blocks: next.blocks, luck: next.luck, out: next.out, ..node })
            &&& now.knowledge == was.knowledge.insert(assignment_subject(assignment), MessageKind::Assignment)
            &&& now.entries.len() == was.entries.len() + 1
            &&& now.entries.drop_last() == was.entries
            &&& now.entries.last().assignment == assignment
            &&& now.entries.last().local
            &&& now.entries.last().approvals.len() == 0
        }),
{
    dict::lemma_dict_at(node.blocks, i);
    let hash = assignment.cert.block_hash;
    assert(node.has_block(hash));
    assert(node.block(hash) == node.blocks[i].1);
    let was = node.blocks[i].1;
    let noted = was.after_learned(assignment_subject(assignment), MessageKind::Assignment);
    lemma_with_block(node, hash, noted);
    let middle = node.with_block(hash, noted);
    dict::lemma_dict_at(middle.blocks, i);
    let next = node.assignment_distributed(assignment);
    let now = next.blocks[i].1;
    assert(next.blocks =~= node.blocks.update(i, (hash, now)));
    assert(now.entries.drop_last() =~= was.entries);
}

/// What a vote of the node's own leaves behind at its block, and nowhere else: the node knows it, and it is noted under
/// the assignments of its validator that it has a candidate in common with.
pub proof fn own_votes_are_noted(node: Node, vote: IndirectSignedApprovalVoteV2, i: int, k: int)
    requires
        dict::keys_unique(node.blocks),
        0 <= i < node.blocks.len(),
        node.blocks[i].0 == vote.block_hash,
        !recorded(node.blocks[i].1.knowledge, approval_subject(vote), MessageKind::Approval),
        forall|c: int| #[trigger] vote.candidate_indices.has(c) ==> c < node.blocks[i].1.candidates,
    ensures
        ({
            let next = node.approval_distributed(vote);
            let was = node.blocks[i].1;
            let now = next.blocks[i].1;
            &&& next.blocks == node.blocks.update(i, (vote.block_hash, now))
            &&& next == (Node { blocks: next.blocks, out: next.out, ..node })
            &&& now.knowledge == was.knowledge.insert(approval_subject(vote), MessageKind::Approval)
            &&& now.entries.len() == was.entries.len()
            &&& 0 <= k < was.entries.len() ==> now.entries[k] == if was.entries[k].assignment.cert.validator
                == vote.validator && share_a_candidate(was.entries[k], vote) {
                (Entry { approvals: was.entries[k].approvals.push(vote), ..was.entries[k] })
            } else {
                was.entries[k]
            }
        }),
{
    dict::lemma_dict_at(node.blocks, i);
    let hash = vote.block_hash;
    assert(node.has_block(hash));
    assert(node.block(hash) == node.blocks[i].1);
    let was = node.blocks[i].1;
    let noted = was.after_learned(approval_subject(vote), MessageKind::Approval);
    lemma_with_block(node, hash, noted);
    let middle = node.with_block(hash, noted);
    dict::lemma_dict_at(middle.blocks, i);
    let next = node.approval_distributed(vote);
    assert(next.blocks =~= node.blocks.update(i, (hash, next.blocks[i].1)));
    passed_votes_are_noted(noted, None, vote, node.topology_of(was.session), k, 0);
}

/// The result of a check is applied to the message that was waited for and to the peer that sent it, and to
/// nothing where another kind of message is waited for, or none.
pub proof fn checks_are_of_what_was_waited_for(
    node: Node,
    peer: PeerId,
    assignment: Assignment,
    vote: IndirectSignedApprovalVoteV2,
    assignment_result: AssignmentCheckResult,
    vote_result: ApprovalCheckResult,
)
    ensures
        node.awaiting == Some((peer, PendingMessage::Assignment(assignment))) ==> {
            &&& node.assignment_checked(assignment_result) == (Node { awaiting: None, ..node }).assignment_judged(
                peer,
                assignment,
                assignment_result,
            ).settled()
            &&& node.approval_checked(vote_result) == node
        },
        node.awaiting == Some((peer, PendingMessage::Approval(vote))) ==> {
            &&& node.approval_checked(vote_result) == (Node { awaiting: None, ..node }).approval_judged(
                peer,
                vote,
                vote_result,
            ).settled()
            &&& node.assignment_checked(assignment_result) == node
        },
        node.awaiting is None ==> {
            &&& node.assignment_checked(assignment_result) == node
            &&& node.approval_checked(vote_result) == node
        },
{
}

} // verus!
