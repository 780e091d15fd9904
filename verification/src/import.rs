//! What becomes of single assignments and votes, from peers and of the node's own.
use crate::actions::{self, Action, Effect};
use crate::batching::{send_approvals_batched, send_assignments_batched};
use crate::block::BlockEntry;
use crate::dict;
use crate::knowledge::{self, generate_approval_key, generate_assignment_key, MessageKind};
use crate::messages::{Assignment, IndirectSignedApprovalVoteV2};
use crate::primitives::{BlockHash, PeerId};
use crate::reputation::{
    BENEFIT_VALID_MESSAGE_FIRST, COST_ASSIGNMENT_TOO_FAR_IN_THE_FUTURE, COST_INVALID_MESSAGE,
    COST_UNEXPECTED_MESSAGE,
};
use crate::state::{blocks_in, find_topology, Node, PendingMessage, State};
use vstd::prelude::*;

verus! {

/// What approval voting says of an assignment.
#[derive(Clone, Copy, Debug, PartialEq, Eq)]
pub enum AssignmentCheckResult {
    /// The assignment is valid and new.
    Accepted,
    /// The assignment is valid, but covers no more than another one of the validator.
    AcceptedDuplicate,
    /// The assignment is valid, but too far in the future to act on it.
    TooFarInFuture,
    /// The assignment is not valid.
    Bad,
}

/// Why approval voting refuses a vote.
#[derive(Clone, Copy, Debug, PartialEq, Eq)]
pub enum ApprovalCheckError {
    /// The vote is about a block that approval voting does not know.
    UnknownBlock(BlockHash),
    /// Anything else.
    Invalid,
}

/// What approval voting says of a vote.
#[derive(Clone, Copy, Debug, PartialEq, Eq)]
pub enum ApprovalCheckResult {
    /// The vote is valid.
    Accepted,
    /// The vote is not valid.
    Bad(ApprovalCheckError),
}

impl Node {
    /// After an assignment about a known block has been passed on.
    pub open spec fn assignment_circulated(self, source: Option<PeerId>, assignment: Assignment) -> Node {
        let hash = assignment.cert.block_hash;
        let block = self.block(hash);
        let passed = block.circulated_assignment(
            source,
            assignment,
            self.topology_of(block.session),
            self.peers.len(),
            self.luck,
        );
        Node { luck: passed.luck, ..self.with_block(hash, passed.block) }.assignments_sent(
            seq![assignment],
            passed.receivers,
        )
    }

    /// After a vote about a known block has been passed on.
    pub open spec fn approval_circulated(self, source: Option<PeerId>, vote: IndirectSignedApprovalVoteV2) -> Node {
        let hash = vote.block_hash;
        let block = self.block(hash);
        let (passed, receivers) = block.circulated_approval(source, vote, self.topology_of(block.session));
        self.with_block(hash, passed).approvals_sent(seq![vote], receivers)
    }

    /// After a message about a block that the node does not have, or that lacks the candidates: the
    /// peer is punished, unless the block has only just become final.
    pub open spec fn misplaced(self, peer: PeerId, hash: BlockHash) -> Node {
        if self.outdated.contains(hash) {
            self
        } else {
            self.reported(peer, COST_UNEXPECTED_MESSAGE)
        }
    }

    /// After an assignment from a peer: approval voting is asked to check it if it is new.
    pub open spec fn assignment_received(self, peer: PeerId, assignment: Assignment) -> Node {
        let hash = assignment.cert.block_hash;
        if !self.has_block(hash) {
            self.misplaced(peer, hash)
        } else {
            let screening = self.block(hash).screened(
                peer,
                knowledge::assignment_subject(assignment),
                MessageKind::Assignment,
            );
            let scored = self.with_block(hash, screening.block).reported_all(peer, screening.reports);
            if screening.proceed {
                Node {
                    awaiting: Some((peer, PendingMessage::Assignment(assignment))),
                    out: scored.out.push(Effect::CheckAssignment(assignment)),
                    ..scored
                }
            } else {
                scored
            }
        }
    }

    /// After a vote from a peer: approval voting is asked to check it if it is new.  A vote that does
    /// not follow from assignments that the node has is unexpected.
    pub open spec fn approval_received(self, peer: PeerId, vote: IndirectSignedApprovalVoteV2) -> Node {
        let hash = vote.block_hash;
        if !self.has_block(hash) || !self.block(hash).contains_candidates(vote.candidate_indices) {
            self.misplaced(peer, hash)
        } else if !knowledge::covers_all(self.block(hash).knowledge, vote.validator, vote.candidate_indices) {
            self.reported(peer, COST_UNEXPECTED_MESSAGE)
        } else {
            let screening = self.block(hash).screened(
                peer,
                knowledge::approval_subject(vote),
                MessageKind::Approval,
            );
            let scored = self.with_block(hash, screening.block).reported_all(peer, screening.reports);
            if screening.proceed {
                Node {
                    awaiting: Some((peer, PendingMessage::Approval(vote))),
                    out: scored.out.push(Effect::CheckApproval(vote)),
                    ..scored
                }
            } else {
                scored
            }
        }
    }

    /// After the check of an assignment from a peer.
    pub open spec fn assignment_judged(self, peer: PeerId, assignment: Assignment, result: AssignmentCheckResult) -> Node {
        let hash = assignment.cert.block_hash;
        let subject = knowledge::assignment_subject(assignment);
        match result {
            AssignmentCheckResult::Accepted => {
                let scored = self.reported(peer, BENEFIT_VALID_MESSAGE_FIRST);
                if self.has_block(hash) {
                    let block = self.block(hash).after_learned(subject, MessageKind::Assignment).after_received(
                        peer,
                        subject,
                        MessageKind::Assignment,
                    );
                    scored.with_block(hash, block).assignment_circulated(Some(peer), assignment)
                } else {
                    scored
                }
            },
            AssignmentCheckResult::AcceptedDuplicate => if self.has_block(hash) {
                self.with_block(hash, self.block(hash).after_received(peer, subject, MessageKind::Assignment))
            } else {
                self
            },
            AssignmentCheckResult::TooFarInFuture => self.reported(peer, COST_ASSIGNMENT_TOO_FAR_IN_THE_FUTURE),
            AssignmentCheckResult::Bad => self.reported(peer, COST_INVALID_MESSAGE),
        }
    }

    /// After the check of a vote from a peer.
    pub open spec fn approval_judged(
        self,
        peer: PeerId,
        vote: IndirectSignedApprovalVoteV2,
        result: ApprovalCheckResult,
    ) -> Node {
        let hash = vote.block_hash;
        let subject = knowledge::approval_subject(vote);
        match result {
            ApprovalCheckResult::Accepted => {
                let scored = self.reported(peer, BENEFIT_VALID_MESSAGE_FIRST);
                if self.has_block(hash) {
                    let block = self.block(hash).after_learned(subject, MessageKind::Approval).after_received(
                        peer,
                        subject,
                        MessageKind::Approval,
                    );
                    scored.with_block(hash, block).approval_circulated(Some(peer), vote)
                } else {
                    scored
                }
            },
            ApprovalCheckResult::Bad(_) => self.reported(peer, COST_INVALID_MESSAGE),
        }
    }

    /// After the node has issued an assignment: it is passed on if the node did not have it, and
    /// dropped if the block is not known.
    pub open spec fn assignment_distributed(self, assignment: Assignment) -> Node {
        let hash = assignment.cert.block_hash;
        let subject = knowledge::assignment_subject(assignment);
        if !self.has_block(hash) || knowledge::knows(self.block(hash).knowledge, subject, MessageKind::Assignment) {
            self
        } else {
            self.with_block(
                hash,
                self.block(hash).after_learned(subject, MessageKind::Assignment),
            ).assignment_circulated(None, assignment)
        }
    }

    /// After the node has cast a vote: it is passed on if the node did not have it, and dropped if the
    /// block is not known or lacks the candidates.
    pub open spec fn approval_distributed(self, vote: IndirectSignedApprovalVoteV2) -> Node {
        let hash = vote.block_hash;
        let subject = knowledge::approval_subject(vote);
        if !self.has_block(hash) || !self.block(hash).contains_candidates(vote.candidate_indices)
            || knowledge::knows(self.block(hash).knowledge, subject, MessageKind::Approval) {
            self
        } else {
            self.with_block(
                hash,
                self.block(hash).after_learned(subject, MessageKind::Approval),
            ).approval_circulated(None, vote)
        }
    }
}

/// Changing a block in place is changing it by its hash.
pub(crate) proof fn lemma_block_changed(
    before: Seq<(BlockHash, BlockEntry)>,
    after: Seq<(BlockHash, BlockEntry)>,
    i: int,
)
    requires
        dict::keys_unique(blocks_in(before)),
        0 <= i < before.len(),
        after =~= before.update(i, (before[i].0, after[i].1)),
    ensures
        blocks_in(after) == blocks_in(before).update(i, (before[i].0, after[i].1@)),
        dict::keys_unique(blocks_in(after)),
        dict::index_of_key(blocks_in(after), before[i].0) == i,
        dict::has_key(blocks_in(after), before[i].0),
{
    assert(blocks_in(after) =~= blocks_in(before).update(i, (before[i].0, after[i].1@)));
    dict::lemma_dict_update(blocks_in(before), i, after[i].1@);
    dict::lemma_dict_at(blocks_in(after), i);
}

impl State {
    /// Whether a block is one of those that became final last.
    fn is_recent_outdated(&self, hash: BlockHash) -> (answer: bool)
        ensures
            answer == self@.outdated.contains(hash),
    {
        let mut i: usize = 0;
        while i < self.recent_outdated_blocks.len()
            invariant
                i <= self.recent_outdated_blocks.len(),
                forall|j: int| 0 <= j < i ==> self.recent_outdated_blocks@[j] != hash,
            decreases self.recent_outdated_blocks.len() - i,
        {
            if self.recent_outdated_blocks[i] == hash {
                return true;
            }
            i += 1;
        }
        false
    }

    /// Punishes a peer for a message about a block that the node does not have, unless it has only
    /// just become final.
    fn note_misplaced(&mut self, peer: PeerId, hash: BlockHash)
        requires
            old(self).parts_wf(),
        ensures
            final(self).parts_wf(),
            final(self)@ == old(self)@.misplaced(peer, hash),
    {
        if !self.is_recent_outdated(hash) {
            self.modify_reputation(peer, COST_UNEXPECTED_MESSAGE);
        }
    }

    /// Passes on an assignment about the block at a position.
    fn circulate_assignment(&mut self, position: usize, source: Option<PeerId>, assignment: Assignment)
        requires
            old(self).parts_wf(),
            position < old(self).blocks@.len(),
            old(self).blocks@[position as int].0 == assignment.cert.block_hash,
        ensures
            final(self).parts_wf(),
            final(self)@ == old(self)@.assignment_circulated(source, assignment),
    {
        let ghost start = self@;
        let ghost blocks = self.blocks@;
        proof {
            dict::lemma_dict_at(start.blocks, position as int);
        }
        let n_peers_total = self.peer_views.len();
        let topology = find_topology(&self.topologies, self.blocks[position].1.session);
        let receivers = self.blocks[position].1.circulate_assignment(
            source,
            assignment,
            topology,
            n_peers_total,
            &mut self.draws,
        );
        proof {
            lemma_block_changed(blocks, self.blocks@, position as int);
        }
        let versions = self.peer_versions(&receivers);
        let mut assignments: Vec<Assignment> = Vec::new();
        assignments.push(assignment);
        assert(assignments@ =~= seq![assignment]);
        send_assignments_batched(&mut self.outbox, &assignments, &versions);
    }

    /// Passes on a vote about the block at a position.
    fn circulate_approval(&mut self, position: usize, source: Option<PeerId>, vote: IndirectSignedApprovalVoteV2)
        requires
            old(self).parts_wf(),
            position < old(self).blocks@.len(),
            old(self).blocks@[position as int].0 == vote.block_hash,
        ensures
            final(self).parts_wf(),
            final(self)@ == old(self)@.approval_circulated(source, vote),
    {
        let ghost start = self@;
        let ghost blocks = self.blocks@;
        proof {
            dict::lemma_dict_at(start.blocks, position as int);
        }
        let topology = find_topology(&self.topologies, self.blocks[position].1.session);
        let receivers = self.blocks[position].1.circulate_approval(source, vote, topology);
        proof {
            lemma_block_changed(blocks, self.blocks@, position as int);
        }
        let versions = self.peer_versions(&receivers);
        let mut votes: Vec<IndirectSignedApprovalVoteV2> = Vec::new();
        votes.push(vote);
        assert(votes@ =~= seq![vote]);
        send_approvals_batched(&mut self.outbox, &votes, &versions);
    }

    /// Asks for the check of a message from a peer.
    fn request_check(&mut self, peer: PeerId, message: PendingMessage, action: Action)
        requires
            old(self).parts_wf(),
        ensures
            final(self).parts_wf(),
            final(self)@ == (Node {
                awaiting: Some((peer, message)),
                out: old(self)@.out.push(action@),
                ..old(self)@
            }),
    {
        proof {
            actions::lemma_effects_push(self.outbox@, action);
        }
        self.outbox.push(action);
        self.awaiting = Some((peer, message));
    }

    /// Screens an assignment from a peer, and asks for its check if it is new.
    pub fn receive_assignment(&mut self, peer: PeerId, assignment: Assignment)
        requires
            old(self).parts_wf(),
        ensures
            final(self).parts_wf(),
            final(self)@ == old(self)@.assignment_received(peer, assignment),
    {
        let hash = assignment.cert.block_hash;
        let position = match self.block_position(hash) {
            Some(i) => i,
            None => {
                self.note_misplaced(peer, hash);
                return;
            },
        };
        let ghost blocks = self.blocks@;
        let subject = generate_assignment_key(&assignment);
        let (reports, proceed) = self.blocks[position].1.screen(peer, subject, MessageKind::Assignment);
        proof {
            lemma_block_changed(blocks, self.blocks@, position as int);
        }
        self.modify_reputations(peer, &reports);
        if proceed {
            self.request_check(
                peer,
                PendingMessage::Assignment(assignment),
                Action::CheckAndImportAssignment(assignment),
            );
        }
    }

    /// Screens a vote from a peer, and asks for its check if it is new.
    pub fn receive_approval(&mut self, peer: PeerId, vote: IndirectSignedApprovalVoteV2)
        requires
            old(self).parts_wf(),
        ensures
            final(self).parts_wf(),
            final(self)@ == old(self)@.approval_received(peer, vote),
    {
        let hash = vote.block_hash;
        let position = match self.block_position(hash) {
            Some(i) => i,
            None => {
                self.note_misplaced(peer, hash);
                return;
            },
        };
        if !self.blocks[position].1.has_candidates(vote.candidate_indices) {
            self.note_misplaced(peer, hash);
            return;
        }
        if !self.blocks[position].1.knowledge.covers_candidates(vote.validator, vote.candidate_indices) {
            self.modify_reputation(peer, COST_UNEXPECTED_MESSAGE);
            return;
        }
        let ghost blocks = self.blocks@;
        let subject = generate_approval_key(&vote);
        let (reports, proceed) = self.blocks[position].1.screen(peer, subject, MessageKind::Approval);
        proof {
            lemma_block_changed(blocks, self.blocks@, position as int);
        }
        self.modify_reputations(peer, &reports);
        if proceed {
            self.request_check(peer, PendingMessage::Approval(vote), Action::CheckAndImportApproval(vote));
        }
    }

    /// Acts on the check of an assignment from a peer.
    pub fn judge_assignment(&mut self, peer: PeerId, assignment: Assignment, result: AssignmentCheckResult)
        requires
            old(self).parts_wf(),
        ensures
            final(self).parts_wf(),
            final(self)@ == old(self)@.assignment_judged(peer, assignment, result),
    {
        let hash = assignment.cert.block_hash;
        let subject = generate_assignment_key(&assignment);
        match result {
            AssignmentCheckResult::Accepted => {
                self.modify_reputation(peer, BENEFIT_VALID_MESSAGE_FIRST);
                if let Some(position) = self.block_position(hash) {
                    let ghost blocks = self.blocks@;
                    self.blocks[position].1.learn(subject, MessageKind::Assignment);
                    self.blocks[position].1.receive(peer, subject, MessageKind::Assignment);
                    proof {
                        lemma_block_changed(blocks, self.blocks@, position as int);
                    }
                    self.circulate_assignment(position, Some(peer), assignment);
                }
            },
            AssignmentCheckResult::AcceptedDuplicate => {
                if let Some(position) = self.block_position(hash) {
                    let ghost blocks = self.blocks@;
                    self.blocks[position].1.receive(peer, subject, MessageKind::Assignment);
                    proof {
                        lemma_block_changed(blocks, self.blocks@, position as int);
                    }
                }
            },
            AssignmentCheckResult::TooFarInFuture => {
                self.modify_reputation(peer, COST_ASSIGNMENT_TOO_FAR_IN_THE_FUTURE);
            },
            AssignmentCheckResult::Bad => {
                self.modify_reputation(peer, COST_INVALID_MESSAGE);
            },
        }
    }

    /// Acts on the check of a vote from a peer.
    pub fn judge_approval(&mut self, peer: PeerId, vote: IndirectSignedApprovalVoteV2, result: ApprovalCheckResult)
        requires
            old(self).parts_wf(),
        ensures
            final(self).parts_wf(),
            final(self)@ == old(self)@.approval_judged(peer, vote, result),
    {
        let hash = vote.block_hash;
        let subject = generate_approval_key(&vote);
        match result {
            ApprovalCheckResult::Accepted => {
                self.modify_reputation(peer, BENEFIT_VALID_MESSAGE_FIRST);
                if let Some(position) = self.block_position(hash) {
                    let ghost blocks = self.blocks@;
                    self.blocks[position].1.learn(subject, MessageKind::Approval);
                    self.blocks[position].1.receive(peer, subject, MessageKind::Approval);
                    proof {
                        lemma_block_changed(blocks, self.blocks@, position as int);
                    }
                    self.circulate_approval(position, Some(peer), vote);
                }
            },
            ApprovalCheckResult::Bad(_) => {
                self.modify_reputation(peer, COST_INVALID_MESSAGE);
            },
        }
    }

    /// Passes on an assignment of the node's own.
    pub fn distribute_assignment(&mut self, assignment: Assignment)
        requires
            old(self).parts_wf(),
        ensures
            final(self).parts_wf(),
            final(self)@ == old(self)@.assignment_distributed(assignment),
    {
        let hash = assignment.cert.block_hash;
        if let Some(position) = self.block_position(hash) {
            let ghost blocks = self.blocks@;
            let subject = generate_assignment_key(&assignment);
            if !self.blocks[position].1.knowledge.contains(subject, MessageKind::Assignment) {
                self.blocks[position].1.learn(subject, MessageKind::Assignment);
                proof {
                    lemma_block_changed(blocks, self.blocks@, position as int);
                }
                self.circulate_assignment(position, None, assignment);
            }
        }
    }

    /// Passes on a vote of the node's own.
    pub fn distribute_approval(&mut self, vote: IndirectSignedApprovalVoteV2)
        requires
            old(self).parts_wf(),
        ensures
            final(self).parts_wf(),
            final(self)@ == old(self)@.approval_distributed(vote),
    {
        let hash = vote.block_hash;
        if let Some(position) = self.block_position(hash) {
            let ghost blocks = self.blocks@;
            let subject = generate_approval_key(&vote);
            if self.blocks[position].1.has_candidates(vote.candidate_indices)
                && !self.blocks[position].1.knowledge.contains(subject, MessageKind::Approval) {
                self.blocks[position].1.learn(subject, MessageKind::Approval);
                proof {
                    lemma_block_changed(blocks, self.blocks@, position as int);
                }
                self.circulate_approval(position, None, vote);
            }
        }
    }
}

} // verus!
