//! The node's part in approval distribution as a whole: events go in, actions come out.
use crate::actions::{self, Action, Effect};
use crate::aggression::AggressionConfig;
use crate::batching::{
    ApprovalDistributionMessageV1, ApprovalDistributionMessageV3, Notification, Versioned,
};
use crate::bitfield::MAX_BITFIELD_SIZE;
use crate::chain::BlockApprovalMeta;
use crate::dict;
use crate::import::{ApprovalCheckResult, AssignmentCheckResult};
use crate::lists;
use crate::messages::{
    self, Assignment, AssignmentV1, IndirectSignedApprovalVote, IndirectSignedApprovalVoteV2,
};
use crate::primitives::{BlockNumber, PeerId, SessionIndex, ValidationVersion, ValidatorIndex};
use crate::random::Draws;
use crate::reputation::{Rep, ReputationAggregator, Standing, COST_OVERSIZED_BITFIELD};
use crate::state::{ChainView, Node, PendingMessage, State, Task};
use crate::topology::SessionGridTopology;
use vstd::prelude::*;

verus! {

/// The layout of the validators of a session in a grid.
#[derive(Debug)]
pub struct NewGossipTopology {
    pub session: SessionIndex,
    pub topology: SessionGridTopology,
    /// The node's own place, if it has one.
    pub local_index: Option<ValidatorIndex>,
}

/// Something that happens to the node.
#[derive(Debug)]
pub enum Event {
    /// A peer has connected.
    PeerConnected(PeerId, ValidationVersion),
    /// A peer has disconnected.
    PeerDisconnected(PeerId),
    /// A peer looks at other heads.
    PeerViewChange(PeerId, ChainView),
    /// The node itself looks at other heads.
    OurViewChange(ChainView),
    /// The validators of a session have been laid out in a grid.
    NewGossipTopology(NewGossipTopology),
    /// A peer has sent a message.
    PeerMessage(PeerId, Versioned),
    /// There are new blocks to be approved.
    NewBlocks(Vec<BlockApprovalMeta>),
    /// The node has been assigned to check candidates.
    DistributeAssignment(Assignment),
    /// The node has approved candidates.
    DistributeApproval(IndirectSignedApprovalVoteV2),
    /// Approval checking is behind by a number of blocks.
    ApprovalCheckingLagUpdate(BlockNumber),
    /// The chain has become final up to a number.
    BlockFinalized(BlockNumber),
    /// It is time to report what the peers have earned.
    ReputationTick,
}

/// Puts an assignment of the first form among the messages to import.
pub open spec fn assignment_message() -> spec_fn(AssignmentV1) -> Option<PendingMessage> {
    |assignment: AssignmentV1|
        match messages::upgraded_assignment(assignment) {
            Some(new) => Some(PendingMessage::Assignment(new)),
            None => None,
        }
}

/// Puts a vote of the first form among the messages to import.
pub open spec fn vote_message() -> spec_fn(IndirectSignedApprovalVote) -> Option<PendingMessage> {
    |vote: IndirectSignedApprovalVote|
        match messages::upgraded_vote(vote) {
            Some(new) => Some(PendingMessage::Approval(new)),
            None => None,
        }
}

/// Punishes an assignment with an index that no block can have.
pub open spec fn assignment_cost() -> spec_fn(AssignmentV1) -> Option<Rep> {
    |assignment: AssignmentV1|
        if assignment.candidate_index < MAX_BITFIELD_SIZE {
            None
        } else {
            Some(COST_OVERSIZED_BITFIELD)
        }
}

/// Punishes a vote with an index that no block can have.
pub open spec fn vote_cost() -> spec_fn(IndirectSignedApprovalVote) -> Option<Rep> {
    |vote: IndirectSignedApprovalVote|
        if vote.candidate_index < MAX_BITFIELD_SIZE {
            None
        } else {
            Some(COST_OVERSIZED_BITFIELD)
        }
}

/// The messages to import that a notification holds, in the form that the node works with.
pub open spec fn unpacked(notification: Notification) -> Seq<PendingMessage> {
    match notification {
        Notification::OldAssignments(_, list) => lists::filter_mapped(list, assignment_message()),
        Notification::OldApprovals(_, list) => lists::filter_mapped(list, vote_message()),
        Notification::NewAssignments(list) => list.map_values(|a: Assignment| PendingMessage::Assignment(a)),
        Notification::NewApprovals(list) => list.map_values(
            |v: IndirectSignedApprovalVoteV2| PendingMessage::Approval(v),
        ),
    }
}

/// What the sender of a notification is punished for.
pub open spec fn unpacking_costs(notification: Notification) -> Seq<Rep> {
    match notification {
        Notification::OldAssignments(_, list) => lists::filter_mapped(list, assignment_cost()),
        Notification::OldApprovals(_, list) => lists::filter_mapped(list, vote_cost()),
        Notification::NewAssignments(_) => Seq::empty(),
        Notification::NewApprovals(_) => Seq::empty(),
    }
}

impl Node {
    /// After a message from a peer has been put where it belongs: with the head that it waits for, or
    /// on the list of tasks.
    pub open spec fn message_stored(self, peer: PeerId, message: PendingMessage) -> Node {
        let hash = message.about();
        if dict::has_key(self.pending, hash) {
            let i = dict::index_of_key(self.pending, hash);
            Node { pending: self.pending.update(i, (hash, self.pending[i].1.push((peer, message)))), ..self }
        } else {
            Node { tasks: self.tasks.push(Task::Import(peer, message)), ..self }
        }
    }

    /// After several messages from a peer have been put where they belong.
    pub open spec fn messages_stored(self, peer: PeerId, list: Seq<PendingMessage>) -> Node
        decreases list.len(),
    {
        if list.len() == 0 {
            self
        } else {
            self.messages_stored(peer, list.drop_last()).message_stored(peer, list.last())
        }
    }

    /// After a notification from a peer.
    pub open spec fn notified(self, peer: PeerId, notification: Notification) -> Node {
        self.reported_all(peer, unpacking_costs(notification)).messages_stored(peer, unpacked(notification))
    }

    /// After the sums of reputation have been reported.
    pub open spec fn reputation_sent(self) -> Node {
        Node {
            standing: Standing { scores: Map::empty(), ..self.standing },
            out: if self.standing.scores == Map::<PeerId, i32>::empty() {
                self.out
            } else {
                self.out.push(Effect::ReportAll { sums: self.standing.scores, once_each: true })
            },
            ..self
        }
    }

    /// After an event has been taken in, before the tasks that it gives rise to.
    pub open spec fn digested(self, event: Event) -> Node {
        match event {
            Event::PeerConnected(peer, version) => self.peer_connected(peer, version),
            Event::PeerDisconnected(peer) => self.peer_disconnected(peer),
            Event::PeerViewChange(peer, view) => self.peer_view_changed(peer, view@),
            Event::OurViewChange(view) => self.our_view_changed(view@.heads),
            Event::NewGossipTopology(new) => self.topology_learned(new.session, new.topology@, new.local_index),
            Event::PeerMessage(peer, message) => self.notified(peer, message@),
            Event::NewBlocks(metas) => self.blocks_arrived(metas@),
            Event::DistributeAssignment(assignment) => self.assignment_distributed(assignment),
            Event::DistributeApproval(vote) => self.approval_distributed(vote),
            Event::ApprovalCheckingLagUpdate(lag) => Node { lag, ..self },
            Event::BlockFinalized(number) => self.block_finalized(number),
            Event::ReputationTick => self.reputation_sent(),
        }
    }

    /// After one task.
    pub open spec fn performed(self, task: Task) -> Node {
        match task {
            Task::Import(peer, PendingMessage::Assignment(assignment)) => self.assignment_received(
                peer,
                assignment,
            ),
            Task::Import(peer, PendingMessage::Approval(vote)) => self.approval_received(peer, vote),
            Task::EnableAggression => self.aggression_enabled(true),
        }
    }

    /// After some tasks, up to the first one that waits for a check.
    pub open spec fn advanced(self, tasks: Seq<Task>) -> Node
        decreases tasks.len(),
    {
        if tasks.len() == 0 || self.awaiting is Some {
            Node { tasks, ..self }
        } else {
            self.performed(tasks[0]).advanced(tasks.drop_first())
        }
    }

    /// After the tasks that can be done.
    pub open spec fn settled(self) -> Node {
        Node { tasks: Seq::empty(), ..self }.advanced(self.tasks)
    }

    /// After an event.
    pub open spec fn handled(self, event: Event) -> Node {
        self.digested(event).settled()
    }

    /// After the check of an assignment that the node waited for.
    pub open spec fn assignment_checked(self, result: AssignmentCheckResult) -> Node {
        match self.awaiting {
            Some((peer, PendingMessage::Assignment(assignment))) => Node { awaiting: None, ..self }.assignment_judged(
                peer,
                assignment,
                result,
            ).settled(),
            _ => self,
        }
    }

    /// After the check of a vote that the node waited for.
    pub open spec fn approval_checked(self, result: ApprovalCheckResult) -> Node {
        match self.awaiting {
            Some((peer, PendingMessage::Approval(vote))) => Node { awaiting: None, ..self }.approval_judged(
                peer,
                vote,
                result,
            ).settled(),
            _ => self,
        }
    }
}

/// The messages to import that a list of assignments of the first form holds, and what its sender is
/// punished for.
fn unpack_old_assignments(list: &Vec<AssignmentV1>) -> (parts: (Vec<PendingMessage>, Vec<Rep>))
    ensures
        parts.0@ == lists::filter_mapped(list@, assignment_message()),
        parts.1@ == lists::filter_mapped(list@, assignment_cost()),
{
    let mut found: Vec<PendingMessage> = Vec::new();
    let mut costs: Vec<Rep> = Vec::new();
    let mut i: usize = 0;
    while i < list.len()
        invariant
            i <= list.len(),
            found@ == lists::filter_mapped(list@.take(i as int), assignment_message()),
            costs@ == lists::filter_mapped(list@.take(i as int), assignment_cost()),
        decreases list.len() - i,
    {
        proof {
            lists::lemma_filter_mapped_step(list@, i as int, assignment_message());
            lists::lemma_filter_mapped_step(list@, i as int, assignment_cost());
        }
        match list[i].upgrade() {
            Some(assignment) => {
                found.push(PendingMessage::Assignment(assignment));
            },
            None => {
                costs.push(COST_OVERSIZED_BITFIELD);
            },
        }
        i += 1;
    }
    assert(list@.take(i as int) =~= list@);
    (found, costs)
}

/// The messages to import that a list of votes of the first form holds, and what its sender is
/// punished for.
fn unpack_old_approvals(list: &Vec<IndirectSignedApprovalVote>) -> (parts: (Vec<PendingMessage>, Vec<Rep>))
    ensures
        parts.0@ == lists::filter_mapped(list@, vote_message()),
        parts.1@ == lists::filter_mapped(list@, vote_cost()),
{
    let mut found: Vec<PendingMessage> = Vec::new();
    let mut costs: Vec<Rep> = Vec::new();
    let mut i: usize = 0;
    while i < list.len()
        invariant
            i <= list.len(),
            found@ == lists::filter_mapped(list@.take(i as int), vote_message()),
            costs@ == lists::filter_mapped(list@.take(i as int), vote_cost()),
        decreases list.len() - i,
    {
        proof {
            lists::lemma_filter_mapped_step(list@, i as int, vote_message());
            lists::lemma_filter_mapped_step(list@, i as int, vote_cost());
        }
        match list[i].upgrade() {
            Some(vote) => {
                found.push(PendingMessage::Approval(vote));
            },
            None => {
                costs.push(COST_OVERSIZED_BITFIELD);
            },
        }
        i += 1;
    }
    assert(list@.take(i as int) =~= list@);
    (found, costs)
}

/// The messages to import that a list of assignments holds.
fn unpack_assignments(list: &Vec<Assignment>) -> (found: Vec<PendingMessage>)
    ensures
        found@ == unpacked(Notification::NewAssignments(list@)),
{
    let ghost goal = unpacked(Notification::NewAssignments(list@));
    let mut found: Vec<PendingMessage> = Vec::new();
    let mut i: usize = 0;
    while i < list.len()
        invariant
            i <= list.len(),
            goal == unpacked(Notification::NewAssignments(list@)),
            found@ == goal.take(i as int),
        decreases list.len() - i,
    {
        found.push(PendingMessage::Assignment(list[i]));
        assert(found@ =~= goal.take(i + 1));
        i += 1;
    }
    assert(goal.take(i as int) =~= goal);
    found
}

/// The messages to import that a list of votes holds.
fn unpack_approvals(list: &Vec<IndirectSignedApprovalVoteV2>) -> (found: Vec<PendingMessage>)
    ensures
        found@ == unpacked(Notification::NewApprovals(list@)),
{
    let ghost goal = unpacked(Notification::NewApprovals(list@));
    let mut found: Vec<PendingMessage> = Vec::new();
    let mut i: usize = 0;
    while i < list.len()
        invariant
            i <= list.len(),
            goal == unpacked(Notification::NewApprovals(list@)),
            found@ == goal.take(i as int),
        decreases list.len() - i,
    {
        found.push(PendingMessage::Approval(list[i]));
        assert(found@ =~= goal.take(i + 1));
        i += 1;
    }
    assert(goal.take(i as int) =~= goal);
    found
}

/// The messages to import that a message from a peer holds, and what the peer is punished for.
pub fn unpack(message: &Versioned) -> (parts: (Vec<PendingMessage>, Vec<Rep>))
    ensures
        parts.0@ == unpacked(message@),
        parts.1@ == unpacking_costs(message@),
{
    match message {
        Versioned::V1(ApprovalDistributionMessageV1::Assignments(list)) => unpack_old_assignments(list),
        Versioned::V1(ApprovalDistributionMessageV1::Approvals(list)) => unpack_old_approvals(list),
        Versioned::V2(ApprovalDistributionMessageV1::Assignments(list)) => unpack_old_assignments(list),
        Versioned::V2(ApprovalDistributionMessageV1::Approvals(list)) => unpack_old_approvals(list),
        Versioned::V3(ApprovalDistributionMessageV3::Assignments(list)) => {
            let costs: Vec<Rep> = Vec::new();
            assert(costs@ =~= Seq::empty());
            (unpack_assignments(list), costs)
        },
        Versioned::V3(ApprovalDistributionMessageV3::Approvals(list)) => {
            let costs: Vec<Rep> = Vec::new();
            assert(costs@ =~= Seq::empty());
            (unpack_approvals(list), costs)
        },
    }
}

impl State {
    /// A state that remembers nothing.
    pub fn new(aggression_config: AggressionConfig, reputation: ReputationAggregator, draws: Draws) -> (state: State)
        requires
            reputation.wf(),
        ensures
            state.wf(),
            state@ == (Node {
                standing: reputation@,
                ..Node::fresh(aggression_config, reputation@.immediate, draws@)
            }),
    {
        let state = State {
            peer_views: Vec::new(),
            blocks: Vec::new(),
            pending_known: Vec::new(),
            topologies: Vec::new(),
            recent_outdated_blocks: Vec::new(),
            approval_checking_lag: 0,
            aggression_config,
            reputation,
            draws,
            tasks: Vec::new(),
            awaiting: None,
            outbox: Vec::new(),
        };
        proof {
            assert(state@.peers =~= Seq::empty());
            assert(state@.blocks =~= Seq::empty());
            assert(state@.pending =~= Seq::empty());
            assert(state@.topologies =~= Seq::empty());
            assert(state@.outdated =~= Seq::empty());
            assert(state@.tasks =~= Seq::empty());
            assert(state@.out =~= Seq::empty());
        }
        state
    }

    /// Puts a message from a peer where it belongs.
    fn store_message(&mut self, peer: PeerId, message: PendingMessage)
        requires
            old(self).parts_wf(),
        ensures
            final(self).parts_wf(),
            final(self)@ == old(self)@.message_stored(peer, message),
    {
        let ghost start = self@;
        match self.pending_position(message.block_hash()) {
            Some(i) => {
                self.pending_known[i].1.push((peer, message));
                proof {
                    let value = start.pending[i as int].1.push((peer, message));
                    assert(self.pending_known@[i as int].1@ == value);
                    assert(self@.pending =~= start.pending.update(i as int, (message.about(), value)));
                    dict::lemma_dict_update(start.pending, i as int, value);
                }
            },
            None => {
                self.tasks.push(Task::Import(peer, message));
            },
        }
    }

    /// Takes in a message from a peer.
    fn take_in_message(&mut self, peer: PeerId, message: &Versioned)
        requires
            old(self).parts_wf(),
        ensures
            final(self).parts_wf(),
            final(self)@ == old(self)@.notified(peer, message@),
    {
        let (list, costs) = unpack(message);
        self.modify_reputations(peer, &costs);
        let ghost middle = self@;
        let mut i: usize = 0;
        assert(list@.take(0) =~= Seq::empty());
        while i < list.len()
            invariant
                i <= list.len(),
                self.parts_wf(),
                self@ == middle.messages_stored(peer, list@.take(i as int)),
            decreases list.len() - i,
        {
            proof {
                assert(list@.take(i + 1).drop_last() =~= list@.take(i as int));
                assert(list@.take(i + 1).last() == list@[i as int]);
            }
            self.store_message(peer, list[i]);
            i += 1;
        }
        assert(list@.take(i as int) =~= list@);
    }

    /// Takes in an event, without doing the tasks that it gives rise to.
    fn digest(&mut self, event: Event)
        requires
            old(self).parts_wf(),
        ensures
            final(self).parts_wf(),
            final(self)@ == old(self)@.digested(event),
    {
        match event {
            Event::PeerConnected(peer, version) => self.connect_peer(peer, version),
            Event::PeerDisconnected(peer) => self.disconnect_peer(peer),
            Event::PeerViewChange(peer, view) => self.change_peer_view(peer, view),
            Event::OurViewChange(view) => self.change_our_view(&view),
            Event::NewGossipTopology(new) => self.learn_topology(new.session, &new.topology, new.local_index),
            Event::PeerMessage(peer, message) => self.take_in_message(peer, &message),
            Event::NewBlocks(metas) => self.take_in_blocks(&metas),
            Event::DistributeAssignment(assignment) => self.distribute_assignment(assignment),
            Event::DistributeApproval(vote) => self.distribute_approval(vote),
            Event::ApprovalCheckingLagUpdate(lag) => {
                self.approval_checking_lag = lag;
            },
            Event::BlockFinalized(number) => self.finalize(number),
            Event::ReputationTick => self.reputation.send(&mut self.outbox),
        }
    }

    /// Does one task.
    fn perform(&mut self, task: Task)
        requires
            old(self).parts_wf(),
        ensures
            final(self).parts_wf(),
            final(self)@ == old(self)@.performed(task),
    {
        match task {
            Task::Import(peer, PendingMessage::Assignment(assignment)) => self.receive_assignment(peer, assignment),
            Task::Import(peer, PendingMessage::Approval(vote)) => self.receive_approval(peer, vote),
            Task::EnableAggression => self.enable_aggression(true),
        }
    }

    /// Does the tasks that can be done, up to the first one that waits for a check.
    fn settle(&mut self)
        requires
            old(self).parts_wf(),
        ensures
            final(self).wf(),
            final(self)@ == old(self)@.settled(),
    {
        let ghost goal = self@.settled();
        let mut rest: Vec<Task> = Vec::new();
        std::mem::swap(&mut rest, &mut self.tasks);
        assert(self@.tasks =~= Seq::empty());
        while rest.len() > 0 && self.awaiting.is_none()
            invariant
                self.parts_wf(),
                self@.advanced(rest@) == goal,
            decreases rest.len(),
        {
            let ghost queue = rest@;
            let task = rest.remove(0);
            assert(rest@ =~= queue.drop_first());
            self.perform(task);
        }
        self.tasks = rest;
    }

    /// Takes in an event and does what follows from it, up to the first check that has to be waited
    /// for.  While a check is waited for, no event may be taken in.
    pub fn handle(&mut self, event: Event)
        requires
            old(self).wf(),
            old(self)@.awaiting is None,
        ensures
            final(self).wf(),
            final(self)@ == old(self)@.handled(event),
    {
        self.digest(event);
        self.settle();
    }

    /// Takes in the check of an assignment, and tells whether it was waited for.
    pub fn finish_assignment_check(&mut self, result: AssignmentCheckResult) -> (expected: bool)
        requires
            old(self).wf(),
        ensures
            final(self).wf(),
            final(self)@ == old(self)@.assignment_checked(result),
            expected <==> (old(self)@.awaiting matches Some((_, PendingMessage::Assignment(_)))),
    {
        match self.awaiting {
            Some((peer, PendingMessage::Assignment(assignment))) => {
                self.awaiting = None;
                self.judge_assignment(peer, assignment, result);
                self.settle();
                true
            },
            _ => false,
        }
    }

    /// Takes in the check of a vote, and tells whether it was waited for.
    pub fn finish_approval_check(&mut self, result: ApprovalCheckResult) -> (expected: bool)
        requires
            old(self).wf(),
        ensures
            final(self).wf(),
            final(self)@ == old(self)@.approval_checked(result),
            expected <==> (old(self)@.awaiting matches Some((_, PendingMessage::Approval(_)))),
    {
        match self.awaiting {
            Some((peer, PendingMessage::Approval(vote))) => {
                self.awaiting = None;
                self.judge_approval(peer, vote, result);
                self.settle();
                true
            },
            _ => false,
        }
    }

    /// Hands out what the node has been asked to do so far.
    pub fn take_actions(&mut self) -> (list: Vec<Action>)
        requires
            old(self).wf(),
        ensures
            final(self).wf(),
            actions::effects(list@) == old(self)@.out,
            final(self)@ == (Node { out: Seq::empty(), ..old(self)@ }),
    {
        let mut list: Vec<Action> = Vec::new();
        std::mem::swap(&mut list, &mut self.outbox);
        assert(self@.out =~= Seq::empty());
        list
    }
}

} // verus!
