//! Whole runs of the node, from events to actions.
use approval_distribution::actions::Action;
use approval_distribution::batching::{
    send_approvals_batched, send_assignments_batched, ApprovalDistributionMessageV1,
    ApprovalDistributionMessageV3, Versioned, MAX_APPROVAL_BATCH_SIZE, MAX_ASSIGNMENT_BATCH_SIZE,
};
use approval_distribution::bitfield::{Bitfield, CandidateBitfield};
use approval_distribution::chain::BlockApprovalMeta;
use approval_distribution::fixtures::{
    self, fake_assignment_cert, fake_assignment_cert_v2, make_gossip_topology, make_peers_and_authority_ids,
    state_with_reputation_delay, state_without_reputation_delay,
};
use approval_distribution::import::{ApprovalCheckError, ApprovalCheckResult, AssignmentCheckResult};
use approval_distribution::messages::{
    Assignment, AssignmentV1, IndirectAssignmentCert, IndirectAssignmentCertV2, IndirectSignedApprovalVote,
    IndirectSignedApprovalVoteV2, ValidatorSignature,
};
use approval_distribution::primitives::{BlockHash, BlockNumber, PeerId, ValidationVersion, ValidatorIndex};
use approval_distribution::random::Draws;
use approval_distribution::reputation::{
    Rep, BENEFIT_VALID_MESSAGE, BENEFIT_VALID_MESSAGE_FIRST, COST_DUPLICATE_MESSAGE,
    COST_INVALID_MESSAGE, COST_UNEXPECTED_MESSAGE,
};
use approval_distribution::state::{ChainView, State};
use approval_distribution::subsystem::{Event, NewGossipTopology};
use approval_distribution::topology::AuthorityDiscoveryId;
use std::collections::VecDeque;

/// The rest of the node: it hands events in and takes actions out.
struct Overseer {
    state: State,
    received: VecDeque<Action>,
}

impl Overseer {
    fn pull(&mut self) {
        self.received.extend(self.state.take_actions());
    }

    fn send(&mut self, event: Event) {
        assert!(self.state.awaiting.is_none(), "a check is waited for");
        self.state.handle(event);
        self.pull();
    }

    /// The next action; the time that waiting for it takes is enough to report reputation.
    fn try_recv(&mut self) -> Option<Action> {
        if self.received.is_empty() && self.state.awaiting.is_none() {
            self.send(Event::ReputationTick);
        }
        self.received.pop_front()
    }

    fn recv(&mut self) -> Action {
        self.try_recv().expect("msg recv timeout")
    }

    fn expect_silence(&mut self, reason: &str) {
        let next = self.try_recv();
        assert!(next.is_none(), "{}: {:?}", reason, next);
    }

    fn finish_assignment(&mut self, result: AssignmentCheckResult) {
        assert!(self.state.finish_assignment_check(result));
        self.pull();
    }

    fn finish_approval(&mut self, result: ApprovalCheckResult) {
        assert!(self.state.finish_approval_check(result));
        self.pull();
    }
}

fn default_state() -> State {
    state_with_reputation_delay(Draws::seed_from_u64(0))
}

fn immediate_state() -> State {
    state_without_reputation_delay(Draws::seed_from_u64(0))
}

fn test_harness(mut state: State, test_fn: impl FnOnce(&mut Overseer)) -> State {
    state.draws = Draws::seed_from_u64(12345);
    let mut overseer = Overseer { state, received: VecDeque::new() };
    test_fn(&mut overseer);
    overseer.state
}

fn view(heads: &[BlockHash]) -> ChainView {
    ChainView::new(heads.to_vec(), 0)
}

fn setup_peer_with_view(overseer: &mut Overseer, peer: PeerId, view: ChainView, version: ValidationVersion) {
    fixtures::setup_peer_with_view(&mut overseer.state, peer, view, version);
    overseer.pull();
}

fn gossip_topology(
    peers: &Vec<(PeerId, AuthorityDiscoveryId)>,
    neighbors_x: &[usize],
    neighbors_y: &[usize],
    local_index: usize,
) -> NewGossipTopology {
    make_gossip_topology(1, peers, &neighbors_x.to_vec(), &neighbors_y.to_vec(), local_index)
}

fn setup_gossip_topology(overseer: &mut Overseer, topology: NewGossipTopology) {
    fixtures::setup_gossip_topology(&mut overseer.state, topology);
    overseer.pull();
}

fn send_message_from_peer(overseer: &mut Overseer, peer: PeerId, msg: ApprovalDistributionMessageV1) {
    fixtures::send_message_from_peer(&mut overseer.state, peer, msg);
    overseer.pull();
}

fn send_message_from_peer_v2(overseer: &mut Overseer, peer: PeerId, msg: ApprovalDistributionMessageV1) {
    fixtures::send_message_from_peer_v2(&mut overseer.state, peer, msg);
    overseer.pull();
}

fn send_message_from_peer_v3(overseer: &mut Overseer, peer: PeerId, msg: ApprovalDistributionMessageV3) {
    fixtures::send_message_from_peer_v3(&mut overseer.state, peer, msg);
    overseer.pull();
}

fn expect_reputation_change(overseer: &mut Overseer, peer: PeerId, rep: Rep) {
    let action = overseer.recv();
    assert!(fixtures::expect_reputation_change(&action, peer, rep), "expected {:?}, got {:?}", rep, action);
}

fn expect_reputation_changes(overseer: &mut Overseer, peer: PeerId, reps: Vec<Rep>) {
    let action = overseer.recv();
    assert!(fixtures::expect_reputation_changes(&action, peer, &reps), "expected {:?}, got {:?}", reps, action);
}

fn expect_assignment_check(overseer: &mut Overseer) -> Assignment {
    match overseer.recv() {
        Action::CheckAndImportAssignment(assignment) => assignment,
        other => panic!("expected an assignment to check, got {:?}", other),
    }
}

fn expect_approval_check(overseer: &mut Overseer) -> IndirectSignedApprovalVoteV2 {
    match overseer.recv() {
        Action::CheckAndImportApproval(vote) => vote,
        other => panic!("expected a vote to check, got {:?}", other),
    }
}

fn expect_v1_assignments(overseer: &mut Overseer) -> (Vec<PeerId>, Vec<AssignmentV1>) {
    match overseer.recv() {
        Action::SendValidationMessage(peers, Versioned::V1(ApprovalDistributionMessageV1::Assignments(list))) => {
            (peers, list)
        }
        other => panic!("expected assignments of version 1, got {:?}", other),
    }
}

fn expect_v1_approvals(overseer: &mut Overseer) -> (Vec<PeerId>, Vec<IndirectSignedApprovalVote>) {
    match overseer.recv() {
        Action::SendValidationMessage(peers, Versioned::V1(ApprovalDistributionMessageV1::Approvals(list))) => {
            (peers, list)
        }
        other => panic!("expected votes of version 1, got {:?}", other),
    }
}

fn expect_v2_assignments(overseer: &mut Overseer) -> (Vec<PeerId>, Vec<AssignmentV1>) {
    match overseer.recv() {
        Action::SendValidationMessage(peers, Versioned::V2(ApprovalDistributionMessageV1::Assignments(list))) => {
            (peers, list)
        }
        other => panic!("expected assignments of version 2, got {:?}", other),
    }
}

fn expect_v2_approvals(overseer: &mut Overseer) -> (Vec<PeerId>, Vec<IndirectSignedApprovalVote>) {
    match overseer.recv() {
        Action::SendValidationMessage(peers, Versioned::V2(ApprovalDistributionMessageV1::Approvals(list))) => {
            (peers, list)
        }
        other => panic!("expected votes of version 2, got {:?}", other),
    }
}

fn expect_v3_assignments(overseer: &mut Overseer) -> (Vec<PeerId>, Vec<Assignment>) {
    match overseer.recv() {
        Action::SendValidationMessage(peers, Versioned::V3(ApprovalDistributionMessageV3::Assignments(list))) => {
            (peers, list)
        }
        other => panic!("expected assignments of version 3, got {:?}", other),
    }
}

fn expect_v3_approvals(overseer: &mut Overseer) -> (Vec<PeerId>, Vec<IndirectSignedApprovalVoteV2>) {
    match overseer.recv() {
        Action::SendValidationMessage(peers, Versioned::V3(ApprovalDistributionMessageV3::Approvals(list))) => {
            (peers, list)
        }
        other => panic!("expected votes of version 3, got {:?}", other),
    }
}

fn dummy_signature() -> ValidatorSignature {
    ValidatorSignature([0; 64])
}

fn single(index: u32) -> CandidateBitfield {
    Bitfield::single(index).unwrap()
}

fn field(indices: &[u32]) -> CandidateBitfield {
    Bitfield::from_indices(&indices.to_vec()).unwrap()
}

/// The assignment in the form that the node works with.
fn upgraded(cert: &IndirectAssignmentCert, candidate: u32) -> Assignment {
    Assignment { cert: cert.upgrade(), candidates: single(candidate) }
}

fn old_assignments(list: &[(IndirectAssignmentCert, u32)]) -> Vec<AssignmentV1> {
    list.iter().map(|(cert, candidate_index)| AssignmentV1 { cert: *cert, candidate_index: *candidate_index }).collect()
}

fn new_blocks(hash: BlockHash, parent_hash: BlockHash, number: BlockNumber, candidates: usize) -> Event {
    Event::NewBlocks(vec![BlockApprovalMeta { hash, parent_hash, number, candidates, session: 1 }])
}

/// A hash that no other block has, as long as the numbers of the blocks differ.
fn hash_of(parent_hash: BlockHash, number: BlockNumber) -> BlockHash {
    BlockHash { high: number as u128, low: parent_hash.low.wrapping_add(1) }
}

fn old_vote(hash: BlockHash, candidate_index: u32, validator: ValidatorIndex) -> IndirectSignedApprovalVote {
    IndirectSignedApprovalVote { block_hash: hash, candidate_index, validator, signature: dummy_signature() }
}

fn vote(hash: BlockHash, candidates: CandidateBitfield, validator: ValidatorIndex) -> IndirectSignedApprovalVoteV2 {
    IndirectSignedApprovalVoteV2 {
        block_hash: hash,
        candidate_indices: candidates,
        validator,
        signature: dummy_signature(),
    }
}

/// import an assignment
/// connect a new peer
/// the new peer sends us the same assignment
#[test]
fn try_import_the_same_assignment() {
    let peers = make_peers_and_authority_ids(15);
    let peer_a = peers[0].0;
    let peer_b = peers[1].0;
    let peer_c = peers[2].0;
    let peer_d = peers[4].0;
    let parent_hash = BlockHash::repeat_byte(0xFF);
    let hash = BlockHash::repeat_byte(0xAA);

    test_harness(immediate_state(), |overseer| {
        // setup peers
        setup_peer_with_view(overseer, peer_a, view(&[]), ValidationVersion::V1);
        setup_peer_with_view(overseer, peer_b, view(&[hash]), ValidationVersion::V1);
        setup_peer_with_view(overseer, peer_c, view(&[hash]), ValidationVersion::V1);

        // a, b, c and d are neighbors of the node
        setup_gossip_topology(overseer, gossip_topology(&peers, &[0, 1], &[2, 4], 3));

        // new block with 1 candidate
        overseer.send(new_blocks(hash, parent_hash, 2, 1));

        // send the assignment related to `hash`
        let validator_index = ValidatorIndex(0);
        let cert = fake_assignment_cert(hash, validator_index);
        let assignments = old_assignments(&[(cert, 0)]);

        let msg = ApprovalDistributionMessageV1::Assignments(assignments);
        send_message_from_peer(overseer, peer_a, msg);

        expect_reputation_change(overseer, peer_a, COST_UNEXPECTED_MESSAGE);

        let checked = expect_assignment_check(overseer);
        assert_eq!(checked.candidates, single(0));
        assert_eq!(checked.cert, cert.upgrade());
        overseer.finish_assignment(AssignmentCheckResult::Accepted);

        expect_reputation_change(overseer, peer_a, BENEFIT_VALID_MESSAGE_FIRST);

        let (sent_peers, assignments) = expect_v1_assignments(overseer);
        assert_eq!(sent_peers.len(), 2);
        assert_eq!(assignments.len(), 1);

        // setup new peer with the newest version
        setup_peer_with_view(overseer, peer_d, view(&[]), ValidationVersion::V3);

        // send the same assignment from peer_d
        let msg = ApprovalDistributionMessageV1::Assignments(assignments);
        send_message_from_peer(overseer, peer_d, msg);

        expect_reputation_change(overseer, peer_d, COST_UNEXPECTED_MESSAGE);
        expect_reputation_change(overseer, peer_d, BENEFIT_VALID_MESSAGE);

        overseer.expect_silence("no message should be sent");
    });
}

/// Just like `try_import_the_same_assignment` but with an assignment for multiple cores.
#[test]
fn try_import_the_same_assignment_v2() {
    let peers = make_peers_and_authority_ids(15);
    let peer_a = peers[0].0;
    let peer_b = peers[1].0;
    let peer_c = peers[2].0;
    let peer_d = peers[4].0;
    let parent_hash = BlockHash::repeat_byte(0xFF);
    let hash = BlockHash::repeat_byte(0xAA);

    test_harness(immediate_state(), |overseer| {
        // setup peers
        setup_peer_with_view(overseer, peer_a, view(&[]), ValidationVersion::V3);
        setup_peer_with_view(overseer, peer_b, view(&[hash]), ValidationVersion::V3);
        setup_peer_with_view(overseer, peer_c, view(&[hash]), ValidationVersion::V3);

        // a, b, c and d are neighbors of the node
        setup_gossip_topology(overseer, gossip_topology(&peers, &[0, 1], &[2, 4], 3));

        // new block with 1 candidate
        overseer.send(new_blocks(hash, parent_hash, 2, 1));

        // send the assignment related to `hash`
        let validator_index = ValidatorIndex(0);
        let cores = field(&[1, 2, 3, 4]);
        let cert = fake_assignment_cert_v2(hash, validator_index, cores);
        let assignments = vec![Assignment { cert, candidates: cores }];

        let msg = ApprovalDistributionMessageV3::Assignments(assignments);
        send_message_from_peer_v3(overseer, peer_a, msg);

        expect_reputation_change(overseer, peer_a, COST_UNEXPECTED_MESSAGE);

        let checked = expect_assignment_check(overseer);
        assert_eq!(checked.candidates, cores);
        assert_eq!(checked.cert, cert);
        overseer.finish_assignment(AssignmentCheckResult::Accepted);

        expect_reputation_change(overseer, peer_a, BENEFIT_VALID_MESSAGE_FIRST);

        let (sent_peers, assignments) = expect_v3_assignments(overseer);
        assert_eq!(sent_peers.len(), 2);
        assert_eq!(assignments.len(), 1);

        // setup new peer
        setup_peer_with_view(overseer, peer_d, view(&[]), ValidationVersion::V3);

        // send the same assignment from peer_d
        let msg = ApprovalDistributionMessageV3::Assignments(assignments);
        send_message_from_peer_v3(overseer, peer_d, msg);

        expect_reputation_change(overseer, peer_d, COST_UNEXPECTED_MESSAGE);
        expect_reputation_change(overseer, peer_d, BENEFIT_VALID_MESSAGE);

        overseer.expect_silence("no message should be sent");
    });
}

/// import an assignment
/// connect a new peer
/// state sends aggregated reputation change
#[test]
fn delay_reputation_change() {
    let peer = PeerId(7);
    let parent_hash = BlockHash::repeat_byte(0xFF);
    let hash = BlockHash::repeat_byte(0xAA);

    test_harness(default_state(), |overseer| {
        // setup peers
        setup_peer_with_view(overseer, peer, view(&[]), ValidationVersion::V1);

        // new block with 1 candidate
        overseer.send(new_blocks(hash, parent_hash, 2, 1));

        // send the assignment related to `hash`
        let validator_index = ValidatorIndex(0);
        let cert = fake_assignment_cert(hash, validator_index);
        let msg = ApprovalDistributionMessageV1::Assignments(old_assignments(&[(cert, 0)]));
        send_message_from_peer(overseer, peer, msg);

        let checked = expect_assignment_check(overseer);
        assert_eq!(checked.cert.cert, cert.upgrade().cert);
        assert_eq!(checked.candidates, field(&[0]));
        overseer.finish_assignment(AssignmentCheckResult::Accepted);

        expect_reputation_changes(overseer, peer, vec![COST_UNEXPECTED_MESSAGE, BENEFIT_VALID_MESSAGE_FIRST]);
        overseer.expect_silence("no message should be sent");
    });
}

/// 1. Send a view update that removes block B from their view.
/// 2. Send a message from B that they incur `COST_UNEXPECTED_MESSAGE` for, but then they receive
///    `BENEFIT_VALID_MESSAGE`.
/// 3. Send all other messages related to B.
#[test]
fn spam_attack_results_in_negative_reputation_change() {
    let parent_hash = BlockHash::repeat_byte(0xFF);
    let peer_a = PeerId(7);
    let hash_b = BlockHash::repeat_byte(0xBB);

    test_harness(immediate_state(), |overseer| {
        let peer = peer_a;
        setup_peer_with_view(overseer, peer, view(&[]), ValidationVersion::V1);

        // new block `hash_b` with 20 candidates
        let candidates_count: usize = 20;
        overseer.send(new_blocks(hash_b, parent_hash, 2, candidates_count));

        // send 20 assignments related to `hash_b` to populate our knowledge
        let assignments: Vec<(IndirectAssignmentCert, u32)> = (0..candidates_count)
            .map(|candidate_index| {
                let validator_index = ValidatorIndex(candidate_index as u32);
                (fake_assignment_cert(hash_b, validator_index), candidate_index as u32)
            })
            .collect();

        let msg = ApprovalDistributionMessageV1::Assignments(old_assignments(&assignments));
        send_message_from_peer(overseer, peer, msg.clone());

        for i in 0..candidates_count {
            expect_reputation_change(overseer, peer, COST_UNEXPECTED_MESSAGE);

            let checked = expect_assignment_check(overseer);
            assert_eq!(checked.cert, assignments[i].0.upgrade());
            assert_eq!(checked.candidates, single(assignments[i].1));
            overseer.finish_assignment(AssignmentCheckResult::Accepted);

            expect_reputation_change(overseer, peer, BENEFIT_VALID_MESSAGE_FIRST);
        }

        // send a view update that removes block B from peer's view by bumping the finalized_number
        overseer.send(Event::PeerViewChange(peer, ChainView::with_finalized(2)));

        // send the assignments again
        send_message_from_peer(overseer, peer, msg);

        // each of them will incur `COST_UNEXPECTED_MESSAGE`, not only the first one
        for _ in 0..candidates_count {
            expect_reputation_change(overseer, peer, COST_UNEXPECTED_MESSAGE);
            expect_reputation_change(overseer, peer, BENEFIT_VALID_MESSAGE);
        }
    });
}

/// Imagine we send a message to peer A and peer B.
/// Upon receiving them, they both will try to send the message each other.
/// This test makes sure they will not punish each other for such duplicate messages.
#[test]
fn peer_sending_us_the_same_we_just_sent_them_is_ok() {
    let parent_hash = BlockHash::repeat_byte(0xFF);
    let hash = BlockHash::repeat_byte(0xAA);

    let peers = make_peers_and_authority_ids(8);
    let peer_a = peers[0].0;

    test_harness(immediate_state(), |overseer| {
        let peer = peer_a;
        setup_peer_with_view(overseer, peer, view(&[]), ValidationVersion::V1);

        // peer_a is a neighbor of the node
        setup_gossip_topology(overseer, gossip_topology(&peers, &[0], &[2], 1));

        // new block `hash` with 1 candidate
        overseer.send(new_blocks(hash, parent_hash, 1, 1));

        // import an assignment related to `hash` locally
        let validator_index = ValidatorIndex(0);
        let candidate_index = 0u32;
        let cert = fake_assignment_cert(hash, validator_index);
        overseer.send(Event::DistributeAssignment(upgraded(&cert, candidate_index)));

        // update peer view to include the hash
        overseer.send(Event::PeerViewChange(peer, view(&[hash])));

        // we should send them the assignment
        let (sent_peers, assignments) = expect_v1_assignments(overseer);
        assert_eq!(sent_peers.len(), 1);
        assert_eq!(assignments.len(), 1);

        // but if someone else is sending it the same assignment
        // the peer could send us it as well
        let msg = ApprovalDistributionMessageV1::Assignments(old_assignments(&[(cert, candidate_index)]));
        send_message_from_peer(overseer, peer, msg.clone());

        overseer.expect_silence("we should not punish the peer");

        // send the assignments again
        send_message_from_peer(overseer, peer, msg);

        // now we should
        expect_reputation_change(overseer, peer, COST_DUPLICATE_MESSAGE);
    });
}

#[test]
fn import_approval_happy_path_v1_v2_peers() {
    let peers = make_peers_and_authority_ids(15);

    let peer_a = peers[0].0;
    let peer_b = peers[1].0;
    let peer_c = peers[2].0;
    let parent_hash = BlockHash::repeat_byte(0xFF);
    let hash = BlockHash::repeat_byte(0xAA);

    test_harness(immediate_state(), |overseer| {
        // setup peers with different protocol versions
        setup_peer_with_view(overseer, peer_a, view(&[]), ValidationVersion::V1);
        setup_peer_with_view(overseer, peer_b, view(&[hash]), ValidationVersion::V3);
        setup_peer_with_view(overseer, peer_c, view(&[hash]), ValidationVersion::V1);

        // new block with 1 candidate
        overseer.send(new_blocks(hash, parent_hash, 1, 1));

        // a, b, and c are neighbors of the node
        setup_gossip_topology(overseer, gossip_topology(&peers, &[0, 1], &[2, 4], 3));

        // import an assignment related to `hash` locally
        let validator_index = ValidatorIndex(0);
        let candidate_index = 0u32;
        let cert = fake_assignment_cert(hash, validator_index);
        overseer.send(Event::DistributeAssignment(upgraded(&cert, candidate_index)));

        // 1 peer is v1
        let (sent_peers, assignments) = expect_v1_assignments(overseer);
        assert_eq!(sent_peers.len(), 1);
        assert_eq!(assignments.len(), 1);

        // 1 peer is v3
        let (sent_peers, assignments) = expect_v3_assignments(overseer);
        assert_eq!(sent_peers.len(), 1);
        assert_eq!(assignments.len(), 1);

        // send an approval from peer_b
        let approval = vote(hash, single(candidate_index), validator_index);
        let msg = ApprovalDistributionMessageV3::Approvals(vec![approval]);
        send_message_from_peer_v3(overseer, peer_b, msg);

        assert_eq!(expect_approval_check(overseer), approval);
        overseer.finish_approval(ApprovalCheckResult::Accepted);

        expect_reputation_change(overseer, peer_b, BENEFIT_VALID_MESSAGE_FIRST);

        let (sent_peers, approvals) = expect_v1_approvals(overseer);
        assert_eq!(sent_peers.len(), 1);
        assert_eq!(approvals.len(), 1);
    });
}

// Test that a vote for multiple candidates is correctly processed.
#[test]
fn import_approval_happy_path_v2() {
    let peers = make_peers_and_authority_ids(15);

    let peer_a = peers[0].0;
    let peer_b = peers[1].0;
    let peer_c = peers[2].0;
    let parent_hash = BlockHash::repeat_byte(0xFF);
    let hash = BlockHash::repeat_byte(0xAA);

    test_harness(immediate_state(), |overseer| {
        setup_peer_with_view(overseer, peer_a, view(&[]), ValidationVersion::V3);
        setup_peer_with_view(overseer, peer_b, view(&[hash]), ValidationVersion::V3);
        setup_peer_with_view(overseer, peer_c, view(&[hash]), ValidationVersion::V3);

        // new block with 2 candidates
        overseer.send(new_blocks(hash, parent_hash, 1, 2));

        // a, b, and c are neighbors of the node
        setup_gossip_topology(overseer, gossip_topology(&peers, &[0, 1], &[2, 4], 3));

        // import an assignment related to `hash` locally
        let validator_index = ValidatorIndex(0);
        let candidate_indices = field(&[0, 1]);
        let cert = fake_assignment_cert_v2(hash, validator_index, field(&[0, 1]));
        overseer.send(Event::DistributeAssignment(Assignment { cert, candidates: candidate_indices }));

        let (sent_peers, assignments) = expect_v3_assignments(overseer);
        assert_eq!(sent_peers.len(), 2);
        assert_eq!(assignments.len(), 1);

        // send an approval from peer_b
        let approval = vote(hash, candidate_indices, validator_index);
        let msg = ApprovalDistributionMessageV3::Approvals(vec![approval]);
        send_message_from_peer_v3(overseer, peer_b, msg);

        assert_eq!(expect_approval_check(overseer), approval);
        overseer.finish_approval(ApprovalCheckResult::Accepted);

        expect_reputation_change(overseer, peer_b, BENEFIT_VALID_MESSAGE_FIRST);

        let (sent_peers, approvals) = expect_v3_approvals(overseer);
        assert_eq!(sent_peers.len(), 1);
        assert_eq!(approvals.len(), 1);
    });
}

// Tests that votes that cover multiple assignments candidates are correctly processed on importing
#[test]
fn multiple_assignments_covered_with_one_approval_vote() {
    let peers = make_peers_and_authority_ids(15);

    let peer_a = peers[0].0;
    let peer_b = peers[1].0;
    let peer_c = peers[2].0;
    let peer_d = peers[4].0;
    let parent_hash = BlockHash::repeat_byte(0xFF);
    let hash = BlockHash::repeat_byte(0xAA);

    test_harness(immediate_state(), |overseer| {
        setup_peer_with_view(overseer, peer_a, view(&[hash]), ValidationVersion::V3);
        setup_peer_with_view(overseer, peer_b, view(&[hash]), ValidationVersion::V3);
        setup_peer_with_view(overseer, peer_c, view(&[hash]), ValidationVersion::V3);
        setup_peer_with_view(overseer, peer_d, view(&[hash]), ValidationVersion::V3);

        // new block with 2 candidates
        overseer.send(new_blocks(hash, parent_hash, 1, 2));

        // a, b, c and d are neighbors of the node
        setup_gossip_topology(overseer, gossip_topology(&peers, &[0, 1], &[2, 4], 3));

        let validator_index = ValidatorIndex(2); // peer_c is the originator
        let candidate_indices = field(&[0, 1]);

        let cert = fake_assignment_cert_v2(hash, validator_index, field(&[0]));

        // send the candidate 0 assignment from peer_d
        let assignment = IndirectAssignmentCertV2 { block_hash: hash, validator: validator_index, cert: cert.cert };
        let msg =
            ApprovalDistributionMessageV3::Assignments(vec![Assignment { cert: assignment, candidates: single(0) }]);
        send_message_from_peer_v3(overseer, peer_d, msg);

        expect_assignment_check(overseer);
        overseer.finish_assignment(AssignmentCheckResult::Accepted);
        expect_reputation_change(overseer, peer_d, BENEFIT_VALID_MESSAGE_FIRST);

        let (sent_peers, assignments) = expect_v3_assignments(overseer);
        assert!(sent_peers.len() >= 2);
        assert!(sent_peers.contains(&peer_a));
        assert!(sent_peers.contains(&peer_b));
        assert_eq!(assignments.len(), 1);

        let cert = fake_assignment_cert_v2(hash, validator_index, field(&[1]));

        // send the candidate 1 assignment from peer_c
        let assignment = IndirectAssignmentCertV2 { block_hash: hash, validator: validator_index, cert: cert.cert };
        let msg =
            ApprovalDistributionMessageV3::Assignments(vec![Assignment { cert: assignment, candidates: single(1) }]);
        send_message_from_peer_v3(overseer, peer_c, msg);

        expect_assignment_check(overseer);
        overseer.finish_assignment(AssignmentCheckResult::Accepted);
        expect_reputation_change(overseer, peer_c, BENEFIT_VALID_MESSAGE_FIRST);

        let (sent_peers, assignments) = expect_v3_assignments(overseer);
        assert!(sent_peers.len() >= 2);
        assert!(sent_peers.contains(&peer_b));
        assert!(sent_peers.contains(&peer_a));
        assert_eq!(assignments.len(), 1);

        // send an approval from peer_d
        let approval = vote(hash, candidate_indices, validator_index);
        let msg = ApprovalDistributionMessageV3::Approvals(vec![approval]);
        send_message_from_peer_v3(overseer, peer_d, msg);

        assert_eq!(expect_approval_check(overseer), approval);
        overseer.finish_approval(ApprovalCheckResult::Accepted);

        expect_reputation_change(overseer, peer_d, BENEFIT_VALID_MESSAGE_FIRST);

        let (sent_peers, approvals) = expect_v3_approvals(overseer);
        assert!(sent_peers.len() >= 2);
        assert!(sent_peers.contains(&peer_b));
        assert!(sent_peers.contains(&peer_a));
        assert_eq!(approvals.len(), 1);

        for candidate_index in 0..1 {
            let signatures = overseer.state.get_approval_signatures(&vec![(hash, candidate_index)]);

            assert_eq!(signatures.len(), 1);
            for (signing_validator, signature) in signatures {
                assert_eq!(validator_index, signing_validator);
                assert_eq!(signature.0, hash);
                assert_eq!(signature.2, approval.signature);
                assert_eq!(signature.1, vec![0, 1]);
            }
        }
    });
}

// Tests that votes that cover multiple assignments candidates are correctly processed when unify
// with peer view
#[test]
fn unify_with_peer_multiple_assignments_covered_with_one_approval_vote() {
    let peers = make_peers_and_authority_ids(15);

    let peer_a = peers[0].0;
    let peer_b = peers[1].0;
    let peer_d = peers[4].0;
    let parent_hash = BlockHash::repeat_byte(0xFF);
    let hash = BlockHash::repeat_byte(0xAA);

    test_harness(immediate_state(), |overseer| {
        setup_peer_with_view(overseer, peer_d, view(&[hash]), ValidationVersion::V3);

        // new block with 2 candidates
        overseer.send(new_blocks(hash, parent_hash, 1, 2));

        // a, b, c and d are neighbors of the node
        setup_gossip_topology(overseer, gossip_topology(&peers, &[0, 1], &[2, 4], 3));

        let validator_index = ValidatorIndex(2); // peer_c is the originator
        let candidate_indices = field(&[0, 1]);

        let cert = fake_assignment_cert_v2(hash, validator_index, field(&[0]));

        // send the candidate 0 assignment from peer_d
        let assignment = IndirectAssignmentCertV2 { block_hash: hash, validator: validator_index, cert: cert.cert };
        let msg =
            ApprovalDistributionMessageV3::Assignments(vec![Assignment { cert: assignment, candidates: single(0) }]);
        send_message_from_peer_v3(overseer, peer_d, msg);

        expect_assignment_check(overseer);
        overseer.finish_assignment(AssignmentCheckResult::Accepted);
        expect_reputation_change(overseer, peer_d, BENEFIT_VALID_MESSAGE_FIRST);

        let cert = fake_assignment_cert_v2(hash, validator_index, field(&[1]));

        // send the candidate 1 assignment from peer_d
        let assignment = IndirectAssignmentCertV2 { block_hash: hash, validator: validator_index, cert: cert.cert };
        let msg =
            ApprovalDistributionMessageV3::Assignments(vec![Assignment { cert: assignment, candidates: single(1) }]);
        send_message_from_peer_v3(overseer, peer_d, msg);

        expect_assignment_check(overseer);
        overseer.finish_assignment(AssignmentCheckResult::Accepted);
        expect_reputation_change(overseer, peer_d, BENEFIT_VALID_MESSAGE_FIRST);

        // send an approval from peer_d
        let approval = vote(hash, candidate_indices, validator_index);
        let msg = ApprovalDistributionMessageV3::Approvals(vec![approval]);
        send_message_from_peer_v3(overseer, peer_d, msg);

        assert_eq!(expect_approval_check(overseer), approval);
        overseer.finish_approval(ApprovalCheckResult::Accepted);

        expect_reputation_change(overseer, peer_d, BENEFIT_VALID_MESSAGE_FIRST);

        setup_peer_with_view(overseer, peer_a, view(&[hash]), ValidationVersion::V3);
        setup_peer_with_view(overseer, peer_b, view(&[hash]), ValidationVersion::V3);
        let mut expected_peers_assignments = vec![peer_a, peer_b];
        let mut expected_peers_approvals = vec![peer_a, peer_b];

        for _ in 0..2 {
            let (sent_peers, assignments) = expect_v3_assignments(overseer);
            assert!(sent_peers.len() == 1);
            assert!(expected_peers_assignments.contains(&sent_peers[0]));
            expected_peers_assignments.retain(|peer| *peer != sent_peers[0]);
            assert_eq!(assignments.len(), 2);

            let (sent_peers, approvals) = expect_v3_approvals(overseer);
            assert!(sent_peers.len() == 1);
            assert!(expected_peers_approvals.contains(&sent_peers[0]));
            expected_peers_approvals.retain(|peer| *peer != sent_peers[0]);
            assert_eq!(approvals.len(), 1);
        }
    });
}

#[test]
fn import_approval_bad() {
    let peer_a = PeerId(7);
    let peer_b = PeerId(8);
    let parent_hash = BlockHash::repeat_byte(0xFF);
    let hash = BlockHash::repeat_byte(0xAA);

    test_harness(immediate_state(), |overseer| {
        // setup peers
        setup_peer_with_view(overseer, peer_a, view(&[]), ValidationVersion::V1);
        setup_peer_with_view(overseer, peer_b, view(&[hash]), ValidationVersion::V1);

        // new block with 1 candidate
        overseer.send(new_blocks(hash, parent_hash, 1, 1));

        let validator_index = ValidatorIndex(0);
        let candidate_index = 0u32;
        let cert = fake_assignment_cert(hash, validator_index);

        // send an approval from peer_b, we don't have an assignment yet
        let approval = vote(hash, single(candidate_index), validator_index);
        let msg = ApprovalDistributionMessageV3::Approvals(vec![approval]);
        send_message_from_peer_v3(overseer, peer_b, msg.clone());

        expect_reputation_change(overseer, peer_b, COST_UNEXPECTED_MESSAGE);

        // now import an assignment from peer_b
        let assignments = old_assignments(&[(cert, candidate_index)]);
        send_message_from_peer(overseer, peer_b, ApprovalDistributionMessageV1::Assignments(assignments));

        let checked = expect_assignment_check(overseer);
        assert_eq!(checked.cert, cert.upgrade());
        assert_eq!(checked.candidates, single(candidate_index));
        overseer.finish_assignment(AssignmentCheckResult::Accepted);

        expect_reputation_change(overseer, peer_b, BENEFIT_VALID_MESSAGE_FIRST);

        // and try again
        send_message_from_peer_v3(overseer, peer_b, msg);

        assert_eq!(expect_approval_check(overseer), approval);
        overseer.finish_approval(ApprovalCheckResult::Bad(ApprovalCheckError::UnknownBlock(hash)));

        expect_reputation_change(overseer, peer_b, COST_INVALID_MESSAGE);
    });
}

/// make sure we clean up the state on block finalized
#[test]
fn update_our_view() {
    let parent_hash = BlockHash::repeat_byte(0xFF);
    let hash_a = BlockHash::repeat_byte(0xAA);
    let hash_b = BlockHash::repeat_byte(0xBB);
    let hash_c = BlockHash::repeat_byte(0xCC);

    let state = test_harness(default_state(), |overseer| {
        let meta_a = BlockApprovalMeta { hash: hash_a, parent_hash, number: 1, candidates: 1, session: 1 };
        let meta_b = BlockApprovalMeta { hash: hash_b, parent_hash: hash_a, number: 2, candidates: 1, session: 1 };
        let meta_c = BlockApprovalMeta { hash: hash_c, parent_hash: hash_b, number: 3, candidates: 1, session: 1 };
        overseer.send(Event::NewBlocks(vec![meta_a, meta_b, meta_c]));
    });

    assert!(!state.blocks_by_number(1).is_empty());
    assert!(!state.blocks_by_number(2).is_empty());
    assert!(!state.blocks_by_number(3).is_empty());
    assert!(state.block(hash_a).is_some());
    assert!(state.block(hash_b).is_some());
    assert!(state.block(hash_c).is_some());

    let state = test_harness(state, |overseer| {
        // finalize a block
        fixtures::signal_block_finalized(&mut overseer.state, 2);
    });

    assert!(state.blocks_by_number(1).is_empty());
    assert!(state.blocks_by_number(2).is_empty());
    assert!(!state.blocks_by_number(3).is_empty());
    assert!(state.block(hash_a).is_none());
    assert!(state.block(hash_b).is_none());
    assert!(state.block(hash_c).is_some());

    let state = test_harness(state, |overseer| {
        // finalize a very high block
        fixtures::signal_block_finalized(&mut overseer.state, 4_000_000_000);
    });

    assert!(state.blocks_by_number(3).is_empty());
    assert!(state.block(hash_c).is_none());
}

fn finalized_number_of(state: &State, peer: PeerId) -> Option<BlockNumber> {
    state.peer(peer).map(|entry| entry.view.finalized_number)
}

fn n_sent_to(state: &State, hash: BlockHash, peer: PeerId) -> usize {
    state.block(hash).unwrap().peer_knowledge(peer).unwrap().sent.len()
}

/// make sure we unify with peers and clean up the state
#[test]
fn update_peer_view() {
    let parent_hash = BlockHash::repeat_byte(0xFF);
    let hash_a = BlockHash::repeat_byte(0xAA);
    let hash_b = BlockHash::repeat_byte(0xBB);
    let hash_c = BlockHash::repeat_byte(0xCC);
    let hash_d = BlockHash::repeat_byte(0xDD);
    let peers = make_peers_and_authority_ids(8);
    let peer = peers[0].0;

    let state = test_harness(default_state(), |overseer| {
        let meta_a = BlockApprovalMeta { hash: hash_a, parent_hash, number: 1, candidates: 1, session: 1 };
        let meta_b = BlockApprovalMeta { hash: hash_b, parent_hash: hash_a, number: 2, candidates: 1, session: 1 };
        let meta_c = BlockApprovalMeta { hash: hash_c, parent_hash: hash_b, number: 3, candidates: 1, session: 1 };
        overseer.send(Event::NewBlocks(vec![meta_a, meta_b, meta_c]));

        // the peer is a neighbor of the node
        setup_gossip_topology(overseer, gossip_topology(&peers, &[0], &[2], 1));

        let cert_a = fake_assignment_cert(hash_a, ValidatorIndex(0));
        let cert_b = fake_assignment_cert(hash_b, ValidatorIndex(0));

        overseer.send(Event::DistributeAssignment(upgraded(&cert_a, 0)));
        overseer.send(Event::DistributeAssignment(upgraded(&cert_b, 0)));

        // connect a peer
        setup_peer_with_view(overseer, peer, view(&[hash_a]), ValidationVersion::V1);

        // we should send relevant assignments to the peer
        let (sent_peers, assignments) = expect_v1_assignments(overseer);
        assert_eq!(sent_peers.len(), 1);
        assert_eq!(assignments.len(), 1);
    });

    assert_eq!(finalized_number_of(&state, peer), Some(0));
    assert_eq!(n_sent_to(&state, hash_a, peer), 1);

    let state = test_harness(state, |overseer| {
        // update peer's view
        overseer.send(Event::PeerViewChange(peer, ChainView::new(vec![hash_b, hash_c, hash_d], 2)));

        let cert_c = fake_assignment_cert(hash_c, ValidatorIndex(0));
        overseer.send(Event::DistributeAssignment(upgraded(&cert_c, 0)));

        // we should send relevant assignments to the peer
        let (sent_peers, assignments) = expect_v1_assignments(overseer);
        assert_eq!(sent_peers.len(), 1);
        assert_eq!(assignments.len(), 1);
        assert_eq!(assignments[0].cert, cert_c);
    });

    assert_eq!(finalized_number_of(&state, peer), Some(2));
    assert_eq!(n_sent_to(&state, hash_c, peer), 1);

    let finalized_number = 4_000_000_000;
    let state = test_harness(state, |overseer| {
        // update peer's view
        overseer.send(Event::PeerViewChange(peer, ChainView::with_finalized(finalized_number)));
    });

    assert_eq!(finalized_number_of(&state, peer), Some(finalized_number));
    assert!(state.block(hash_c).unwrap().peer_knowledge(peer).is_none());
}

/// E.g. if someone copies the keys...
#[test]
fn import_remotely_then_locally() {
    let peer = PeerId(7);
    let parent_hash = BlockHash::repeat_byte(0xFF);
    let hash = BlockHash::repeat_byte(0xAA);

    test_harness(immediate_state(), |overseer| {
        // setup the peer
        setup_peer_with_view(overseer, peer, view(&[hash]), ValidationVersion::V1);

        // new block with 1 candidate
        overseer.send(new_blocks(hash, parent_hash, 1, 1));

        // import the assignment remotely first
        let validator_index = ValidatorIndex(0);
        let candidate_index = 0u32;
        let cert = fake_assignment_cert(hash, validator_index);
        let assignments = old_assignments(&[(cert, candidate_index)]);
        send_message_from_peer(overseer, peer, ApprovalDistributionMessageV1::Assignments(assignments));

        let checked = expect_assignment_check(overseer);
        assert_eq!(checked.cert, cert.upgrade());
        assert_eq!(checked.candidates, single(candidate_index));
        overseer.finish_assignment(AssignmentCheckResult::Accepted);

        expect_reputation_change(overseer, peer, BENEFIT_VALID_MESSAGE_FIRST);

        // import the same assignment locally
        overseer.send(Event::DistributeAssignment(upgraded(&cert, candidate_index)));

        overseer.expect_silence("no message should be sent");

        // send the approval remotely
        let approval = vote(hash, single(candidate_index), validator_index);
        let msg = ApprovalDistributionMessageV3::Approvals(vec![approval]);
        send_message_from_peer_v3(overseer, peer, msg);

        assert_eq!(expect_approval_check(overseer), approval);
        overseer.finish_approval(ApprovalCheckResult::Accepted);
        expect_reputation_change(overseer, peer, BENEFIT_VALID_MESSAGE_FIRST);

        // import the same approval locally
        overseer.send(Event::DistributeApproval(approval));

        overseer.expect_silence("no message should be sent");
    });
}

#[test]
fn sends_assignments_even_when_state_is_approved() {
    let peers = make_peers_and_authority_ids(8);
    let peer = peers[0].0;
    let parent_hash = BlockHash::repeat_byte(0xFF);
    let hash = BlockHash::repeat_byte(0xAA);

    test_harness(default_state(), |overseer| {
        // new block with 1 candidate
        overseer.send(new_blocks(hash, parent_hash, 1, 1));

        // the peer is a neighbor of the node
        setup_gossip_topology(overseer, gossip_topology(&peers, &[0], &[2], 1));

        let validator_index = ValidatorIndex(0);
        let candidate_index = 0u32;

        // import an assignment and approval locally.
        let cert = fake_assignment_cert(hash, validator_index);
        let approval = old_vote(hash, candidate_index, validator_index);

        overseer.send(Event::DistributeAssignment(upgraded(&cert, candidate_index)));
        overseer.send(Event::DistributeApproval(approval.upgrade().unwrap()));

        // connect the peer.
        setup_peer_with_view(overseer, peer, view(&[hash]), ValidationVersion::V1);

        let assignments = old_assignments(&[(cert, candidate_index)]);
        let approvals = vec![approval];

        let (sent_peers, sent_assignments) = expect_v1_assignments(overseer);
        assert_eq!(sent_peers, vec![peer]);
        assert_eq!(sent_assignments, assignments);

        let (sent_peers, sent_approvals) = expect_v1_approvals(overseer);
        assert_eq!(sent_peers, vec![peer]);
        assert_eq!(sent_approvals, approvals);

        overseer.expect_silence("no message should be sent");
    });
}

/// Same as `sends_assignments_even_when_state_is_approved` but with an assignment for multiple cores.
#[test]
fn sends_assignments_even_when_state_is_approved_v2() {
    let peers = make_peers_and_authority_ids(8);
    let peer = peers[0].0;
    let parent_hash = BlockHash::repeat_byte(0xFF);
    let hash = BlockHash::repeat_byte(0xAA);

    test_harness(default_state(), |overseer| {
        // new block with 4 candidates
        overseer.send(new_blocks(hash, parent_hash, 1, 4));

        // the peer is a neighbor of the node
        setup_gossip_topology(overseer, gossip_topology(&peers, &[0], &[2], 1));

        let validator_index = ValidatorIndex(0);
        let cores = [0, 1, 2, 3];
        let candidate_bitfield = field(&cores);
        let core_bitfield = field(&cores);

        let cert = fake_assignment_cert_v2(hash, validator_index, core_bitfield);

        // Assumes candidate index == core index.
        let approvals: Vec<IndirectSignedApprovalVoteV2> =
            cores.iter().map(|core| vote(hash, single(*core), validator_index)).collect();

        overseer.send(Event::DistributeAssignment(Assignment { cert, candidates: candidate_bitfield }));

        for approval in &approvals {
            overseer.send(Event::DistributeApproval(*approval));
        }

        // connect the peer.
        setup_peer_with_view(overseer, peer, view(&[hash]), ValidationVersion::V3);

        let assignments = vec![Assignment { cert, candidates: candidate_bitfield }];

        let (sent_peers, sent_assignments) = expect_v3_assignments(overseer);
        assert_eq!(sent_peers, vec![peer]);
        assert_eq!(sent_assignments, assignments);

        let (sent_peers, sent_approvals) = expect_v3_approvals(overseer);
        assert_eq!(sent_peers, vec![peer]);
        assert_eq!(sent_approvals.len(), approvals.len());
        for approval in &approvals {
            assert!(sent_approvals.contains(approval));
        }

        overseer.expect_silence("no message should be sent");
    });
}

/// 1. Receive remote peer view update with an unknown head
/// 2. Receive assignments for that unknown head
/// 3. Update our view and import the new block
/// 4. Expect that no reputation with `COST_UNEXPECTED_MESSAGE` is applied
#[test]
fn race_condition_in_local_vs_remote_view_update() {
    let parent_hash = BlockHash::repeat_byte(0xFF);
    let peer = PeerId(7);
    let hash_b = BlockHash::repeat_byte(0xBB);

    test_harness(immediate_state(), |overseer| {
        // Test a small number of candidates
        let candidates_count = 1;

        // This will send a peer view that is ahead of our view
        setup_peer_with_view(overseer, peer, view(&[hash_b]), ValidationVersion::V1);

        // Send our view update to include a new head
        overseer.send(Event::OurViewChange(view(&[hash_b])));

        // send assignments related to `hash_b`, which have to wait
        let assignments: Vec<(IndirectAssignmentCert, u32)> = (0..candidates_count)
            .map(|candidate_index| {
                let validator_index = ValidatorIndex(candidate_index as u32);
                (fake_assignment_cert(hash_b, validator_index), candidate_index as u32)
            })
            .collect();

        let msg = ApprovalDistributionMessageV1::Assignments(old_assignments(&assignments));
        send_message_from_peer(overseer, peer, msg);

        // This will handle pending messages being processed
        overseer.send(new_blocks(hash_b, parent_hash, 2, candidates_count));

        for i in 0..candidates_count {
            let checked = expect_assignment_check(overseer);
            assert_eq!(checked.cert, assignments[i].0.upgrade());
            assert_eq!(checked.candidates, single(assignments[i].1));
            overseer.finish_assignment(AssignmentCheckResult::Accepted);

            // Since we have a valid statement pending, this should always occur
            expect_reputation_change(overseer, peer, BENEFIT_VALID_MESSAGE_FIRST);
        }
    });
}

// Tests that local messages propagate to both dimensions.
#[test]
fn propagates_locally_generated_assignment_to_both_dimensions() {
    let parent_hash = BlockHash::repeat_byte(0xFF);
    let hash = BlockHash::repeat_byte(0xAA);

    let peers = make_peers_and_authority_ids(100);

    test_harness(default_state(), |overseer| {
        // Connect all peers.
        for (peer, _) in &peers {
            setup_peer_with_view(overseer, *peer, view(&[hash]), ValidationVersion::V1);
        }

        // Set up a gossip topology.
        setup_gossip_topology(
            overseer,
            gossip_topology(
                &peers,
                &[0, 10, 20, 30, 40, 60, 70, 80],
                &[50, 51, 52, 53, 54, 55, 56, 57],
                1,
            ),
        );

        let expected_indices = [
            // Both dimensions in the gossip topology
            0, 10, 20, 30, 40, 60, 70, 80, 50, 51, 52, 53, 54, 55, 56, 57,
        ];

        // new block with 1 candidate
        overseer.send(new_blocks(hash, parent_hash, 1, 1));

        let validator_index = ValidatorIndex(0);
        let candidate_index = 0u32;

        // import an assignment and approval locally.
        let cert = fake_assignment_cert(hash, validator_index);
        let approval = old_vote(hash, candidate_index, validator_index);

        overseer.send(Event::DistributeAssignment(upgraded(&cert, candidate_index)));
        overseer.send(Event::DistributeApproval(approval.upgrade().unwrap()));

        let assignments = old_assignments(&[(cert, candidate_index)]);
        let approvals = vec![approval];

        let (assignment_sent_peers, sent_assignments) = expect_v1_assignments(overseer);
        assert_eq!(assignment_sent_peers.len(), expected_indices.len() + 4);
        for &i in &expected_indices {
            assert!(assignment_sent_peers.contains(&peers[i].0), "Message not sent to expected peer {}", i);
        }
        assert_eq!(sent_assignments, assignments);

        let (sent_peers, sent_approvals) = expect_v1_approvals(overseer);
        // Random sampling is reused from the assignment.
        assert_eq!(sent_peers, assignment_sent_peers);
        assert_eq!(sent_approvals, approvals);

        overseer.expect_silence("no message should be sent");
    });
}

// Tests that messages propagate to the unshared dimension.
#[test]
fn propagates_assignments_along_unshared_dimension() {
    let parent_hash = BlockHash::repeat_byte(0xFF);
    let hash = BlockHash::repeat_byte(0xAA);

    let peers = make_peers_and_authority_ids(100);

    test_harness(immediate_state(), |overseer| {
        // Connect all peers.
        for (peer, _) in &peers {
            setup_peer_with_view(overseer, *peer, view(&[hash]), ValidationVersion::V1);
        }

        // Set up a gossip topology.
        setup_gossip_topology(overseer, gossip_topology(&peers, &[0, 10, 20, 30], &[50, 51, 52, 53], 1));

        // new block with 1 candidate
        overseer.send(new_blocks(hash, parent_hash, 1, 1));

        // Test messages from X direction go to Y peers
        {
            let validator_index = ValidatorIndex(0);
            let candidate_index = 0u32;

            let cert = fake_assignment_cert(hash, validator_index);
            let assignments = old_assignments(&[(cert, candidate_index)]);
            let msg = ApprovalDistributionMessageV1::Assignments(assignments.clone());

            // Issuer of the message is important, not the peer we receive from.
            // 99 deliberately chosen because it's not in X or Y.
            send_message_from_peer(overseer, peers[99].0, msg);
            expect_assignment_check(overseer);
            overseer.finish_assignment(AssignmentCheckResult::Accepted);
            expect_reputation_change(overseer, peers[99].0, BENEFIT_VALID_MESSAGE_FIRST);

            let expected_y = [50, 51, 52, 53];

            let (sent_peers, sent_assignments) = expect_v1_assignments(overseer);
            assert_eq!(sent_peers.len(), expected_y.len() + 4);
            for &i in &expected_y {
                assert!(sent_peers.contains(&peers[i].0), "Message not sent to expected peer {}", i);
            }
            assert_eq!(sent_assignments, assignments);
        }

        // Test messages from Y direction go to X peers
        {
            let validator_index = ValidatorIndex(50);
            let candidate_index = 0u32;

            let cert = fake_assignment_cert(hash, validator_index);
            let assignments = old_assignments(&[(cert, candidate_index)]);
            let msg = ApprovalDistributionMessageV1::Assignments(assignments.clone());

            // Issuer of the message is important, not the peer we receive from.
            // 99 deliberately chosen because it's not in X or Y.
            send_message_from_peer(overseer, peers[99].0, msg);
            expect_assignment_check(overseer);
            overseer.finish_assignment(AssignmentCheckResult::Accepted);
            expect_reputation_change(overseer, peers[99].0, BENEFIT_VALID_MESSAGE_FIRST);

            let expected_x = [0, 10, 20, 30];

            let (sent_peers, sent_assignments) = expect_v1_assignments(overseer);
            assert_eq!(sent_peers.len(), expected_x.len() + 4);
            for &i in &expected_x {
                assert!(sent_peers.contains(&peers[i].0), "Message not sent to expected peer {}", i);
            }
            assert_eq!(sent_assignments, assignments);
        }

        overseer.expect_silence("no message should be sent");
    });
}

// tests that messages are propagated to necessary peers after they connect
#[test]
fn propagates_to_required_after_connect() {
    let parent_hash = BlockHash::repeat_byte(0xFF);
    let hash = BlockHash::repeat_byte(0xAA);

    let peers = make_peers_and_authority_ids(100);

    test_harness(default_state(), |overseer| {
        let omitted = [0, 10, 50, 51];

        // Connect all peers except omitted.
        for (i, (peer, _)) in peers.iter().enumerate() {
            if !omitted.contains(&i) {
                setup_peer_with_view(overseer, *peer, view(&[hash]), ValidationVersion::V1);
            }
        }

        // Set up a gossip topology.
        setup_gossip_topology(
            overseer,
            gossip_topology(
                &peers,
                &[0, 10, 20, 30, 40, 60, 70, 80],
                &[50, 51, 52, 53, 54, 55, 56, 57],
                1,
            ),
        );

        let expected_indices = [
            // Both dimensions in the gossip topology, minus omitted.
            20, 30, 40, 60, 70, 80, 52, 53, 54, 55, 56, 57,
        ];

        // new block with 1 candidate
        overseer.send(new_blocks(hash, parent_hash, 1, 1));

        let validator_index = ValidatorIndex(0);
        let candidate_index = 0u32;

        // import an assignment and approval locally.
        let cert = fake_assignment_cert(hash, validator_index);
        let approval = old_vote(hash, candidate_index, validator_index);

        overseer.send(Event::DistributeAssignment(upgraded(&cert, candidate_index)));
        overseer.send(Event::DistributeApproval(approval.upgrade().unwrap()));

        let assignments = old_assignments(&[(cert, candidate_index)]);
        let approvals = vec![approval];

        let (assignment_sent_peers, sent_assignments) = expect_v1_assignments(overseer);
        assert_eq!(assignment_sent_peers.len(), expected_indices.len() + 4);
        for &i in &expected_indices {
            assert!(assignment_sent_peers.contains(&peers[i].0), "Message not sent to expected peer {}", i);
        }
        assert_eq!(sent_assignments, assignments);

        let (sent_peers, sent_approvals) = expect_v1_approvals(overseer);
        // Random sampling is reused from the assignment.
        assert_eq!(sent_peers, assignment_sent_peers);
        assert_eq!(sent_approvals, approvals);

        for i in omitted.iter().copied() {
            setup_peer_with_view(overseer, peers[i].0, view(&[hash]), ValidationVersion::V1);

            let (sent_peers, sent_assignments) = expect_v1_assignments(overseer);
            assert_eq!(sent_peers.len(), 1);
            assert_eq!(sent_peers[0], peers[i].0);
            assert_eq!(sent_assignments, assignments);

            let (sent_peers, sent_approvals) = expect_v1_approvals(overseer);
            assert_eq!(sent_peers.len(), 1);
            assert_eq!(sent_peers[0], peers[i].0);
            assert_eq!(sent_approvals, approvals);
        }

        overseer.expect_silence("no message should be sent");
    });
}

// test that new gossip topology triggers send of messages.
#[test]
fn sends_to_more_peers_after_getting_topology() {
    let parent_hash = BlockHash::repeat_byte(0xFF);
    let hash = BlockHash::repeat_byte(0xAA);

    let peers = make_peers_and_authority_ids(100);

    test_harness(default_state(), |overseer| {
        // Connect all peers.
        for (peer, _) in &peers {
            setup_peer_with_view(overseer, *peer, view(&[hash]), ValidationVersion::V1);
        }

        // new block with 1 candidate
        overseer.send(new_blocks(hash, parent_hash, 1, 1));

        let validator_index = ValidatorIndex(0);
        let candidate_index = 0u32;

        // import an assignment and approval locally.
        let cert = fake_assignment_cert(hash, validator_index);
        let approval = old_vote(hash, candidate_index, validator_index);

        overseer.send(Event::DistributeAssignment(upgraded(&cert, candidate_index)));
        overseer.send(Event::DistributeApproval(approval.upgrade().unwrap()));

        let assignments = old_assignments(&[(cert, candidate_index)]);
        let approvals = vec![approval];

        let expected_indices = vec![0, 10, 20, 30, 50, 51, 52, 53];

        // Set up a gossip topology.
        setup_gossip_topology(overseer, gossip_topology(&peers, &[0, 10, 20, 30], &[50, 51, 52, 53], 1));

        let mut expected_indices_assignments = expected_indices.clone();
        let mut expected_indices_approvals = expected_indices.clone();

        for _ in 0..expected_indices.len() {
            let (sent_peers, sent_assignments) = expect_v1_assignments(overseer);
            // Sends to all expected peers.
            assert_eq!(sent_peers.len(), 1);
            assert_eq!(sent_assignments, assignments);

            let pos = expected_indices_assignments.iter().position(|i| peers[*i].0 == sent_peers[0]).unwrap();
            expected_indices_assignments.remove(pos);
        }

        for _ in 0..expected_indices.len() {
            let (sent_peers, sent_approvals) = expect_v1_approvals(overseer);
            // Sends to all expected peers.
            assert_eq!(sent_peers.len(), 1);
            assert_eq!(sent_approvals, approvals);

            let pos = expected_indices_approvals.iter().position(|i| peers[*i].0 == sent_peers[0]).unwrap();
            expected_indices_approvals.remove(pos);
        }

        overseer.expect_silence("no message should be sent");
    });
}

fn indices_of(peers: &Vec<(PeerId, AuthorityDiscoveryId)>, sent_peers: &Vec<PeerId>) -> Vec<usize> {
    sent_peers.iter().filter_map(|sent| peers.iter().position(|p| p.0 == *sent)).collect()
}

// test aggression L1
#[test]
fn originator_aggression_l1() {
    let parent_hash = BlockHash::repeat_byte(0xFF);
    let hash = BlockHash::repeat_byte(0xAA);

    let peers = make_peers_and_authority_ids(100);

    let mut state = default_state();
    state.aggression_config.resend_unfinalized_period = None;
    let aggression_l1_threshold = state.aggression_config.l1_threshold.unwrap();

    test_harness(state, |overseer| {
        // Connect all peers.
        for (peer, _) in &peers {
            setup_peer_with_view(overseer, *peer, view(&[hash]), ValidationVersion::V1);
        }

        // new block with 1 candidate
        overseer.send(new_blocks(hash, parent_hash, 1, 1));

        let validator_index = ValidatorIndex(0);
        let candidate_index = 0u32;

        // import an assignment and approval locally.
        let cert = fake_assignment_cert(hash, validator_index);
        let approval = old_vote(hash, candidate_index, validator_index);

        // Set up a gossip topology.
        setup_gossip_topology(overseer, gossip_topology(&peers, &[0, 10, 20, 30], &[50, 51, 52, 53], 1));

        overseer.send(Event::DistributeAssignment(upgraded(&cert, candidate_index)));
        overseer.send(Event::DistributeApproval(approval.upgrade().unwrap()));

        let assignments = old_assignments(&[(cert, candidate_index)]);
        let approvals = vec![approval];

        let (sent_peers, _) = expect_v1_assignments(overseer);
        let prev_sent_indices = indices_of(&peers, &sent_peers);

        expect_v1_approvals(overseer);

        // Add blocks until aggression L1 is triggered.
        {
            let mut parent_hash = hash;
            for level in 0..aggression_l1_threshold {
                let number = 1 + level + 1; // first block had number 1
                let hash = hash_of(parent_hash, number);

                overseer.send(Event::ApprovalCheckingLagUpdate(level + 1));
                overseer.send(new_blocks(hash, parent_hash, number, 0));

                parent_hash = hash;
            }
        }

        let unsent_indices: Vec<usize> =
            (0..peers.len()).filter(|i| !prev_sent_indices.contains(i)).collect();

        for _ in 0..unsent_indices.len() {
            let (sent_peers, sent_assignments) = expect_v1_assignments(overseer);
            // Sends to all expected peers.
            assert_eq!(sent_peers.len(), 1);
            assert_eq!(sent_assignments, assignments);
            assert!(unsent_indices.iter().any(|i| peers[*i].0 == sent_peers[0]));
        }

        for _ in 0..unsent_indices.len() {
            let (sent_peers, sent_approvals) = expect_v1_approvals(overseer);
            // Sends to all expected peers.
            assert_eq!(sent_peers.len(), 1);
            assert_eq!(sent_approvals, approvals);
            assert!(unsent_indices.iter().any(|i| peers[*i].0 == sent_peers[0]));
        }

        overseer.expect_silence("no message should be sent");
    });
}

// test aggression L1
#[test]
fn non_originator_aggression_l1() {
    let parent_hash = BlockHash::repeat_byte(0xFF);
    let hash = BlockHash::repeat_byte(0xAA);

    let peers = make_peers_and_authority_ids(100);

    let mut state = immediate_state();
    state.aggression_config.resend_unfinalized_period = None;
    let aggression_l1_threshold = state.aggression_config.l1_threshold.unwrap();

    test_harness(state, |overseer| {
        // Connect all peers.
        for (peer, _) in &peers {
            setup_peer_with_view(overseer, *peer, view(&[hash]), ValidationVersion::V1);
        }

        // new block with 1 candidate
        overseer.send(new_blocks(hash, parent_hash, 1, 1));

        let validator_index = ValidatorIndex(0);
        let candidate_index = 0u32;

        let cert = fake_assignment_cert(hash, validator_index);

        // Set up a gossip topology.
        setup_gossip_topology(overseer, gossip_topology(&peers, &[0, 10, 20, 30], &[50, 51, 52, 53], 1));

        let assignments = old_assignments(&[(cert, candidate_index)]);
        let msg = ApprovalDistributionMessageV1::Assignments(assignments);

        // Issuer of the message is important, not the peer we receive from.
        // 99 deliberately chosen because it's not in X or Y.
        send_message_from_peer(overseer, peers[99].0, msg);
        expect_assignment_check(overseer);
        overseer.finish_assignment(AssignmentCheckResult::Accepted);

        expect_reputation_change(overseer, peers[99].0, BENEFIT_VALID_MESSAGE_FIRST);

        expect_v1_assignments(overseer);

        // Add blocks until aggression L1 is triggered.
        {
            let mut parent_hash = hash;
            for level in 0..aggression_l1_threshold {
                let number = 1 + level + 1; // first block had number 1
                let hash = hash_of(parent_hash, number);
                overseer.send(new_blocks(hash, parent_hash, number, 0));

                parent_hash = hash;
            }
        }

        // No-op on non-originator

        overseer.expect_silence("no message should be sent");
    });
}

// test aggression L2 on non-originator
#[test]
fn non_originator_aggression_l2() {
    let parent_hash = BlockHash::repeat_byte(0xFF);
    let hash = BlockHash::repeat_byte(0xAA);

    let peers = make_peers_and_authority_ids(100);

    let mut state = immediate_state();
    state.aggression_config.resend_unfinalized_period = None;

    let aggression_l1_threshold = state.aggression_config.l1_threshold.unwrap();
    let aggression_l2_threshold = state.aggression_config.l2_threshold.unwrap();
    test_harness(state, |overseer| {
        // Connect all peers.
        for (peer, _) in &peers {
            setup_peer_with_view(overseer, *peer, view(&[hash]), ValidationVersion::V1);
        }

        // new block with 1 candidate
        overseer.send(new_blocks(hash, parent_hash, 1, 1));

        let validator_index = ValidatorIndex(0);
        let candidate_index = 0u32;

        let cert = fake_assignment_cert(hash, validator_index);

        // Set up a gossip topology.
        setup_gossip_topology(overseer, gossip_topology(&peers, &[0, 10, 20, 30], &[50, 51, 52, 53], 1));

        let assignments = old_assignments(&[(cert, candidate_index)]);
        let msg = ApprovalDistributionMessageV1::Assignments(assignments.clone());

        // Issuer of the message is important, not the peer we receive from.
        // 99 deliberately chosen because it's not in X or Y.
        send_message_from_peer(overseer, peers[99].0, msg);
        expect_assignment_check(overseer);
        overseer.finish_assignment(AssignmentCheckResult::Accepted);

        expect_reputation_change(overseer, peers[99].0, BENEFIT_VALID_MESSAGE_FIRST);

        let (sent_peers, _) = expect_v1_assignments(overseer);
        let prev_sent_indices = indices_of(&peers, &sent_peers);

        // Add blocks until aggression L1 is triggered.
        let chain_head = {
            let mut parent_hash = hash;
            for level in 0..aggression_l1_threshold {
                let number = 1 + level + 1; // first block had number 1
                let hash = hash_of(parent_hash, number);

                overseer.send(Event::ApprovalCheckingLagUpdate(level + 1));
                overseer.send(new_blocks(hash, parent_hash, number, 0));

                parent_hash = hash;
            }

            parent_hash
        };

        // No-op on non-originator

        // Add blocks until aggression L2 is triggered.
        {
            let mut parent_hash = chain_head;
            for level in 0..aggression_l2_threshold - aggression_l1_threshold {
                let number = aggression_l1_threshold + level + 1 + 1; // first block had number 1
                let hash = hash_of(parent_hash, number);

                overseer.send(Event::ApprovalCheckingLagUpdate(aggression_l1_threshold + level + 1));
                overseer.send(new_blocks(hash, parent_hash, number, 0));

                parent_hash = hash;
            }
        }

        // XY dimension - previously sent.
        let unsent_indices: Vec<usize> = [0, 10, 20, 30, 50, 51, 52, 53]
            .iter()
            .cloned()
            .filter(|i| !prev_sent_indices.contains(i))
            .collect();

        for _ in 0..unsent_indices.len() {
            let (sent_peers, sent_assignments) = expect_v1_assignments(overseer);
            // Sends to all expected peers.
            assert_eq!(sent_peers.len(), 1);
            assert_eq!(sent_assignments, assignments);
            assert!(unsent_indices.iter().any(|i| peers[*i].0 == sent_peers[0]));
        }

        overseer.expect_silence("no message should be sent");
    });
}

// Tests that messages are sent again while a block is not final.
#[test]
fn resends_messages_periodically() {
    let parent_hash = BlockHash::repeat_byte(0xFF);
    let hash = BlockHash::repeat_byte(0xAA);

    let peers = make_peers_and_authority_ids(100);

    let mut state = immediate_state();
    state.aggression_config.l1_threshold = None;
    state.aggression_config.l2_threshold = None;
    state.aggression_config.resend_unfinalized_period = Some(2);
    test_harness(state, |overseer| {
        // Connect all peers.
        for (peer, _) in &peers {
            setup_peer_with_view(overseer, *peer, view(&[hash]), ValidationVersion::V1);
        }

        // Set up a gossip topology.
        setup_gossip_topology(overseer, gossip_topology(&peers, &[0, 10, 20, 30], &[50, 51, 52, 53], 1));

        // new block with 1 candidate
        overseer.send(new_blocks(hash, parent_hash, 1, 1));

        let validator_index = ValidatorIndex(0);
        let candidate_index = 0u32;

        let cert = fake_assignment_cert(hash, validator_index);
        let assignments = old_assignments(&[(cert, candidate_index)]);

        {
            let msg = ApprovalDistributionMessageV1::Assignments(assignments.clone());

            // Issuer of the message is important, not the peer we receive from.
            // 99 deliberately chosen because it's not in X or Y.
            send_message_from_peer(overseer, peers[99].0, msg);
            expect_assignment_check(overseer);
            overseer.finish_assignment(AssignmentCheckResult::Accepted);
            expect_reputation_change(overseer, peers[99].0, BENEFIT_VALID_MESSAGE_FIRST);

            let expected_y = [50, 51, 52, 53];

            let (sent_peers, sent_assignments) = expect_v1_assignments(overseer);
            assert_eq!(sent_peers.len(), expected_y.len() + 4);
            for &i in &expected_y {
                assert!(sent_peers.contains(&peers[i].0), "Message not sent to expected peer {}", i);
            }
            assert_eq!(sent_assignments, assignments);
        }

        let mut number = 1;
        for _ in 0..10 {
            // Add blocks until resend is done.
            {
                let mut parent_hash = hash;
                for _ in 0..2 {
                    number = number + 1;
                    let hash = hash_of(parent_hash, number);

                    overseer.send(Event::ApprovalCheckingLagUpdate(2));
                    overseer.send(new_blocks(hash, parent_hash, number, 0));

                    parent_hash = hash;
                }
            }

            let mut expected_y = vec![50, 51, 52, 53];

            // Expect messages sent only to topology peers, one by one.
            for _ in 0..expected_y.len() {
                let (sent_peers, sent_assignments) = expect_v1_assignments(overseer);
                assert_eq!(sent_peers.len(), 1);
                let expected_pos = expected_y.iter().position(|&i| peers[i].0 == sent_peers[0]).unwrap();

                expected_y.remove(expected_pos);
                assert_eq!(sent_assignments, assignments);
            }
        }

        overseer.expect_silence("no message should be sent");
    });
}

/// Tests that peers correctly receive versioned messages.
#[test]
fn import_versioned_approval() {
    let peers = make_peers_and_authority_ids(15);
    let peer_a = peers[0].0;
    let peer_b = peers[1].0;
    let peer_c = peers[2].0;

    let parent_hash = BlockHash::repeat_byte(0xFF);
    let hash = BlockHash::repeat_byte(0xAA);
    test_harness(immediate_state(), |overseer| {
        // All peers are aware of relay parent.
        setup_peer_with_view(overseer, peer_a, view(&[hash]), ValidationVersion::V2);
        setup_peer_with_view(overseer, peer_b, view(&[hash]), ValidationVersion::V1);
        setup_peer_with_view(overseer, peer_c, view(&[hash]), ValidationVersion::V2);

        // a, b, c and d are neighbors of the node
        setup_gossip_topology(overseer, gossip_topology(&peers, &[0, 1], &[2, 4], 3));

        // new block with 1 candidate
        overseer.send(new_blocks(hash, parent_hash, 1, 1));

        // import an assignment related to `hash` locally
        let validator_index = ValidatorIndex(0);
        let candidate_index = 0u32;
        let cert = fake_assignment_cert(hash, validator_index);
        overseer.send(Event::DistributeAssignment(upgraded(&cert, candidate_index)));

        let (sent_peers, assignments) = expect_v1_assignments(overseer);
        assert_eq!(sent_peers, vec![peer_b]);
        assert_eq!(assignments.len(), 1);

        let (sent_peers, assignments) = expect_v2_assignments(overseer);
        assert_eq!(sent_peers.len(), 2);
        assert!(sent_peers.contains(&peer_a));
        assert!(sent_peers.contains(&peer_c));
        assert_eq!(assignments.len(), 1);

        // send an approval from peer_a
        let approval = old_vote(hash, candidate_index, validator_index);
        let msg = ApprovalDistributionMessageV1::Approvals(vec![approval]);
        send_message_from_peer_v2(overseer, peer_a, msg);

        assert_eq!(expect_approval_check(overseer), approval.upgrade().unwrap());
        overseer.finish_approval(ApprovalCheckResult::Accepted);

        expect_reputation_change(overseer, peer_a, BENEFIT_VALID_MESSAGE_FIRST);

        // Peers b and c receive versioned approval messages.
        let (sent_peers, approvals) = expect_v1_approvals(overseer);
        assert_eq!(sent_peers, vec![peer_b]);
        assert_eq!(approvals.len(), 1);

        let (sent_peers, approvals) = expect_v2_approvals(overseer);
        assert_eq!(sent_peers, vec![peer_c]);
        assert_eq!(approvals.len(), 1);
    });
}

fn batch_test_round(message_count: usize) {
    let assignments: Vec<Assignment> = (0..message_count)
        .map(|index| upgraded(&fake_assignment_cert(BlockHash::zero(), ValidatorIndex(index as u32)), 0))
        .collect();

    let approvals: Vec<IndirectSignedApprovalVoteV2> = (0..message_count)
        .map(|index| vote(BlockHash::zero(), single(0), ValidatorIndex(index as u32)))
        .collect();

    let peer = PeerId(7);
    let mut out = Vec::new();
    send_assignments_batched(&mut out, &assignments, &vec![(peer, ValidationVersion::V1)]);
    send_approvals_batched(&mut out, &approvals, &vec![(peer, ValidationVersion::V1)]);
    let mut overseer = Overseer { state: default_state(), received: VecDeque::from(out) };

    // Check expected assignments batches.
    for assignment_index in (0..assignments.len()).step_by(MAX_ASSIGNMENT_BATCH_SIZE) {
        let (sent_peers, sent_assignments) = expect_v1_assignments(&mut overseer);
        // Last batch should cover all remaining messages.
        if sent_assignments.len() < MAX_ASSIGNMENT_BATCH_SIZE {
            assert_eq!(sent_assignments.len() + assignment_index, assignments.len());
        } else {
            assert_eq!(sent_assignments.len(), MAX_ASSIGNMENT_BATCH_SIZE);
        }

        assert_eq!(sent_peers.len(), 1);

        for (message_index, assignment) in sent_assignments.iter().enumerate() {
            assert_eq!(assignment.cert, assignments[assignment_index + message_index].cert.downgrade().unwrap());
            assert_eq!(assignment.candidate_index, 0);
        }
    }

    // Check approval vote batching.
    for approval_index in (0..approvals.len()).step_by(MAX_APPROVAL_BATCH_SIZE) {
        let (sent_peers, sent_approvals) = expect_v1_approvals(&mut overseer);
        // Last batch should cover all remaining messages.
        if sent_approvals.len() < MAX_APPROVAL_BATCH_SIZE {
            assert_eq!(sent_approvals.len() + approval_index, approvals.len());
        } else {
            assert_eq!(sent_approvals.len(), MAX_APPROVAL_BATCH_SIZE);
        }

        assert_eq!(sent_peers.len(), 1);

        for (message_index, approval) in sent_approvals.iter().enumerate() {
            assert_eq!(*approval, approvals[approval_index + message_index].downgrade().unwrap());
        }
    }

    overseer.expect_silence("every message should be sent once");
}

#[test]
fn batch_sending_1_msg() {
    batch_test_round(1);
}

#[test]
fn batch_sending_exactly_one_batch() {
    batch_test_round(MAX_APPROVAL_BATCH_SIZE);
    batch_test_round(MAX_ASSIGNMENT_BATCH_SIZE);
}

#[test]
fn batch_sending_partial_batch() {
    batch_test_round(MAX_APPROVAL_BATCH_SIZE * 2 + 4);
    batch_test_round(MAX_ASSIGNMENT_BATCH_SIZE * 2 + 4);
}

#[test]
fn batch_sending_multiple_same_len() {
    batch_test_round(MAX_APPROVAL_BATCH_SIZE * 10);
    batch_test_round(MAX_ASSIGNMENT_BATCH_SIZE * 10);
}

#[test]
fn batch_sending_half_batch() {
    batch_test_round(MAX_APPROVAL_BATCH_SIZE / 2);
    batch_test_round(MAX_ASSIGNMENT_BATCH_SIZE / 2);
}
