//! Single parts of the node on concrete values.
use approval_distribution::actions::Action;
use approval_distribution::aggression::AggressionConfig;
use approval_distribution::batching::{
    filter_by_peer_version, send_approvals_batched, send_assignments_batched, ApprovalDistributionMessageV1,
    ApprovalDistributionMessageV3, Versioned, APPROVAL_SIZE, ASSIGNMENT_SIZE, MAX_APPROVAL_BATCH_SIZE,
    MAX_ASSIGNMENT_BATCH_SIZE, MAX_NOTIFICATION_SIZE,
};
use approval_distribution::bitfield::{Bitfield, BitfieldError, MAX_BITFIELD_SIZE};
use approval_distribution::block::BlockEntry;
use approval_distribution::chain::{BlockApprovalMeta, MAX_RECENT_OUTDATED};
use approval_distribution::fixtures::{
    assignment_cert_v2_with, assignment_cert_with, expect_reputation_change, expect_reputation_changes,
    fake_assignment_cert, fake_assignment_cert_v2, make_gossip_topology, make_peers_and_authority_ids,
    peers_with_keys, setup_peer_with_view, signal_block_finalized, state_with_reputation_delay, state_without_reputation_delay,
};
use approval_distribution::import::{ApprovalCheckError, ApprovalCheckResult, AssignmentCheckResult};
use approval_distribution::knowledge::{
    generate_approval_key, generate_assignment_key, Knowledge, MessageKind, PeerKnowledge,
};
use approval_distribution::lists::{chunked, copied, copied_range};
use approval_distribution::messages::{
    Assignment, AssignmentCertKind, AssignmentCertKindV2, AssignmentV1, IndirectSignedApprovalVote,
    IndirectSignedApprovalVoteV2, ValidatorSignature, VrfSignature,
};
use approval_distribution::primitives::{BlockHash, PeerId, ValidationVersion, ValidatorIndex};
use approval_distribution::propagation::{Change, Scope};
use approval_distribution::random::{sample, sample_given, Draws, RANDOM_CIRCULATION, RANDOM_SAMPLE_RATE};
use approval_distribution::reputation::{
    add_reputation, Rep, ReputationAggregator, BENEFIT_VALID_MESSAGE, BENEFIT_VALID_MESSAGE_FIRST,
    COST_ASSIGNMENT_TOO_FAR_IN_THE_FUTURE, COST_DUPLICATE_MESSAGE, COST_INVALID_MESSAGE,
    COST_OVERSIZED_BITFIELD, COST_UNEXPECTED_MESSAGE,
};
use approval_distribution::state::{ChainView, PendingMessage, State};
use approval_distribution::subsystem::{unpack, Event, NewGossipTopology};
use approval_distribution::topology::{
    grid_side, AuthorityDiscoveryId, GridNeighbors, RequiredRouting, SessionGridTopology, TopologyPeerInfo,
};
use rand::{Rng, SeedableRng};

fn hash(byte: u8) -> BlockHash {
    BlockHash::repeat_byte(byte)
}

fn vrf(byte: u8) -> VrfSignature {
    VrfSignature { pre_output: [byte; 32], proof: [byte; 64] }
}

fn assignment(block: BlockHash, validator: u32, candidate: u32) -> Assignment {
    let cert = assignment_cert_with(block, ValidatorIndex(validator), vrf(1));
    Assignment { cert: cert.upgrade(), candidates: Bitfield::single(candidate).unwrap() }
}

fn vote(block: BlockHash, validator: u32, candidates: &[u32]) -> IndirectSignedApprovalVoteV2 {
    IndirectSignedApprovalVoteV2 {
        block_hash: block,
        candidate_indices: Bitfield::from_indices(&candidates.to_vec()).unwrap(),
        validator: ValidatorIndex(validator),
        signature: ValidatorSignature([9; 64]),
    }
}

/// Peers with their positions as numbers, so that a test can name them.
fn numbered_peers(n: u8) -> Vec<(PeerId, AuthorityDiscoveryId)> {
    let peer_ids = (0..n).map(|i| PeerId(i as u64)).collect();
    let keys = (0..n).map(|i| AuthorityDiscoveryId([i; 32])).collect();
    peers_with_keys(&peer_ids, &keys)
}

fn immediate() -> State {
    state_without_reputation_delay(Draws::scripted(vec![]))
}

fn new_block(state: &mut State, block: BlockHash, parent: BlockHash, number: u32, candidates: usize) {
    let meta = BlockApprovalMeta { hash: block, parent_hash: parent, number, candidates, session: 1 };
    state.handle(Event::NewBlocks(vec![meta]));
}

fn message(list: Vec<Assignment>) -> Versioned {
    Versioned::V3(ApprovalDistributionMessageV3::Assignments(list))
}

fn approvals(list: Vec<IndirectSignedApprovalVoteV2>) -> Versioned {
    Versioned::V3(ApprovalDistributionMessageV3::Approvals(list))
}

/// A node with a block that the peer is aware of, without a topology.
fn node_with_peer(peer: PeerId) -> State {
    let mut state = immediate();
    setup_peer_with_view(&mut state, peer, ChainView::new(vec![hash(1)], 0), ValidationVersion::V3);
    new_block(&mut state, hash(1), hash(0), 1, 3);
    assert!(state.take_actions().is_empty());
    state
}

// Random choice.

#[test]
fn seeded_draws_follow_the_generator() {
    for seed in [0u64, 12345, u64::MAX] {
        let mut rng = rand_chacha::ChaCha12Rng::seed_from_u64(seed);
        let mut draws = Draws::seed_from_u64(seed);
        for i in 0..300u32 {
            let (numerator, denominator) = (25, 25 + (i * 7) % 100);
            assert_eq!(draws.draw(numerator, denominator), rng.gen_ratio(numerator, denominator));
        }
    }
}

#[test]
fn certain_draws_use_no_randomness() {
    let mut draws = Draws::seed_from_u64(1);
    assert!(draws.draw(25, 25));
    assert!(matches!(draws, Draws::Seeded { seed: 1, word_pos: 0 }));
    assert!(!draws.draw(0, 25));
    assert!(matches!(draws, Draws::Seeded { seed: 1, word_pos: 2 }));
}

#[test]
fn scripted_draws_run_out() {
    let mut draws = Draws::scripted(vec![true, false]);
    assert!(draws.draw(1, 2));
    assert!(!draws.draw(1, 2));
    assert!(!draws.draw(1, 2));
}

#[test]
fn samples_depend_on_the_number_of_peers() {
    assert_eq!(RANDOM_CIRCULATION, 4);
    assert_eq!(RANDOM_SAMPLE_RATE, 25);
    assert!(!sample_given(0, 0, true));
    assert!(sample_given(0, 24, false));
    assert!(!sample_given(4, 24, true));
    assert!(!sample_given(0, 25, false));
    assert!(sample_given(3, 25, true));
    let mut draws = Draws::scripted(vec![false, true]);
    assert!(sample(0, 24, &mut draws));
    assert!(!sample(0, 26, &mut draws));
    assert!(!sample(4, 26, &mut draws));
    assert!(sample(3, 26, &mut draws));
}

#[test]
fn no_more_than_four_peers_are_chosen_at_random() {
    let peers = numbered_peers(15);
    let mut state = immediate();
    for (peer, _) in &peers {
        setup_peer_with_view(&mut state, *peer, ChainView::new(vec![hash(1)], 0), ValidationVersion::V3);
    }
    new_block(&mut state, hash(1), hash(0), 1, 1);
    let topology = make_gossip_topology(1, &peers, &vec![0, 1], &vec![2, 4], 3);
    state.handle(Event::NewGossipTopology(topology));
    state.handle(Event::DistributeAssignment(assignment(hash(1), 3, 0)));
    // the neighbors, and the first four of the other members in the order in which they connected
    assert_eq!(
        state.take_actions(),
        vec![Action::SendValidationMessage(
            vec![PeerId(0), PeerId(1), PeerId(2), PeerId(3), PeerId(4), PeerId(9), PeerId(10), PeerId(12)],
            message(vec![assignment(hash(1), 3, 0)]),
        )],
    );
    // a vote takes the same way
    let approval = vote(hash(1), 3, &[0]);
    state.handle(Event::DistributeApproval(approval));
    assert_eq!(
        state.take_actions(),
        vec![Action::SendValidationMessage(
            vec![PeerId(0), PeerId(1), PeerId(2), PeerId(3), PeerId(4), PeerId(9), PeerId(10), PeerId(12)],
            approvals(vec![approval]),
        )],
    );
}

// Bit fields.

#[test]
fn bit_fields_hold_their_indices() {
    let field = Bitfield::from_indices(&vec![511, 3, 128, 3]).unwrap();
    assert_eq!(field.iter_ones(), vec![3, 128, 511]);
    assert!(field.bit_at(128) && !field.bit_at(127) && !field.bit_at(512));
    assert_eq!(field.only_one(), None);
    assert_eq!(Bitfield::single(200).unwrap().only_one(), Some(200));
    assert_eq!(Bitfield::empty().iter_ones(), Vec::<u32>::new());
    assert!(field.intersects(&Bitfield::single(3).unwrap()));
    assert!(!field.intersects(&Bitfield::single(4).unwrap()));
}

#[test]
fn bit_fields_refuse_bad_indices() {
    assert_eq!(Bitfield::from_indices(&vec![]), Err(BitfieldError::NullAssignment));
    assert_eq!(Bitfield::from_indices(&vec![0, MAX_BITFIELD_SIZE]), Err(BitfieldError::Oversized));
    assert_eq!(Bitfield::single(MAX_BITFIELD_SIZE), Err(BitfieldError::Oversized));
}

// Messages.

#[test]
fn certificates_have_two_forms() {
    let cert = assignment_cert_with(hash(1), ValidatorIndex(2), vrf(3));
    assert_eq!(cert.cert.kind, AssignmentCertKind::RelayVRFModulo { sample: 1 });
    assert_eq!(cert.upgrade().cert.kind, AssignmentCertKindV2::RelayVRFModulo { sample: 1 });
    assert_eq!(cert.upgrade().downgrade(), Some(cert));
    let mut delayed = cert;
    delayed.cert.kind = AssignmentCertKind::RelayVRFDelay { core_index: 7 };
    assert_eq!(delayed.upgrade().downgrade(), Some(delayed));
    let compact = assignment_cert_v2_with(hash(1), ValidatorIndex(2), Bitfield::single(1).unwrap(), vrf(3));
    assert_eq!(compact.downgrade(), None);
}

#[test]
fn assignments_and_votes_have_two_forms() {
    let old = AssignmentV1 { cert: assignment_cert_with(hash(1), ValidatorIndex(2), vrf(3)), candidate_index: 5 };
    let new = old.upgrade().unwrap();
    assert_eq!(new.candidates.iter_ones(), vec![5]);
    assert_eq!(new.downgrade(), Some(old));
    let many = Assignment { candidates: Bitfield::from_indices(&vec![1, 2]).unwrap(), ..new };
    assert_eq!(many.downgrade(), None);
    let oversized = AssignmentV1 { candidate_index: MAX_BITFIELD_SIZE, ..old };
    assert_eq!(oversized.upgrade(), None);

    let old = IndirectSignedApprovalVote {
        block_hash: hash(1),
        candidate_index: 5,
        validator: ValidatorIndex(2),
        signature: ValidatorSignature([1; 64]),
    };
    let new = old.upgrade().unwrap();
    assert_eq!(new.candidate_indices.iter_ones(), vec![5]);
    assert_eq!(new.downgrade(), Some(old));
    assert_eq!(vote(hash(1), 2, &[1, 2]).downgrade(), None);
    assert_eq!(IndirectSignedApprovalVote { candidate_index: 512, ..old }.upgrade(), None);
}

#[test]
fn made_up_certificates_are_signed() {
    let a = fake_assignment_cert(hash(1), ValidatorIndex(2));
    let b = fake_assignment_cert(hash(1), ValidatorIndex(2));
    assert_eq!((a.block_hash, a.validator), (hash(1), ValidatorIndex(2)));
    assert_ne!(a.cert.vrf.pre_output, b.cert.vrf.pre_output);
    assert_ne!(a.cert.vrf.proof, b.cert.vrf.proof);
    assert_ne!(a.cert.vrf.pre_output, [0; 32]);
    assert!(schnorrkel::vrf::VRFProof::from_bytes(&a.cert.vrf.proof).is_ok());
    let cores = Bitfield::from_indices(&vec![0, 1]).unwrap();
    let c = fake_assignment_cert_v2(hash(1), ValidatorIndex(2), cores);
    assert_eq!(c.cert.kind, AssignmentCertKindV2::RelayVRFModuloCompact { core_bitfield: cores });
    assert_ne!(c.cert.vrf.pre_output, a.cert.vrf.pre_output);
}

#[test]
fn made_up_peers_are_drawn_at_random() {
    assert!(make_peers_and_authority_ids(0).is_empty());
    let peers = make_peers_and_authority_ids(8);
    assert_eq!(peers.len(), 8);
    let others = make_peers_and_authority_ids(8);
    let all: Vec<_> = peers.iter().chain(&others).collect();
    for (i, a) in all.iter().enumerate() {
        for b in &all[..i] {
            assert_ne!(a.0, b.0);
            assert_ne!(a.1, b.1);
        }
        assert!(schnorrkel::PublicKey::from_bytes(&a.1 .0).is_ok());
    }
}

#[test]
fn messages_are_unpacked_in_the_new_form() {
    let cert = assignment_cert_with(hash(1), ValidatorIndex(2), vrf(3));
    let good = AssignmentV1 { cert, candidate_index: 0 };
    let bad = AssignmentV1 { cert, candidate_index: 512 };
    let note = Versioned::V2(ApprovalDistributionMessageV1::Assignments(vec![bad, good, bad]));
    let (found, costs) = unpack(&note);
    assert_eq!(found, vec![PendingMessage::Assignment(good.upgrade().unwrap())]);
    assert_eq!(costs, vec![COST_OVERSIZED_BITFIELD, COST_OVERSIZED_BITFIELD]);
    let approval = vote(hash(1), 2, &[0, 1]);
    assert_eq!(unpack(&approvals(vec![approval])), (vec![PendingMessage::Approval(approval)], vec![]));
}

// Lists.

#[test]
fn lists_are_cut_into_pieces() {
    let items: Vec<u32> = (0..7).collect();
    assert_eq!(chunked(&items, 3), vec![vec![0, 1, 2], vec![3, 4, 5], vec![6]]);
    assert_eq!(chunked(&items, 7), vec![items.clone()]);
    assert_eq!(chunked(&Vec::<u32>::new(), 3), Vec::<Vec<u32>>::new());
    assert_eq!(copied(&items), items);
    assert_eq!(copied_range(&items, 2, 4), vec![2, 3]);
}

// Batches.

#[test]
fn batches_fit() {
    assert_eq!(MAX_ASSIGNMENT_BATCH_SIZE, 129);
    assert_eq!(MAX_APPROVAL_BATCH_SIZE, 208);
    assert!(3 * MAX_ASSIGNMENT_BATCH_SIZE * ASSIGNMENT_SIZE <= MAX_NOTIFICATION_SIZE);
    assert!(3 * MAX_APPROVAL_BATCH_SIZE * APPROVAL_SIZE <= MAX_NOTIFICATION_SIZE);
}

#[test]
fn every_version_gets_its_own_form() {
    let peers = vec![
        (PeerId(1), ValidationVersion::V3),
        (PeerId(2), ValidationVersion::V1),
        (PeerId(3), ValidationVersion::V2),
        (PeerId(4), ValidationVersion::V1),
    ];
    assert_eq!(filter_by_peer_version(&peers, ValidationVersion::V1), vec![PeerId(2), PeerId(4)]);
    let single = assignment(hash(1), 2, 0);
    let many = Assignment { candidates: Bitfield::from_indices(&vec![0, 1]).unwrap(), ..single };
    let mut out = Vec::new();
    send_assignments_batched(&mut out, &vec![many, single], &peers);
    let old = vec![single.downgrade().unwrap()];
    assert_eq!(
        out,
        vec![
            Action::SendValidationMessage(
                vec![PeerId(2), PeerId(4)],
                Versioned::V1(ApprovalDistributionMessageV1::Assignments(old.clone())),
            ),
            Action::SendValidationMessage(
                vec![PeerId(3)],
                Versioned::V2(ApprovalDistributionMessageV1::Assignments(old)),
            ),
            Action::SendValidationMessage(vec![PeerId(1)], message(vec![many, single])),
        ],
    );
    let mut out = Vec::new();
    send_approvals_batched(&mut out, &vec![vote(hash(1), 2, &[0, 1])], &peers);
    assert_eq!(
        out,
        vec![Action::SendValidationMessage(vec![PeerId(1)], approvals(vec![vote(hash(1), 2, &[0, 1])]))],
    );
    let mut out = Vec::new();
    send_assignments_batched(&mut out, &vec![], &peers);
    send_approvals_batched(&mut out, &vec![vote(hash(1), 2, &[0])], &vec![]);
    assert_eq!(out, vec![]);
}

#[test]
fn batches_keep_the_order() {
    let peers = vec![(PeerId(1), ValidationVersion::V3)];
    let list: Vec<Assignment> = (0..300).map(|i| assignment(hash(1), i, 0)).collect();
    let mut out = Vec::new();
    send_assignments_batched(&mut out, &list, &peers);
    let expected: Vec<Action> = [&list[..129], &list[129..258], &list[258..]]
        .iter()
        .map(|batch| Action::SendValidationMessage(vec![PeerId(1)], message(batch.to_vec())))
        .collect();
    assert_eq!(out, expected);
    let list: Vec<IndirectSignedApprovalVoteV2> = (0..208).map(|i| vote(hash(1), i, &[0])).collect();
    let mut out = Vec::new();
    send_approvals_batched(&mut out, &list, &peers);
    assert_eq!(out, vec![Action::SendValidationMessage(vec![PeerId(1)], approvals(list))]);
}

// Topologies.

#[test]
fn grids_are_as_square_as_possible() {
    for (len, side) in [(0, 0), (1, 1), (3, 1), (4, 2), (8, 2), (9, 3), (99, 9), (100, 10)] {
        assert_eq!(grid_side(len), side);
    }
}

fn layout(n: usize) -> SessionGridTopology {
    let places = (0..n)
        .map(|i| TopologyPeerInfo {
            peer_ids: vec![PeerId(100 + i as u64)],
            validator_index: ValidatorIndex(i as u32),
            discovery_id: AuthorityDiscoveryId([i as u8; 32]),
        })
        .collect();
    SessionGridTopology::new((0..n).collect(), places)
}

#[test]
fn neighbors_share_a_row_or_a_column() {
    // 0 1 2
    // 3 4 5
    // 6 7 8
    // 9
    let neighbors = layout(10).compute_grid_neighbors_for(ValidatorIndex(4)).unwrap();
    assert_eq!(neighbors.validator_indices_x, vec![ValidatorIndex(3), ValidatorIndex(5)]);
    assert_eq!(neighbors.validator_indices_y, vec![ValidatorIndex(1), ValidatorIndex(7)]);
    assert_eq!(neighbors.peers_x, vec![PeerId(103), PeerId(105)]);
    assert_eq!(neighbors.peers_y, vec![PeerId(101), PeerId(107)]);
    let neighbors = layout(10).compute_grid_neighbors_for(ValidatorIndex(9)).unwrap();
    assert!(neighbors.validator_indices_x.is_empty());
    assert_eq!(neighbors.validator_indices_y, vec![ValidatorIndex(0), ValidatorIndex(3), ValidatorIndex(6)]);
}

#[test]
fn nobody_is_a_neighbor_twice() {
    let mut twins = layout(9);
    twins.canonical_shuffling[5].peer_ids = vec![PeerId(103), PeerId(105), PeerId(103)];
    let neighbors = twins.compute_grid_neighbors_for(ValidatorIndex(4)).unwrap();
    assert_eq!(neighbors.peers_x, vec![PeerId(103), PeerId(105)]);
    assert_eq!(neighbors.validator_indices_x, vec![ValidatorIndex(3), ValidatorIndex(5)]);
    assert_eq!(twins.seen_by(ValidatorIndex(4)).members.len(), 9);
}

#[test]
fn validators_without_a_place_have_no_neighbors() {
    assert!(layout(4).compute_grid_neighbors_for(ValidatorIndex(4)).is_none());
    let mut short = layout(4);
    short.shuffled_indices.pop();
    assert!(short.compute_grid_neighbors_for(ValidatorIndex(0)).is_none());
    let mut wrong = layout(4);
    wrong.shuffled_indices[0] = 4;
    assert!(wrong.compute_grid_neighbors_for(ValidatorIndex(0)).is_none());
    let seen = wrong.seen_by(ValidatorIndex(0));
    assert!(seen.is_validator(PeerId(103)) && !seen.is_validator(PeerId(104)));
    assert!(seen.local_grid_neighbors.peers_x.is_empty());
}

#[test]
fn messages_cross_to_the_other_dimension() {
    let grid = layout(9).compute_grid_neighbors_for(ValidatorIndex(4)).unwrap();
    assert_eq!(grid.required_routing_by_index(ValidatorIndex(3), false), RequiredRouting::GridY);
    assert_eq!(grid.required_routing_by_index(ValidatorIndex(1), false), RequiredRouting::GridX);
    assert_eq!(grid.required_routing_by_index(ValidatorIndex(0), false), RequiredRouting::Nobody);
    assert_eq!(grid.required_routing_by_index(ValidatorIndex(0), true), RequiredRouting::GridXY);
    assert!(grid.route_to_peer(RequiredRouting::GridY, PeerId(101)));
    assert!(!grid.route_to_peer(RequiredRouting::GridY, PeerId(103)));
    assert!(grid.route_to_peer(RequiredRouting::GridX, PeerId(103)));
    assert!(grid.route_to_peer(RequiredRouting::GridXY, PeerId(103)));
    assert!(grid.route_to_peer(RequiredRouting::All, PeerId(1)));
    assert!(!grid.route_to_peer(RequiredRouting::Nobody, PeerId(103)));
    assert!(!grid.route_to_peer(RequiredRouting::PendingTopology, PeerId(103)));
}

#[test]
fn made_up_grids_have_the_neighbors_asked_for() {
    let peers = numbered_peers(15);
    assert_eq!(peers[14], (PeerId(14), AuthorityDiscoveryId([14; 32])));
    let NewGossipTopology { session, topology, local_index } =
        make_gossip_topology(7, &peers, &vec![0, 1], &vec![2, 4], 3);
    assert_eq!(session, 7);
    assert_eq!(local_index, Some(ValidatorIndex(3)));
    let order: Vec<u32> = topology.canonical_shuffling.iter().map(|info| info.validator_index.0).collect();
    assert_eq!(order, vec![3, 0, 1, 2, 9, 10, 4, 12, 13]);
    assert_eq!(topology.shuffled_indices, vec![4, 4, 4, 0, 4, 4, 4, 4, 4]);
    let neighbors = topology.compute_grid_neighbors_for(ValidatorIndex(3)).unwrap();
    assert_eq!(neighbors.validator_indices_x, vec![ValidatorIndex(0), ValidatorIndex(1)]);
    assert_eq!(neighbors.validator_indices_y, vec![ValidatorIndex(2), ValidatorIndex(4)]);
}

// Knowledge.

#[test]
fn approvals_stand_for_assignments() {
    let a = generate_assignment_key(&assignment(hash(1), 2, 0));
    let v = generate_approval_key(&vote(hash(1), 2, &[0]));
    assert_eq!(a, v);
    let mut known = Knowledge::new();
    assert!(known.insert(a, MessageKind::Assignment));
    assert!(!known.insert(a, MessageKind::Assignment));
    assert!(!known.contains(a, MessageKind::Approval));
    assert!(known.insert(a, MessageKind::Approval));
    assert!(!known.insert(a, MessageKind::Approval));
    assert!(known.contains(a, MessageKind::Assignment));
    assert_eq!(known.len(), 1);
    assert!(known.covers_candidates(ValidatorIndex(2), Bitfield::single(0).unwrap()));
    assert!(!known.covers_candidates(ValidatorIndex(2), Bitfield::from_indices(&vec![0, 1]).unwrap()));
    assert!(!known.covers_candidates(ValidatorIndex(3), Bitfield::single(0).unwrap()));
    let mut peer = PeerKnowledge::new();
    peer.received.insert(a, MessageKind::Assignment);
    assert!(peer.contains(a, MessageKind::Assignment) && !peer.contains(a, MessageKind::Approval));
}

#[test]
fn duplicates_cost_from_the_second_time() {
    let peer = PeerId(1);
    let mut block = BlockEntry::new(hash(0), 1, 1, 1);
    let subject = generate_assignment_key(&assignment(hash(1), 2, 0));
    let mut draws = Draws::scripted(vec![]);
    block.greet(peer, None, 1, &mut draws, &mut Vec::new(), &mut Vec::new());
    block.known_by[0].1.sent.insert(subject, MessageKind::Assignment);
    assert_eq!(block.screen(peer, subject, MessageKind::Assignment), (vec![], false));
    assert_eq!(block.screen(peer, subject, MessageKind::Assignment), (vec![COST_DUPLICATE_MESSAGE], false));
    assert_eq!(block.screen(peer, subject, MessageKind::Assignment), (vec![COST_DUPLICATE_MESSAGE], false));
    // a peer that cannot see the block pays every time
    block.learn(subject, MessageKind::Assignment);
    let outside = (vec![COST_UNEXPECTED_MESSAGE, BENEFIT_VALID_MESSAGE], false);
    assert_eq!(block.screen(PeerId(2), subject, MessageKind::Assignment), outside);
    assert_eq!(block.screen(PeerId(2), subject, MessageKind::Assignment), outside);
}

// Reputation.

#[test]
fn scores_are_saturated_sums() {
    let values: Vec<i32> = [
        COST_UNEXPECTED_MESSAGE,
        COST_DUPLICATE_MESSAGE,
        COST_ASSIGNMENT_TOO_FAR_IN_THE_FUTURE,
        COST_INVALID_MESSAGE,
        COST_OVERSIZED_BITFIELD,
        BENEFIT_VALID_MESSAGE,
        BENEFIT_VALID_MESSAGE_FIRST,
    ]
    .iter()
    .map(|rep| rep.cost_or_benefit())
    .collect();
    assert_eq!(values, vec![-100_000, -200_000, -100_000, -300_000, -300_000, 10_000, 15_000]);
    let mut acc = Vec::new();
    add_reputation(&mut acc, PeerId(1), COST_UNEXPECTED_MESSAGE);
    add_reputation(&mut acc, PeerId(2), COST_INVALID_MESSAGE);
    add_reputation(&mut acc, PeerId(1), BENEFIT_VALID_MESSAGE);
    assert_eq!(acc, vec![(PeerId(1), -90_000), (PeerId(2), -300_000)]);
    let mut acc = vec![(PeerId(1), i32::MIN + 1), (PeerId(2), i32::MAX - 1)];
    add_reputation(&mut acc, PeerId(1), COST_UNEXPECTED_MESSAGE);
    add_reputation(&mut acc, PeerId(2), BENEFIT_VALID_MESSAGE);
    assert_eq!(acc, vec![(PeerId(1), i32::MIN), (PeerId(2), i32::MAX)]);
}

#[test]
fn reports_are_immediate_or_summed_up() {
    let mut out = Vec::new();
    let mut at_once = ReputationAggregator::new(true);
    at_once.modify(&mut out, PeerId(1), COST_INVALID_MESSAGE);
    at_once.send(&mut out);
    assert_eq!(out, vec![Action::ReportPeer(PeerId(1), COST_INVALID_MESSAGE)]);
    let mut out = Vec::new();
    let mut later = ReputationAggregator::new(false);
    later.modify(&mut out, PeerId(1), COST_INVALID_MESSAGE);
    later.modify(&mut out, PeerId(1), BENEFIT_VALID_MESSAGE);
    assert!(out.is_empty());
    later.send(&mut out);
    later.send(&mut out);
    assert_eq!(out, vec![Action::ReportPeers(vec![(PeerId(1), -290_000)])]);
}

#[test]
fn out_of_view_assignments_are_reported_with_the_tick() {
    let peer = PeerId(1);
    let mut state = state_with_reputation_delay(Draws::scripted(vec![]));
    setup_peer_with_view(&mut state, peer, ChainView::new(vec![], 0), ValidationVersion::V1);
    new_block(&mut state, hash(1), hash(0), 1, 1);
    let claim = assignment(hash(1), 2, 0);
    let old = ApprovalDistributionMessageV1::Assignments(vec![claim.downgrade().unwrap()]);
    state.handle(Event::PeerMessage(peer, Versioned::V1(old)));
    assert_eq!(state.take_actions(), vec![Action::CheckAndImportAssignment(claim)]);
    assert!(state.finish_assignment_check(AssignmentCheckResult::Accepted));
    assert!(state.take_actions().is_empty());
    state.handle(Event::ReputationTick);
    let actions = state.take_actions();
    assert_eq!(actions.len(), 1);
    let reps = vec![COST_UNEXPECTED_MESSAGE, BENEFIT_VALID_MESSAGE_FIRST];
    assert!(expect_reputation_changes(&actions[0], peer, &reps));
    state.handle(Event::ReputationTick);
    assert!(state.take_actions().is_empty());
}

#[test]
fn expectations_tell_reports_apart() {
    let single = Action::ReportPeer(PeerId(1), COST_INVALID_MESSAGE);
    assert!(expect_reputation_change(&single, PeerId(1), COST_INVALID_MESSAGE));
    assert!(!expect_reputation_change(&single, PeerId(2), COST_INVALID_MESSAGE));
    assert!(!expect_reputation_change(&single, PeerId(1), COST_DUPLICATE_MESSAGE));
    let reps: Vec<Rep> = vec![COST_INVALID_MESSAGE, BENEFIT_VALID_MESSAGE];
    assert!(!expect_reputation_changes(&single, PeerId(1), &reps));
    assert!(expect_reputation_changes(&Action::ReportPeers(vec![(PeerId(1), -290_000)]), PeerId(1), &reps));
    assert!(!expect_reputation_changes(&Action::ReportPeers(vec![(PeerId(2), -290_000)]), PeerId(1), &reps));
    assert!(!expect_reputation_changes(&Action::ReportPeers(vec![]), PeerId(1), &reps));
    let twice = Action::ReportPeers(vec![(PeerId(1), -290_000), (PeerId(1), -290_000)]);
    assert!(!expect_reputation_changes(&twice, PeerId(1), &reps));
}

// Imports.

#[test]
fn messages_about_unknown_blocks_are_unexpected() {
    let peer = PeerId(1);
    let mut state = immediate();
    setup_peer_with_view(&mut state, peer, ChainView::new(vec![], 0), ValidationVersion::V3);
    state.handle(Event::PeerMessage(peer, message(vec![assignment(hash(1), 2, 0)])));
    state.handle(Event::PeerMessage(peer, approvals(vec![vote(hash(1), 2, &[0])])));
    assert_eq!(
        state.take_actions(),
        vec![
            Action::ReportPeer(peer, COST_UNEXPECTED_MESSAGE),
            Action::ReportPeer(peer, COST_UNEXPECTED_MESSAGE),
        ],
    );
}

#[test]
fn messages_about_recently_final_blocks_are_forgiven() {
    let peer = PeerId(1);
    let mut state = node_with_peer(peer);
    signal_block_finalized(&mut state, 1);
    state.handle(Event::PeerMessage(peer, message(vec![assignment(hash(1), 2, 0)])));
    state.handle(Event::PeerMessage(peer, approvals(vec![vote(hash(1), 2, &[0])])));
    assert!(state.take_actions().is_empty());
    // until enough other blocks have become final
    for i in 0..MAX_RECENT_OUTDATED {
        new_block(&mut state, hash(100 + i as u8), hash(0), 2, 1);
    }
    signal_block_finalized(&mut state, 2);
    assert_eq!(state.recent_outdated_blocks.len(), MAX_RECENT_OUTDATED);
    state.handle(Event::PeerMessage(peer, message(vec![assignment(hash(1), 2, 0)])));
    assert_eq!(state.take_actions(), vec![Action::ReportPeer(peer, COST_UNEXPECTED_MESSAGE)]);
}

#[test]
fn votes_need_known_candidates_and_assignments() {
    let peer = PeerId(1);
    let mut state = node_with_peer(peer);
    state.handle(Event::DistributeAssignment(assignment(hash(1), 2, 0)));
    // the block has three candidates
    state.handle(Event::PeerMessage(peer, approvals(vec![vote(hash(1), 2, &[3])])));
    // the second candidate is not assigned to the validator
    state.handle(Event::PeerMessage(peer, approvals(vec![vote(hash(1), 2, &[0, 1])])));
    assert_eq!(
        state.take_actions(),
        vec![
            Action::ReportPeer(peer, COST_UNEXPECTED_MESSAGE),
            Action::ReportPeer(peer, COST_UNEXPECTED_MESSAGE),
        ],
    );
    state.handle(Event::PeerMessage(peer, approvals(vec![vote(hash(1), 2, &[0])])));
    assert_eq!(state.take_actions(), vec![Action::CheckAndImportApproval(vote(hash(1), 2, &[0]))]);
}

#[test]
fn oversized_indices_are_punished() {
    let peer = PeerId(1);
    let mut state = node_with_peer(peer);
    let cert = assignment_cert_with(hash(1), ValidatorIndex(2), vrf(3));
    let bad = AssignmentV1 { cert, candidate_index: 512 };
    state.handle(Event::PeerMessage(peer, Versioned::V1(ApprovalDistributionMessageV1::Assignments(vec![bad]))));
    assert_eq!(state.take_actions(), vec![Action::ReportPeer(peer, COST_OVERSIZED_BITFIELD)]);
}

#[test]
fn every_check_result_has_its_consequence() {
    let peer = PeerId(1);
    let claim = assignment(hash(1), 2, 0);
    for (result, report) in [
        (AssignmentCheckResult::Accepted, Some(BENEFIT_VALID_MESSAGE_FIRST)),
        (AssignmentCheckResult::AcceptedDuplicate, None),
        (AssignmentCheckResult::TooFarInFuture, Some(COST_ASSIGNMENT_TOO_FAR_IN_THE_FUTURE)),
        (AssignmentCheckResult::Bad, Some(COST_INVALID_MESSAGE)),
    ] {
        let mut state = node_with_peer(peer);
        state.handle(Event::PeerMessage(peer, message(vec![claim])));
        assert_eq!(state.take_actions(), vec![Action::CheckAndImportAssignment(claim)]);
        assert!(!state.finish_approval_check(ApprovalCheckResult::Accepted));
        assert!(state.finish_assignment_check(result));
        assert!(!state.finish_assignment_check(result));
        let reports: Vec<Action> = report.iter().map(|rep| Action::ReportPeer(peer, *rep)).collect();
        assert_eq!(state.take_actions(), reports);
        // what was accepted is not checked again
        let again = state.block(hash(1)).unwrap().peer_knowledge(peer).unwrap();
        let subject = generate_assignment_key(&claim);
        let noted = matches!(result, AssignmentCheckResult::Accepted | AssignmentCheckResult::AcceptedDuplicate);
        assert_eq!(again.received.contains(subject, MessageKind::Assignment), noted);
    }
    for (result, report) in [
        (ApprovalCheckResult::Accepted, BENEFIT_VALID_MESSAGE_FIRST),
        (ApprovalCheckResult::Bad(ApprovalCheckError::UnknownBlock(hash(1))), COST_INVALID_MESSAGE),
        (ApprovalCheckResult::Bad(ApprovalCheckError::Invalid), COST_INVALID_MESSAGE),
    ] {
        let mut state = node_with_peer(peer);
        state.handle(Event::DistributeAssignment(claim));
        state.handle(Event::PeerMessage(peer, approvals(vec![vote(hash(1), 2, &[0])])));
        assert!(!state.finish_assignment_check(AssignmentCheckResult::Bad));
        assert!(state.finish_approval_check(result));
        assert_eq!(
            state.take_actions(),
            vec![
                Action::CheckAndImportApproval(vote(hash(1), 2, &[0])),
                Action::ReportPeer(peer, report),
            ],
        );
    }
}

#[test]
fn messages_of_one_notification_are_imported_in_turn() {
    let peer = PeerId(1);
    let mut state = node_with_peer(peer);
    let first = assignment(hash(1), 2, 0);
    let second = assignment(hash(1), 3, 1);
    state.handle(Event::PeerMessage(peer, message(vec![first, first, second])));
    assert_eq!(state.take_actions(), vec![Action::CheckAndImportAssignment(first)]);
    assert_eq!(state.tasks.len(), 2);
    assert!(state.finish_assignment_check(AssignmentCheckResult::Accepted));
    assert_eq!(
        state.take_actions(),
        vec![
            Action::ReportPeer(peer, BENEFIT_VALID_MESSAGE_FIRST),
            Action::ReportPeer(peer, COST_DUPLICATE_MESSAGE),
            Action::CheckAndImportAssignment(second),
        ],
    );
    assert!(state.finish_assignment_check(AssignmentCheckResult::Bad));
    assert_eq!(state.take_actions(), vec![Action::ReportPeer(peer, COST_INVALID_MESSAGE)]);
    assert!(state.tasks.is_empty() && state.awaiting.is_none());
}

#[test]
fn own_messages_about_unknown_blocks_are_dropped() {
    let mut state = immediate();
    state.handle(Event::DistributeAssignment(assignment(hash(1), 2, 0)));
    state.handle(Event::DistributeApproval(vote(hash(1), 2, &[0])));
    new_block(&mut state, hash(1), hash(0), 1, 1);
    state.handle(Event::DistributeApproval(vote(hash(1), 2, &[1])));
    assert!(state.take_actions().is_empty());
    assert_eq!(state.block(hash(1)).unwrap().knowledge.len(), 0);
}

#[test]
fn signatures_are_found_by_candidate() {
    let mut state = immediate();
    new_block(&mut state, hash(1), hash(0), 1, 3);
    for validator in [2, 5] {
        state.handle(Event::DistributeAssignment(assignment(hash(1), validator, 0)));
        state.handle(Event::DistributeApproval(vote(hash(1), validator, &[0, 2])));
    }
    assert_eq!(state.get_approval_signatures(&vec![]), vec![]);
    assert_eq!(state.get_approval_signatures(&vec![(hash(1), 1), (hash(2), 0)]), vec![]);
    let found = state.get_approval_signatures(&vec![(hash(1), 2), (hash(1), 0)]);
    let expected = (hash(1), vec![0, 2], ValidatorSignature([9; 64]));
    assert_eq!(found, vec![(ValidatorIndex(2), expected.clone()), (ValidatorIndex(5), expected)]);
}

// Peers and views.

#[test]
fn disconnected_peers_are_forgotten() {
    let peer = PeerId(1);
    let mut state = node_with_peer(peer);
    assert!(state.block(hash(1)).unwrap().peer_knowledge(peer).is_some());
    state.handle(Event::PeerDisconnected(peer));
    assert!(state.block(hash(1)).unwrap().peer_knowledge(peer).is_none());
    assert!(state.peer(peer).is_none());
    // changes of its view have no effect any more
    state.handle(Event::PeerViewChange(peer, ChainView::new(vec![hash(1)], 0)));
    assert!(state.block(hash(1)).unwrap().peer_knowledge(peer).is_none());
}

#[test]
fn connecting_twice_changes_nothing() {
    let peer = PeerId(1);
    let mut state = node_with_peer(peer);
    state.handle(Event::PeerConnected(peer, ValidationVersion::V1));
    assert_eq!(state.peer(peer).unwrap().version, ValidationVersion::V3);
    assert_eq!(state.peer(peer).unwrap().view.heads, vec![hash(1)]);
}

#[test]
fn peers_become_aware_of_whole_chains() {
    let peer = PeerId(1);
    let mut state = immediate();
    for i in 1..6u8 {
        new_block(&mut state, hash(i), hash(i - 1), i as u32, 1);
    }
    setup_peer_with_view(&mut state, peer, ChainView::new(vec![hash(4)], 2), ValidationVersion::V3);
    let aware: Vec<bool> =
        (1..6u8).map(|i| state.block(hash(i)).unwrap().peer_knowledge(peer).is_some()).collect();
    assert_eq!(aware, vec![false, false, true, true, false]);
}

#[test]
fn early_messages_wait_for_their_block() {
    let peer = PeerId(1);
    let mut state = immediate();
    setup_peer_with_view(&mut state, peer, ChainView::new(vec![hash(1), hash(2)], 0), ValidationVersion::V3);
    state.handle(Event::OurViewChange(ChainView::new(vec![hash(1), hash(2)], 0)));
    let claim = assignment(hash(1), 2, 0);
    state.handle(Event::PeerMessage(peer, message(vec![claim, assignment(hash(2), 2, 0)])));
    assert!(state.take_actions().is_empty());
    // a head that leaves the view takes its messages along
    state.handle(Event::OurViewChange(ChainView::new(vec![hash(1)], 0)));
    new_block(&mut state, hash(2), hash(0), 1, 1);
    assert!(state.take_actions().is_empty());
    new_block(&mut state, hash(1), hash(0), 1, 1);
    assert_eq!(state.take_actions(), vec![Action::CheckAndImportAssignment(claim)]);
    assert!(state.pending_known.is_empty());
}

#[test]
fn known_heads_are_not_waited_for() {
    let mut state = immediate();
    new_block(&mut state, hash(1), hash(0), 1, 1);
    state.handle(Event::OurViewChange(ChainView::new(vec![hash(1), hash(2)], 0)));
    assert_eq!(state.pending_known.len(), 1);
    assert_eq!(state.pending_known[0].0, hash(2));
}

// Topologies that come late, and aggression.

#[test]
fn nodes_without_a_place_learn_no_topology() {
    let peers = numbered_peers(15);
    let mut state = immediate();
    let mut topology = make_gossip_topology(1, &peers, &vec![0, 1], &vec![2, 4], 3);
    topology.local_index = None;
    state.handle(Event::NewGossipTopology(topology));
    assert!(state.topologies.is_empty());
    state.handle(Event::NewGossipTopology(make_gossip_topology(1, &peers, &vec![0, 1], &vec![2, 4], 3)));
    // the first topology of a session counts
    state.handle(Event::NewGossipTopology(make_gossip_topology(1, &peers, &vec![2, 4], &vec![0, 1], 3)));
    assert_eq!(state.topologies.len(), 1);
    assert_eq!(state.topologies[0].1.local_grid_neighbors.peers_x, vec![PeerId(0), PeerId(1)]);
}

#[test]
fn messages_are_propagated_once() {
    let peers = numbered_peers(15);
    let mut state = node_with_peer(PeerId(0));
    let claim = assignment(hash(1), 3, 0);
    state.handle(Event::DistributeAssignment(claim));
    assert!(state.take_actions().is_empty());
    let topology = || make_gossip_topology(1, &peers, &vec![0, 1], &vec![2, 4], 3);
    state.handle(Event::NewGossipTopology(topology()));
    assert_eq!(
        state.take_actions(),
        vec![Action::SendValidationMessage(vec![PeerId(0)], message(vec![claim]))],
    );
    state.handle(Event::NewGossipTopology(topology()));
    assert!(state.take_actions().is_empty());
}

#[test]
fn accepted_messages_cross_to_the_other_dimension() {
    let peers = numbered_peers(15);
    let mut state = immediate();
    for peer in [0, 1, 2, 4] {
        setup_peer_with_view(
            &mut state,
            PeerId(peer),
            ChainView::new(vec![hash(1)], 0),
            ValidationVersion::V3,
        );
    }
    new_block(&mut state, hash(1), hash(0), 1, 1);
    state.handle(Event::NewGossipTopology(make_gossip_topology(1, &peers, &vec![0, 1], &vec![2, 4], 3)));
    // the validator is in the row, and its message goes along the column
    let claim = assignment(hash(1), 0, 0);
    state.handle(Event::PeerMessage(PeerId(0), message(vec![claim])));
    assert!(state.finish_assignment_check(AssignmentCheckResult::Accepted));
    let actions = state.take_actions();
    assert_eq!(actions[0], Action::CheckAndImportAssignment(claim));
    assert_eq!(actions[1], Action::ReportPeer(PeerId(0), BENEFIT_VALID_MESSAGE_FIRST));
    // the other peer in the row is chosen at random, as there are few peers
    let receivers = vec![PeerId(1), PeerId(2), PeerId(4)];
    assert_eq!(actions[2..], [Action::SendValidationMessage(receivers.clone(), message(vec![claim]))]);
    let approval = vote(hash(1), 0, &[0]);
    state.handle(Event::PeerMessage(PeerId(0), approvals(vec![approval])));
    assert!(state.finish_approval_check(ApprovalCheckResult::Accepted));
    let actions = state.take_actions();
    assert_eq!(actions[2..], [Action::SendValidationMessage(receivers, approvals(vec![approval]))]);
}

#[test]
fn aggression_is_triggered_by_the_lag() {
    let config = AggressionConfig::default();
    assert_eq!(config.l1_threshold, Some(16));
    assert_eq!(config.l2_threshold, Some(64));
    assert_eq!(config.resend_unfinalized_period, Some(8));
    assert!(!config.should_trigger_aggression(15));
    assert!(config.should_trigger_aggression(16));
    let periodic = AggressionConfig { l1_threshold: None, ..config };
    assert!(!periodic.should_trigger_aggression(0));
    assert!(!periodic.should_trigger_aggression(7));
    assert!(periodic.should_trigger_aggression(16));
    let never = AggressionConfig { l1_threshold: None, resend_unfinalized_period: Some(0), ..config };
    assert!(!never.should_trigger_aggression(16));
    let calm = AggressionConfig { l1_threshold: None, l2_threshold: None, resend_unfinalized_period: None };
    assert!(!calm.should_trigger_aggression(1000));
}

#[test]
fn scopes_select_blocks() {
    let block = BlockEntry::new(hash(0), 5, 2, 1);
    assert!(Scope::Session(2).includes(&block) && !Scope::Session(1).includes(&block));
    assert!(Scope::Number(5).includes(&block) && !Scope::Number(4).includes(&block));
    assert!(Scope::Aged { newest: 9, period: 2 }.includes(&block));
    assert!(!Scope::Aged { newest: 8, period: 2 }.includes(&block));
    assert!(!Scope::Aged { newest: 5, period: 2 }.includes(&block));
    assert!(!Scope::Aged { newest: 9, period: 0 }.includes(&block));
}

#[test]
fn changes_reroute_entries() {
    let mut state = immediate();
    new_block(&mut state, hash(1), hash(0), 1, 1);
    state.handle(Event::DistributeAssignment(assignment(hash(1), 3, 0)));
    let routing = |state: &State| state.blocks[0].1.approval_entries[0].required_routing;
    assert_eq!(routing(&state), RequiredRouting::PendingTopology);
    let up = Change::Escalate { own_to_all: true, others_to_grid: true };
    state.blocks[0].1.apply(&up);
    assert_eq!(routing(&state), RequiredRouting::PendingTopology);
    state.blocks[0].1.apply(&Change::Resolve(&GridNeighbors::empty()));
    assert_eq!(routing(&state), RequiredRouting::GridXY);
    state.blocks[0].1.apply(&Change::Escalate { own_to_all: false, others_to_grid: true });
    assert_eq!(routing(&state), RequiredRouting::GridXY);
    state.blocks[0].1.apply(&up);
    assert_eq!(routing(&state), RequiredRouting::All);
    state.blocks[0].1.apply(&Change::Resend);
    assert_eq!(routing(&state), RequiredRouting::All);
}

#[test]
fn finalization_does_not_resend() {
    let peers = numbered_peers(15);
    let mut state = immediate();
    state.aggression_config = AggressionConfig {
        l1_threshold: None,
        l2_threshold: None,
        resend_unfinalized_period: Some(1),
    };
    setup_peer_with_view(&mut state, PeerId(0), ChainView::new(vec![hash(1)], 0), ValidationVersion::V3);
    state.handle(Event::NewGossipTopology(make_gossip_topology(1, &peers, &vec![0, 1], &vec![2, 4], 3)));
    new_block(&mut state, hash(1), hash(0), 1, 1);
    let claim = assignment(hash(1), 3, 0);
    state.handle(Event::DistributeAssignment(claim));
    let sent = vec![Action::SendValidationMessage(vec![PeerId(0)], message(vec![claim]))];
    assert_eq!(state.take_actions(), sent);
    state.handle(Event::ApprovalCheckingLagUpdate(1));
    signal_block_finalized(&mut state, 0);
    assert!(state.take_actions().is_empty());
    new_block(&mut state, hash(2), hash(1), 2, 1);
    assert_eq!(state.take_actions(), sent);
}

#[test]
fn sums_are_reported_on_every_tick() {
    let peer = PeerId(1);
    let mut state = state_with_reputation_delay(Draws::scripted(vec![]));
    state.handle(Event::PeerMessage(peer, message(vec![assignment(hash(1), 2, 0)])));
    state.handle(Event::PeerMessage(peer, message(vec![assignment(hash(1), 2, 0)])));
    assert!(state.take_actions().is_empty());
    state.handle(Event::ReputationTick);
    state.handle(Event::ReputationTick);
    assert_eq!(state.take_actions(), vec![Action::ReportPeers(vec![(peer, -200_000)])]);
}
