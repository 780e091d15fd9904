//! Made-up networks and certificates, to try approval distribution out without a chain.
use crate::actions::{Action, Effect};
use crate::aggression::AggressionConfig;
use crate::batching::{ApprovalDistributionMessageV1, ApprovalDistributionMessageV3, Versioned};
use crate::bitfield::CoreBitfield;
use crate::dict;
use crate::messages::{
    AssignmentCert, AssignmentCertKind, AssignmentCertKindV2, AssignmentCertV2,
    IndirectAssignmentCert, IndirectAssignmentCertV2, VrfSignature,
};
use crate::primitives::{
    BlockHash, BlockNumber, PeerId, SessionIndex, ValidationVersion, ValidatorIndex,
};
use crate::random::Draws;
use crate::reputation::{add_reputation, scored_all, Rep, ReputationAggregator};
use crate::state::{ChainView, Node, State};
use crate::subsystem::{Event, NewGossipTopology};
use crate::topology::{
    is_side, lemma_side_unique, places_in, same_column, same_row, side_of, AuthorityDiscoveryId,
    Layout, Neighborhood, Place, SessionGridTopology, TopologyPeerInfo,
};
use vstd::prelude::*;

verus! {

/// The context of the randomness that assignments are drawn from: "A&V MOD v2".
pub open spec fn relay_vrf_modulo_context() -> Seq<u8> {
    seq![65, 38, 86, 32, 77, 79, 68, 32, 118, 50]
}

/// The message that made-up certificates sign: "WhenParachains?".
pub open spec fn fake_message() -> Seq<u8> {
    seq![87, 104, 101, 110, 80, 97, 114, 97, 99, 104, 97, 105, 110, 115, 63]
}

/// The serialized output that `Keypair::vrf_sign` of the `schnorrkel` crate gives for the keypair of a
/// secret key, on a message in a signing context.
pub uninterp spec fn vrf_pre_output(secret: Seq<u8>, context: Seq<u8>, message: Seq<u8>) -> Seq<u8>;

/// The serialized proof that `Keypair::vrf_sign` of the `schnorrkel` crate gives for the keypair of a
/// secret key with its nonce seed, on a message in a signing context, when it draws the given bytes from
/// the randomness of the system.
pub uninterp spec fn vrf_proof(secret: Seq<u8>, drawn: Seq<u8>, context: Seq<u8>, message: Seq<u8>) -> Seq<u8>;

/// Calls `Keypair::vrf_sign` of the `schnorrkel` crate, with a keypair that `Keypair::generate_with`
/// makes from the randomness of the operating system, on a message in a context made by
/// `signing_context`.  Neither may be longer than a 32-bit number can tell.
///
/// The contract claims that the two parts of the outcome are the output and the proof for the context
/// and the message, under some secret key and with some bytes drawn.  Nothing is claimed of which key
/// and which bytes those are.
#[verifier::external_body]
fn vrf_sign(context: &Vec<u8>, message: &Vec<u8>) -> (signature: ([u8; 32], [u8; 64]))
    requires
        context@.len() <= u32::MAX,
        message@.len() <= u32::MAX,
    ensures
        exists|secret: Seq<u8>, drawn: Seq<u8>|
            signature.0@ == vrf_pre_output(secret, context@, message@) && signature.1@ == #[trigger] vrf_proof(
                secret,
                drawn,
                context@,
                message@,
            ),
{
    let keypair = schnorrkel::Keypair::generate_with(&mut rand_core::OsRng);
    let transcript = schnorrkel::signing_context(context).bytes(message);
    let (inout, proof, _) = keypair.vrf_sign(transcript);
    (inout.to_output().to_bytes(), proof.to_bytes())
}

/// Whether a signature is one that a made-up certificate can carry: its output and its proof are those of
/// one key.
pub open spec fn is_fake_signature(vrf: VrfSignature) -> bool {
    exists|secret: Seq<u8>, drawn: Seq<u8>|
        vrf.pre_output@ == vrf_pre_output(secret, relay_vrf_modulo_context(), fake_message()) && vrf.proof@
            == #[trigger] vrf_proof(secret, drawn, relay_vrf_modulo_context(), fake_message())
}

/// The signature of a made-up certificate, under a new key.
fn fake_signature() -> (vrf: VrfSignature)
    ensures
        is_fake_signature(vrf),
{
    let context: Vec<u8> = vec![65, 38, 86, 32, 77, 79, 68, 32, 118, 50];
    let message: Vec<u8> = vec![87, 104, 101, 110, 80, 97, 114, 97, 99, 104, 97, 105, 110, 115, 63];
    assert(context@ =~= relay_vrf_modulo_context());
    assert(message@ =~= fake_message());
    let (pre_output, proof_bytes) = vrf_sign(&context, &message);
    VrfSignature { pre_output, proof: proof_bytes }
}

/// A certificate with a signature that was made elsewhere.
pub fn assignment_cert_with(block_hash: BlockHash, validator: ValidatorIndex, vrf: VrfSignature) -> (cert:
    IndirectAssignmentCert)
    ensures
        cert == (IndirectAssignmentCert {
            block_hash,
            validator,
            cert: AssignmentCert { kind: AssignmentCertKind::RelayVRFModulo { sample: 1 }, vrf },
        }),
{
    IndirectAssignmentCert {
        block_hash,
        validator,
        cert: AssignmentCert { kind: AssignmentCertKind::RelayVRFModulo { sample: 1 }, vrf },
    }
}

/// A certificate for a set of cores with a signature that was made elsewhere.
pub fn assignment_cert_v2_with(
    block_hash: BlockHash,
    validator: ValidatorIndex,
    core_bitfield: CoreBitfield,
    vrf: VrfSignature,
) -> (cert: IndirectAssignmentCertV2)
    ensures
        cert == (IndirectAssignmentCertV2 {
            block_hash,
            validator,
            cert: AssignmentCertV2 { kind: AssignmentCertKindV2::RelayVRFModuloCompact { core_bitfield }, vrf },
        }),
{
    IndirectAssignmentCertV2 {
        block_hash,
        validator,
        cert: AssignmentCertV2 { kind: AssignmentCertKindV2::RelayVRFModuloCompact { core_bitfield }, vrf },
    }
}

/// A made-up certificate.
pub fn fake_assignment_cert(block_hash: BlockHash, validator: ValidatorIndex) -> (cert: IndirectAssignmentCert)
    ensures
        cert.block_hash == block_hash,
        cert.validator == validator,
        cert.cert.kind == (AssignmentCertKind::RelayVRFModulo { sample: 1 }),
        is_fake_signature(cert.cert.vrf),
{
    assignment_cert_with(block_hash, validator, fake_signature())
}

/// A made-up certificate for a set of cores.
pub fn fake_assignment_cert_v2(block_hash: BlockHash, validator: ValidatorIndex, core_bitfield: CoreBitfield) -> (cert:
    IndirectAssignmentCertV2)
    ensures
        cert.block_hash == block_hash,
        cert.validator == validator,
        cert.cert.kind == (AssignmentCertKindV2::RelayVRFModuloCompact { core_bitfield }),
        is_fake_signature(cert.cert.vrf),
{
    assignment_cert_v2_with(block_hash, validator, core_bitfield, fake_signature())
}

/// A state with an empty memory that reports reputation as it changes.
pub fn state_without_reputation_delay(draws: Draws) -> (state: State)
    ensures
        state.wf(),
        state@ == Node::fresh(
            AggressionConfig {
                l1_threshold: Some(16),
                l2_threshold: Some(64),
                resend_unfinalized_period: Some(8),
            },
            true,
            draws@,
        ),
{
    State::new(AggressionConfig::default(), ReputationAggregator::new(true), draws)
}

/// A state with an empty memory that sums reputation up.
pub fn state_with_reputation_delay(draws: Draws) -> (state: State)
    ensures
        state.wf(),
        state@ == Node::fresh(
            AggressionConfig {
                l1_threshold: Some(16),
                l2_threshold: Some(64),
                resend_unfinalized_period: Some(8),
            },
            false,
            draws@,
        ),
{
    State::new(AggressionConfig::default(), ReputationAggregator::new(false), draws)
}

/// The serialized public key that `SecretKey::to_public` of the `schnorrkel` crate gives for a secret key.
pub uninterp spec fn public_key(secret: Seq<u8>) -> Seq<u8>;

/// Calls `Keypair::generate_with` of the `schnorrkel` crate on the randomness of the operating system, and
/// hands out the public key.
///
/// The contract claims that it is the public key of some secret key.  Nothing is claimed of which key that
/// is.
#[verifier::external_body]
fn draw_public_key() -> (key: [u8; 32])
    ensures
        exists|secret: Seq<u8>| key@ == #[trigger] public_key(secret),
{
    schnorrkel::Keypair::generate_with(&mut rand_core::OsRng).public.to_bytes()
}

/// Calls `random` of the `rand` crate, which draws a number from the generator of the thread.  Nothing is
/// claimed of which number that is.
#[verifier::external_body]
fn draw_number() -> (number: u64)
{
    rand::random()
}

/// Whether peers are made of what was drawn: each of the number and the public key of the secret key at its
/// position.
pub open spec fn drawn_from(peers: Seq<(PeerId, AuthorityDiscoveryId)>, numbers: Seq<u64>, secrets: Seq<Seq<u8>>) -> bool {
    &&& numbers.len() == peers.len()
    &&& secrets.len() == peers.len()
    &&& forall|i: int|
        0 <= i < peers.len() ==> (#[trigger] peers[i]).0 == PeerId(numbers[i]) && peers[i].1.0@ == public_key(
            secrets[i],
        )
}

/// Some peers, each with the key of the validator that it acts for.
pub fn peers_with_keys(peer_ids: &Vec<PeerId>, keys: &Vec<AuthorityDiscoveryId>) -> (peers: Vec<
    (PeerId, AuthorityDiscoveryId),
>)
    requires
        peer_ids@.len() == keys@.len(),
    ensures
        peers@ == Seq::new(peer_ids@.len(), |i: int| (peer_ids@[i], keys@[i])),
{
    let mut peers: Vec<(PeerId, AuthorityDiscoveryId)> = Vec::new();
    let mut i: usize = 0;
    while i < peer_ids.len()
        invariant
            i <= peer_ids.len(),
            peer_ids@.len() == keys@.len(),
            peers@ == Seq::new(i as nat, |k: int| (peer_ids@[k], keys@[k])),
        decreases peer_ids.len() - i,
    {
        peers.push((peer_ids[i], keys[i]));
        assert(peers@ =~= Seq::new((i + 1) as nat, |k: int| (peer_ids@[k], keys@[k])));
        i += 1;
    }
    peers
}

/// Some made-up peers with the keys of the validators that they act for, all drawn at random, one after the
/// other.  That no draw repeats another is likely, and not claimed.
pub fn make_peers_and_authority_ids(n: usize) -> (peers: Vec<(PeerId, AuthorityDiscoveryId)>)
    ensures
        peers@.len() == n,
        exists|numbers: Seq<u64>, secrets: Seq<Seq<u8>>| #[trigger] drawn_from(peers@, numbers, secrets),
{
    let mut peer_ids: Vec<PeerId> = Vec::new();
    let mut keys: Vec<AuthorityDiscoveryId> = Vec::new();
    let ghost mut numbers: Seq<u64> = Seq::empty();
    let ghost mut secrets: Seq<Seq<u8>> = Seq::empty();
    let mut i: usize = 0;
    while i < n
        invariant
            i <= n,
            peer_ids@.len() == i,
            keys@.len() == i,
            numbers.len() == i,
            secrets.len() == i,
            forall|k: int| 0 <= k < i ==> #[trigger] peer_ids@[k] == PeerId(numbers[k]),
            forall|k: int| 0 <= k < i ==> (#[trigger] keys@[k]).0@ == public_key(secrets[k]),
        decreases n - i,
    {
        let number: u64 = draw_number();
        let key = draw_public_key();
        peer_ids.push(PeerId(number));
        keys.push(AuthorityDiscoveryId(key));
        proof {
            numbers = numbers.push(number);
            secrets = secrets.push(choose|secret: Seq<u8>| key@ == #[trigger] public_key(secret));
        }
        i += 1;
    }
    let peers = peers_with_keys(&peer_ids, &keys);
    assert(drawn_from(peers@, numbers, secrets));
    peers
}

/// The validators below a bound that are neither the node itself nor among its neighbors, in ascending
/// order.
pub open spec fn strangers(bound: nat, x: Seq<usize>, y: Seq<usize>, local: usize) -> Seq<usize>
    decreases bound,
{
    if bound == 0 {
        Seq::empty()
    } else {
        let rest = strangers((bound - 1) as nat, x, y, local);
        let last = (bound - 1) as usize;
        if last == local || x.contains(last) || y.contains(last) {
            rest
        } else {
            rest.push(last)
        }
    }
}

/// Whether a grid can be made: it is a square with room for the neighbors in the row and the column of
/// the node itself, the neighbors in each of them differ, and there are enough other validators to
/// fill it up.
pub open spec fn is_grid(n_peers: nat, x: Seq<usize>, y: Seq<usize>, local: usize) -> bool {
    let d = x.len() + 1;
    &&& x.len() == y.len()
    &&& x.no_duplicates()
    &&& y.no_duplicates()
    &&& local < d * d
    &&& d * d <= strangers(n_peers, x, y, local).len()
    &&& forall|k: int| 0 <= k < x.len() ==> #[trigger] x[k] < n_peers
    &&& forall|k: int| 0 <= k < y.len() ==> #[trigger] y[k] < n_peers
    &&& local < n_peers
    &&& n_peers <= u32::MAX
}

/// Which validator is at a place: the node itself in the corner, its neighbors along the first row and
/// the first column, and others everywhere else.
pub open spec fn occupant(place: int, n_peers: nat, x: Seq<usize>, y: Seq<usize>, local: usize) -> usize {
    let d = x.len() + 1;
    if place == 0 {
        local
    } else if place < d {
        x[place - 1]
    } else if place % (d as int) == 0 {
        y[place / (d as int) - 1]
    } else {
        strangers(n_peers, x, y, local)[place]
    }
}

/// What is known of a validator.
pub open spec fn place_of(peers: Seq<(PeerId, AuthorityDiscoveryId)>, validator: usize) -> Place {
    Place {
        peers: seq![peers[validator as int].0],
        validator: ValidatorIndex(validator as u32),
        discovery_id: peers[validator as int].1,
    }
}

/// The layout of a made-up grid.  Of the places of the validators only that of the node itself is
/// right.
pub open spec fn grid_layout(
    peers: Seq<(PeerId, AuthorityDiscoveryId)>,
    x: Seq<usize>,
    y: Seq<usize>,
    local: usize,
) -> Layout {
    let d = x.len() + 1;
    Layout {
        place_of: Seq::new(
            d * d,
            |i: int|
                if i == local {
                    0usize
                } else {
                    (d + 1) as usize
                },
        ),
        places: Seq::new(d * d, |p: int| place_of(peers, occupant(p, peers.len(), x, y, local))),
    }
}

/// Whether a number is in a list.
fn has_number(list: &Vec<usize>, number: usize) -> (found: bool)
    ensures
        found == list@.contains(number),
{
    let mut i: usize = 0;
    while i < list.len()
        invariant
            i <= list.len(),
            forall|j: int| 0 <= j < i ==> list@[j] != number,
        decreases list.len() - i,
    {
        if list[i] == number {
            return true;
        }
        i += 1;
    }
    false
}

/// The strangers are below the bound.
proof fn lemma_strangers_bounded(bound: nat, x: Seq<usize>, y: Seq<usize>, local: usize)
    requires
        bound <= usize::MAX,
    ensures
        strangers(bound, x, y, local).len() <= bound,
        forall|k: int| 0 <= k < strangers(bound, x, y, local).len() ==> #[trigger] strangers(bound, x, y, local)[k]
            < bound,
    decreases bound,
{
    if bound > 0 {
        lemma_strangers_bounded((bound - 1) as nat, x, y, local);
    }
}

/// The validators that are neither the node itself nor among its neighbors.
fn find_strangers(n_peers: usize, x: &Vec<usize>, y: &Vec<usize>, local: usize) -> (found: Vec<usize>)
    ensures
        found@ == strangers(n_peers as nat, x@, y@, local),
{
    let mut found: Vec<usize> = Vec::new();
    let mut i: usize = 0;
    while i < n_peers
        invariant
            i <= n_peers,
            found@ == strangers(i as nat, x@, y@, local),
        decreases n_peers - i,
    {
        if !(i == local || has_number(x, i) || has_number(y, i)) {
            found.push(i);
        }
        i += 1;
    }
    found
}

/// A place in the first column is the beginning of a row.
proof fn lemma_row(place: int, d: int)
    requires
        0 < d <= place < d * d,
    ensures
        1 <= place / d < d,
{
    vstd::arithmetic::div_mod::lemma_fundamental_div_mod(place, d);
    let q = place / d;
    assert(q >= 1) by (nonlinear_arith)
        requires
            d > 0,
            place >= d,
            place == d * q + place % d,
            0 <= place % d < d,
    ;
    assert(q < d) by (nonlinear_arith)
        requires
            d > 0,
            place < d * d,
            place == d * q + place % d,
            0 <= place % d < d,
    ;
}

/// A topology that is a square grid.  The node itself is in the upper left corner, the first neighbors
/// are in its row and the second ones in its column.
pub fn make_gossip_topology(
    session: SessionIndex,
    all_peers: &Vec<(PeerId, AuthorityDiscoveryId)>,
    neighbors_x: &Vec<usize>,
    neighbors_y: &Vec<usize>,
    local_index: usize,
) -> (new: NewGossipTopology)
    requires
        is_grid(all_peers@.len(), neighbors_x@, neighbors_y@, local_index),
    ensures
        new.session == session,
        new.topology@ == grid_layout(all_peers@, neighbors_x@, neighbors_y@, local_index),
        new.local_index == Some(ValidatorIndex(local_index as u32)),
{
    let ghost peers = all_peers@;
    let ghost x = neighbors_x@;
    let ghost y = neighbors_y@;
    let ghost n = all_peers@.len();
    let ghost layout = grid_layout(peers, x, y, local_index);
    proof {
        lemma_strangers_bounded(n, x, y, local_index);
        let side = x.len() + 1;
        assert(side <= side * side) by (nonlinear_arith)
            requires
                side >= 1,
        ;
        if side >= 2 {
            assert(side + 1 <= side * side) by (nonlinear_arith)
                requires
                    side >= 2,
            ;
        }
    }
    let d = neighbors_x.len() + 1;
    let grid_size = d * d;
    let others = find_strangers(all_peers.len(), neighbors_x, neighbors_y, local_index);
    let mut shuffled_indices: Vec<usize> = Vec::new();
    let mut canonical_shuffling: Vec<TopologyPeerInfo> = Vec::new();
    let ghost places = places_in(canonical_shuffling@);
    let mut p: usize = 0;
    assert(layout.places.take(0) =~= places);
    assert(layout.place_of.take(0) =~= shuffled_indices@);
    while p < grid_size
        invariant
            p <= grid_size,
            d == x.len() + 1,
            d > 0,
            grid_size == d * d,
            d + 1 <= usize::MAX,
            peers == all_peers@,
            x == neighbors_x@,
            y == neighbors_y@,
            n == peers.len(),
            is_grid(n, x, y, local_index),
            layout == grid_layout(peers, x, y, local_index),
            others@ == strangers(n, x, y, local_index),
            grid_size <= others@.len(),
            forall|k: int| 0 <= k < others@.len() ==> #[trigger] others@[k] < n,
            shuffled_indices@ == layout.place_of.take(p as int),
            places_in(canonical_shuffling@) == layout.places.take(p as int),
        decreases grid_size - p,
    {
        proof {
            if p >= d {
                lemma_row(p as int, d as int);
            }
        }
        let validator: usize = if p == 0 {
            local_index
        } else if p < d {
            neighbors_x[p - 1]
        } else if p % d == 0 {
            neighbors_y[p / d - 1]
        } else {
            others[p]
        };
        assert(validator == occupant(p as int, n, x, y, local_index));
        let mut peer_ids: Vec<PeerId> = Vec::new();
        peer_ids.push(all_peers[validator].0);
        let info = TopologyPeerInfo {
            peer_ids,
            validator_index: ValidatorIndex(validator as u32),
            discovery_id: all_peers[validator].1,
        };
        let ghost before = canonical_shuffling@;
        proof {
            assert(info@.peers =~= seq![peers[validator as int].0]);
            assert(info@ == place_of(peers, validator));
        }
        canonical_shuffling.push(info);
        shuffled_indices.push(
            if p == local_index {
                0
            } else {
                d + 1
            },
        );
        proof {
            assert(layout.places[p as int] == place_of(peers, validator));
            assert(places_in(canonical_shuffling@) =~= places_in(before).push(layout.places[p as int]));
            assert(layout.places.take(p + 1) =~= layout.places.take(p as int).push(layout.places[p as int]));
            assert(shuffled_indices@ =~= layout.place_of.take(p + 1));
        }
        p += 1;
    }
    proof {
        assert(layout.places.take(p as int) =~= layout.places);
        assert(layout.place_of.take(p as int) =~= layout.place_of);
    }
    NewGossipTopology {
        session,
        topology: SessionGridTopology::new(shuffled_indices, canonical_shuffling),
        local_index: Some(ValidatorIndex(local_index as u32)),
    }
}

/// The peers of some validators.
pub open spec fn peers_at(peers: Seq<(PeerId, AuthorityDiscoveryId)>, list: Seq<usize>) -> Seq<PeerId> {
    list.map_values(|i: usize| peers[i as int].0)
}

/// The indices of some validators.
pub open spec fn validators_at(list: Seq<usize>) -> Seq<ValidatorIndex> {
    list.map_values(|i: usize| ValidatorIndex(i as u32))
}

/// The places in the row of the corner of a square grid, and those in its column.
proof fn lemma_corner(d: int, i: int)
    requires
        d > 0,
        0 <= i < d * d,
    ensures
        same_row(d as nat, 0, i) <==> 1 <= i < d,
        same_column(d as nat, 0, i) <==> i >= d && i % d == 0,
{
    assert(0int / d == 0 && 0int % d == 0) by (nonlinear_arith)
        requires
            d > 0,
    ;
    if i < d {
        vstd::arithmetic::div_mod::lemma_small_mod(i as nat, d as nat);
        vstd::arithmetic::div_mod::lemma_basic_div(i, d);
    } else {
        lemma_row(i, d);
    }
}

/// The neighbors of the node itself in a made-up grid are exactly those that were asked for, and as many:
/// the first ones in its row, the second ones in its column.
pub proof fn grid_has_the_given_neighbors(
    peers: Seq<(PeerId, AuthorityDiscoveryId)>,
    x: Seq<usize>,
    y: Seq<usize>,
    local: usize,
)
    requires
        is_grid(peers.len(), x, y, local),
    ensures
        grid_layout(peers, x, y, local).places_validator(ValidatorIndex(local as u32)),
        grid_layout(peers, x, y, local).seen_by(ValidatorIndex(local as u32)).grid == (Neighborhood {
            peers_x: peers_at(peers, x).to_set(),
            validators_x: validators_at(x).to_set(),
            peers_y: peers_at(peers, y).to_set(),
            validators_y: validators_at(y).to_set(),
        }),
        grid_layout(peers, x, y, local).seen_by(ValidatorIndex(local as u32)).grid.validators_x.len() == x.len(),
        grid_layout(peers, x, y, local).seen_by(ValidatorIndex(local as u32)).grid.validators_y.len() == y.len(),
{
    let layout = grid_layout(peers, x, y, local);
    let d = x.len() + 1;
    let len = layout.places.len();
    let n = peers.len();
    assert(d <= d * d) by (nonlinear_arith)
        requires
            d >= 1,
    ;
    assert(len == d * d);
    assert(d * d < (d + 1) * (d + 1)) by (nonlinear_arith);
    assert(is_side(len, d));
    lemma_side_unique(len, d, side_of(len));
    let grid = layout.neighborhood(0);
    let px = peers_at(peers, x);
    let vx = validators_at(x);
    let py = peers_at(peers, y);
    let vy = validators_at(y);
    assert forall|i: int| 0 <= i < len implies (#[trigger] layout.in_row(0, i) <==> 1 <= i < d) by {
        lemma_corner(d as int, i);
    }
    assert forall|i: int| 0 <= i < len implies (#[trigger] layout.in_column(0, i) <==> i >= d && i % (d as int)
        == 0) by {
        lemma_corner(d as int, i);
    }
    assert forall|k: int| 0 <= k < x.len() implies layout.in_row(0, k + 1) && layout.places[k + 1] == place_of(
        peers,
        #[trigger] x[k],
    ) by {
        assert(occupant(k + 1, n, x, y, local) == x[k]);
    }
    assert forall|i: int| #[trigger] layout.in_row(0, i) implies layout.places[i] == place_of(peers, x[i - 1]) by {}
    assert forall|i: int| #[trigger] layout.in_column(0, i) implies 1 <= i / (d as int) < d && layout.places[i]
        == place_of(peers, y[i / (d as int) - 1]) by {
        lemma_row(i, d as int);
    }
    assert forall|k: int| 0 <= k < y.len() implies {
        &&& #[trigger] layout.in_column(0, (k + 1) * d)
        &&& layout.places[(k + 1) * d] == place_of(peers, y[k])
    } by {
        let i = (k + 1) * d;
        assert(d <= i < d * d) by (nonlinear_arith)
            requires
                i == (k + 1) * d,
                0 <= k,
                k + 1 < d,
        ;
        vstd::arithmetic::div_mod::lemma_mod_multiples_basic(k + 1, d as int);
        vstd::arithmetic::div_mod::lemma_div_by_multiple(k + 1, d as int);
        assert(layout.in_column(0, i));
    }
    assert forall|peer: PeerId| grid.peers_x.contains(peer) <==> #[trigger] px.to_set().contains(peer) by {
        if grid.peers_x.contains(peer) {
            let i = choose|i: int|
                i < len && #[trigger] layout.in_row(0, i) && layout.places[i].peers.contains(peer);
            assert(px[i - 1] == peer);
        }
        if px.to_set().contains(peer) {
            let k = choose|k: int| 0 <= k < px.len() && px[k] == peer;
            assert(x[k] < n);
            assert(layout.places[k + 1].peers[0] == peer);
        }
    }
    assert forall|v: ValidatorIndex| grid.validators_x.contains(v) <==> #[trigger] vx.to_set().contains(v) by {
        if grid.validators_x.contains(v) {
            let i = choose|i: int| i < len && #[trigger] layout.in_row(0, i) && layout.places[i].validator == v;
            assert(vx[i - 1] == v);
        }
        if vx.to_set().contains(v) {
            let k = choose|k: int| 0 <= k < vx.len() && vx[k] == v;
            assert(x[k] < n);
            assert(layout.places[k + 1].validator == v);
        }
    }
    assert forall|peer: PeerId| grid.peers_y.contains(peer) <==> #[trigger] py.to_set().contains(peer) by {
        if grid.peers_y.contains(peer) {
            let i = choose|i: int|
                i < len && #[trigger] layout.in_column(0, i) && layout.places[i].peers.contains(peer);
            assert(py[i / (d as int) - 1] == peer);
        }
        if py.to_set().contains(peer) {
            let k = choose|k: int| 0 <= k < py.len() && py[k] == peer;
            assert(layout.in_column(0, (k + 1) * d));
            assert(layout.places[(k + 1) * d].peers[0] == peer);
        }
    }
    assert forall|v: ValidatorIndex| grid.validators_y.contains(v) <==> #[trigger] vy.to_set().contains(v) by {
        if grid.validators_y.contains(v) {
            let i = choose|i: int| i < len && #[trigger] layout.in_column(0, i) && layout.places[i].validator == v;
            assert(vy[i / (d as int) - 1] == v);
        }
        if vy.to_set().contains(v) {
            let k = choose|k: int| 0 <= k < vy.len() && vy[k] == v;
            assert(layout.in_column(0, (k + 1) * d));
            assert(layout.places[(k + 1) * d].validator == v);
        }
    }
    assert(grid.peers_x =~= px.to_set());
    assert(grid.validators_x =~= vx.to_set());
    assert(grid.peers_y =~= py.to_set());
    assert(grid.validators_y =~= vy.to_set());
    assert(layout.place_of[local as int] == 0);
    lemma_validators_differ(peers.len(), x);
    lemma_validators_differ(peers.len(), y);
    vx.unique_seq_to_set();
    vy.unique_seq_to_set();
}

/// Different numbers are the indices of different validators.
proof fn lemma_validators_differ(n_peers: nat, list: Seq<usize>)
    requires
        list.no_duplicates(),
        n_peers <= u32::MAX,
        forall|k: int| 0 <= k < list.len() ==> #[trigger] list[k] < n_peers,
    ensures
        validators_at(list).no_duplicates(),
{
    let found = validators_at(list);
    assert forall|a: int, b: int| 0 <= a < found.len() && 0 <= b < found.len() && a != b implies found[a] != found[b] by {
        assert(list[a] != list[b]);
        assert(list[a] < n_peers && list[b] < n_peers);
    }
}

/// Connects a peer that looks at some heads.
pub fn setup_peer_with_view(state: &mut State, peer: PeerId, view: ChainView, version: ValidationVersion)
    requires
        old(state).wf(),
        old(state)@.awaiting is None,
    ensures
        final(state).wf(),
        final(state)@ == old(state)@.handled(Event::PeerConnected(peer, version)).handled(
            Event::PeerViewChange(peer, view),
        ),
{
    state.handle(Event::PeerConnected(peer, version));
    state.handle(Event::PeerViewChange(peer, view));
}

/// Lays the validators of a session out in a grid.
pub fn setup_gossip_topology(state: &mut State, topology: NewGossipTopology)
    requires
        old(state).wf(),
        old(state)@.awaiting is None,
    ensures
        final(state).wf(),
        final(state)@ == old(state)@.handled(Event::NewGossipTopology(topology)),
{
    state.handle(Event::NewGossipTopology(topology));
}

/// Has a peer send a message of the first version.
pub fn send_message_from_peer(state: &mut State, peer: PeerId, msg: ApprovalDistributionMessageV1)
    requires
        old(state).wf(),
        old(state)@.awaiting is None,
    ensures
        final(state).wf(),
        final(state)@ == old(state)@.handled(Event::PeerMessage(peer, Versioned::V1(msg))),
{
    state.handle(Event::PeerMessage(peer, Versioned::V1(msg)));
}

/// Has a peer send a message of the second version.
pub fn send_message_from_peer_v2(state: &mut State, peer: PeerId, msg: ApprovalDistributionMessageV1)
    requires
        old(state).wf(),
        old(state)@.awaiting is None,
    ensures
        final(state).wf(),
        final(state)@ == old(state)@.handled(Event::PeerMessage(peer, Versioned::V2(msg))),
{
    state.handle(Event::PeerMessage(peer, Versioned::V2(msg)));
}

/// Has a peer send a message of the third version.
pub fn send_message_from_peer_v3(state: &mut State, peer: PeerId, msg: ApprovalDistributionMessageV3)
    requires
        old(state).wf(),
        old(state)@.awaiting is None,
    ensures
        final(state).wf(),
        final(state)@ == old(state)@.handled(Event::PeerMessage(peer, Versioned::V3(msg))),
{
    state.handle(Event::PeerMessage(peer, Versioned::V3(msg)));
}

/// Makes the chain final up to a number.
pub fn signal_block_finalized(state: &mut State, number: BlockNumber)
    requires
        old(state).wf(),
        old(state)@.awaiting is None,
    ensures
        final(state).wf(),
        final(state)@ == old(state)@.handled(Event::BlockFinalized(number)),
{
    state.handle(Event::BlockFinalized(number));
}

/// Whether an action reports a single change of the reputation of a peer.
pub fn expect_reputation_change(action: &Action, peer: PeerId, rep: Rep) -> (met: bool)
    ensures
        met == (action@ == Effect::Report(peer, rep)),
{
    match action {
        Action::ReportPeer(reported, change) => *reported == peer && *change == rep,
        _ => false,
    }
}

/// Whether an action reports the sum of some changes of the reputation of a peer, once and nothing else.
pub fn expect_reputation_changes(action: &Action, peer: PeerId, reps: &Vec<Rep>) -> (met: bool)
    ensures
        met == (action@ == (Effect::ReportAll {
            sums: scored_all(Map::empty(), peer, reps@),
            once_each: true,
        })),
{
    let mut acc: Vec<(PeerId, i32)> = Vec::new();
    let mut i: usize = 0;
    proof {
        assert(dict::dict(acc@) =~= Map::empty());
        assert(reps@.take(0) =~= Seq::empty());
    }
    while i < reps.len()
        invariant
            i <= reps.len(),
            dict::keys_unique(acc@),
            dict::dict(acc@) == scored_all(Map::empty(), peer, reps@.take(i as int)),
        decreases reps.len() - i,
    {
        proof {
            assert(reps@.take(i + 1).drop_last() =~= reps@.take(i as int));
            assert(reps@.take(i + 1).last() == reps@[i as int]);
        }
        add_reputation(&mut acc, peer, reps[i]);
        i += 1;
    }
    assert(reps@.take(i as int) =~= reps@);
    match action {
        Action::ReportPeers(list) => has_one_sum_each(list) && same_sums(list, &acc),
        _ => false,
    }
}

/// Whether no peer has two sums.
fn has_one_sum_each(list: &Vec<(PeerId, i32)>) -> (answer: bool)
    ensures
        answer == dict::keys_unique(list@),
{
    let mut j: usize = 0;
    while j < list.len()
        invariant
            j <= list.len(),
            forall|a: int, b: int| 0 <= a < b < j ==> #[trigger] list@[a].0 != #[trigger] list@[b].0,
        decreases list.len() - j,
    {
        let mut i: usize = 0;
        while i < j
            invariant
                i <= j < list.len(),
                forall|a: int| 0 <= a < i ==> #[trigger] list@[a].0 != list@[j as int].0,
            decreases j - i,
        {
            if list[i].0 == list[j].0 {
                return false;
            }
            i += 1;
        }
        j += 1;
    }
    true
}

/// Whether two lists of sums say the same.
fn same_sums(a: &Vec<(PeerId, i32)>, b: &Vec<(PeerId, i32)>) -> (same: bool)
    requires
        dict::keys_unique(a@),
        dict::keys_unique(b@),
    ensures
        same == (dict::dict(a@) == dict::dict(b@)),
{
    let forth = included(a, b);
    let back = included(b, a);
    proof {
        if forth && back {
            let (x, y) = (dict::dict(a@), dict::dict(b@));
            assert forall|peer: PeerId| x.contains_key(peer) <==> #[trigger] y.contains_key(peer) by {
                assert(x.contains_key(peer) ==> x[peer] == y[peer]);
                assert(y.contains_key(peer) ==> y[peer] == x[peer]);
            }
            assert(x =~= y);
        }
    }
    forth && back
}

/// Whether every sum of a list is in another list.
fn included(a: &Vec<(PeerId, i32)>, b: &Vec<(PeerId, i32)>) -> (answer: bool)
    requires
        dict::keys_unique(a@),
        dict::keys_unique(b@),
    ensures
        answer == (forall|peer: PeerId|
            dict::dict(a@).contains_key(peer) ==> dict::dict(b@).contains_key(peer) && #[trigger] dict::dict(
                a@,
            )[peer] == dict::dict(b@)[peer]),
{
    let mut i: usize = 0;
    while i < a.len()
        invariant
            i <= a.len(),
            dict::keys_unique(a@),
            dict::keys_unique(b@),
            forall|k: int|
                0 <= k < i ==> dict::dict(b@).contains_key((#[trigger] a@[k]).0) && dict::dict(b@)[a@[k].0] == a@[k].1,
        decreases a.len() - i,
    {
        if !has_sum(b, a[i].0, a[i].1) {
            proof {
                dict::lemma_dict_at(a@, i as int);
                assert(dict::dict(a@)[a@[i as int].0] == a@[i as int].1);
            }
            return false;
        }
        i += 1;
    }
    proof {
        assert forall|peer: PeerId| dict::dict(a@).contains_key(peer) implies dict::dict(b@).contains_key(peer)
            && #[trigger] dict::dict(a@)[peer] == dict::dict(b@)[peer] by {
            let k = dict::index_of_key(a@, peer);
            assert(a@[k].0 == peer);
            dict::lemma_dict_at(a@, k);
        }
    }
    true
}

/// Whether a list holds a sum for a peer.
fn has_sum(list: &Vec<(PeerId, i32)>, peer: PeerId, sum: i32) -> (answer: bool)
    requires
        dict::keys_unique(list@),
    ensures
        answer == (dict::dict(list@).contains_key(peer) && dict::dict(list@)[peer] == sum),
{
    let mut i: usize = 0;
    while i < list.len()
        invariant
            i <= list.len(),
            dict::keys_unique(list@),
            forall|k: int| 0 <= k < i ==> (#[trigger] list@[k]).0 != peer,
        decreases list.len() - i,
    {
        if list[i].0 == peer {
            proof {
                dict::lemma_dict_at(list@, i as int);
            }
            return list[i].1 == sum;
        }
        i += 1;
    }
    proof {
        if dict::dict(list@).contains_key(peer) {
            let k = dict::index_of_key(list@, peer);
            assert(list@[k].0 == peer);
        }
    }
    false
}

/// The strangers are all below a bound who are neither the node nor among the given neighbors, in ascending order.
pub proof fn strangers_are_neither_node_nor_neighbors(
    bound: nat,
    x: Seq<usize>,
    y: Seq<usize>,
    local: usize,
    i: int,
    j: int,
    other: usize,
)
    requires
        bound <= usize::MAX,
    ensures
        ({
            let list = strangers(bound, x, y, local);
            &&& 0 <= i < list.len() ==> list[i] < bound && list[i] != local && !x.contains(list[i]) && !y.contains(
                list[i],
            )
            &&& 0 <= i < j < list.len() ==> list[i] < list[j]
            &&& other < bound && other != local && !x.contains(other) && !y.contains(other) ==> list.contains(other)
        }),
    decreases bound,
{
    if bound > 0 {
        let below = (bound - 1) as nat;
        let rest = strangers(below, x, y, local);
        let list = strangers(bound, x, y, local);
        let last = below as usize;
        strangers_are_neither_node_nor_neighbors(below, x, y, local, i, j, other);
        if rest.contains(other) {
            let r = choose|r: int| 0 <= r < rest.len() && rest[r] == other;
            assert(list[r] == other);
        }
        if !(last == local || x.contains(last) || y.contains(last)) {
            assert(list == rest.push(last));
            assert(list[rest.len() as int] == last);
        }
    }
}

/// Who is at which place of a made-up grid: the node at the first one, the first neighbors behind it in the first row,
/// the second ones below it in the first column, and strangers at all others; each place is that of one validator with
/// its peer and its key.
pub proof fn places_are_taken_as_given(
    peers: Seq<(PeerId, AuthorityDiscoveryId)>,
    x: Seq<usize>,
    y: Seq<usize>,
    local: usize,
    row: nat,
    column: nat,
)
    requires
        is_grid(peers.len(), x, y, local),
        row <= x.len(),
        column <= x.len(),
    ensures
        ({
            let d = x.len() + 1;
            let place = grid_layout(peers, x, y, local).places[(row * d + column) as int];
            let who = place.validator.0 as int;
            &&& row == 0 && column == 0 ==> who == local
            &&& row == 0 && column > 0 ==> who == x[column - 1]
            &&& row > 0 && column == 0 ==> who == y[row - 1]
            &&& row > 0 && column > 0 ==> who != local && !x.contains(who as usize) && !y.contains(who as usize)
            &&& place.peers == seq![peers[who].0]
            &&& place.discovery_id == peers[who].1
        }),
{
    let d = x.len() + 1;
    let at = (row * d + column) as int;
    let r = row as int;
    let c = column as int;
    let s = d as int;
    assert(row * d == r * s);
    assert(r * s + c < s * s && r * s >= 0) by (nonlinear_arith)
        requires
            0 <= r < s,
            0 <= c < s,
    ;
    assert((r * s + c) / s == r && (r * s + c) % s == c) by (nonlinear_arith)
        requires
            0 <= c < s,
            0 <= r,
    ;
    assert(d * d == s * s);
    if row > 0 {
        assert(r * s >= s) by (nonlinear_arith)
            requires
                r >= 1,
                s >= 1,
        ;
    } else {
        assert(r * s == 0) by (nonlinear_arith)
            requires
                r == 0,
        ;
    }
    if row > 0 && column > 0 {
        strangers_are_neither_node_nor_neighbors(peers.len(), x, y, local, at, at, local);
    }
}

} // verus!
