//! The grid along which messages are routed.
use crate::primitives::{PeerId, ValidatorIndex};
use vstd::prelude::*;

verus! {

/// The key by which a validator is found in the network.
#[derive(Clone, Copy, Debug, PartialEq, Eq)]
pub struct AuthorityDiscoveryId(pub [u8; 32]);

/// A validator's place in a topology, with the peers that act for it.
#[derive(Debug)]
pub struct TopologyPeerInfo {
    pub peer_ids: Vec<PeerId>,
    pub validator_index: ValidatorIndex,
    pub discovery_id: AuthorityDiscoveryId,
}

/// The validators of a session, laid out in the rows of a square.
#[derive(Debug)]
pub struct SessionGridTopology {
    /// The place of each validator, by its index.
    pub shuffled_indices: Vec<usize>,
    /// The validators in the order of their places.
    pub canonical_shuffling: Vec<TopologyPeerInfo>,
}

/// The peers and validators that share a row or a column with a validator.
#[derive(Debug)]
pub struct GridNeighbors {
    pub peers_x: Vec<PeerId>,
    pub validator_indices_x: Vec<ValidatorIndex>,
    pub peers_y: Vec<PeerId>,
    pub validator_indices_y: Vec<ValidatorIndex>,
}

/// What a [`GridNeighbors`] holds.
#[verifier::ext_equal]
pub ghost struct Neighborhood {
    pub peers_x: Set<PeerId>,
    pub validators_x: Set<ValidatorIndex>,
    pub peers_y: Set<PeerId>,
    pub validators_y: Set<ValidatorIndex>,
}

impl View for GridNeighbors {
    type V = Neighborhood;

    open spec fn view(&self) -> Neighborhood {
        Neighborhood {
            peers_x: self.peers_x@.to_set(),
            validators_x: self.validator_indices_x@.to_set(),
            peers_y: self.peers_y@.to_set(),
            validators_y: self.validator_indices_y@.to_set(),
        }
    }
}

/// Which neighbors a message has to be sent to.
#[derive(Clone, Copy, Debug, PartialEq, Eq, Structural)]
pub enum RequiredRouting {
    /// All peers.
    All,
    /// The neighbors in the row and in the column.
    GridXY,
    /// The neighbors in the row.
    GridX,
    /// The neighbors in the column.
    GridY,
    /// None of the neighbors.
    Nobody,
    /// To be decided when the topology of the session is known.
    PendingTopology,
}

/// Whether `side` is the square root of `len`, rounded down.
pub open spec fn is_side(len: nat, side: nat) -> bool {
    side * side <= len < (side + 1) * (side + 1)
}

/// The number of places in a row when `len` validators are laid out in a square.
pub open spec fn side_of(len: nat) -> nat {
    choose|side: nat| is_side(len, side)
}

/// A number has one square root, rounded down.
pub proof fn lemma_side_unique(len: nat, a: nat, b: nat)
    requires
        is_side(len, a),
        is_side(len, b),
    ensures
        a == b,
{
    if a < b {
        assert((a + 1) * (a + 1) <= b * b) by (nonlinear_arith)
            requires
                a + 1 <= b,
        ;
    } else if b < a {
        assert((b + 1) * (b + 1) <= a * a) by (nonlinear_arith)
            requires
                b + 1 <= a,
        ;
    }
}

/// Whether a square with sides one longer than `side` has no more than `len` places.
fn next_square_fits(side: usize, len: usize) -> (fits: bool)
    ensures
        fits <==> (side + 1) * (side + 1) <= len,
{
    if side as u64 >= 0x1_0000_0000u64 {
        assert((side + 1) * (side + 1) > u64::MAX) by (nonlinear_arith)
            requires
                side >= 0x1_0000_0000,
        ;
        return false;
    }
    let longer: u128 = side as u128 + 1;
    assert(longer * longer <= 0x1_0000_0000 * 0x1_0000_0000) by (nonlinear_arith)
        requires
            longer <= 0x1_0000_0000,
    ;
    longer * longer <= len as u128
}

/// The square root of a number, rounded down.
pub fn grid_side(len: usize) -> (side: usize)
    ensures
        side == side_of(len as nat),
        is_side(len as nat, side as nat),
{
    let mut side: usize = 0;
    while next_square_fits(side, len)
        invariant
            side * side <= len,
            side <= len,
        decreases len - side,
    {
        proof {
            let s = side as int;
            assert(s + 1 <= (s + 1) * (s + 1)) by (nonlinear_arith)
                requires
                    s >= 0,
            ;
        }
        side = side + 1;
    }
    proof {
        assert(is_side(len as nat, side as nat));
        lemma_side_unique(len as nat, side as nat, side_of(len as nat));
    }
    side
}

/// Whether two different places are in the same row.
pub open spec fn same_row(side: nat, a: int, b: int) -> bool {
    a != b && a / (side as int) == b / (side as int)
}

/// Whether two different places are in the same column.
pub open spec fn same_column(side: nat, a: int, b: int) -> bool {
    a != b && a % (side as int) == b % (side as int)
}

/// Adds a peer to a list of different peers, unless it is there.
fn add_peer(list: &mut Vec<PeerId>, peer: PeerId)
    requires
        old(list)@.no_duplicates(),
    ensures
        final(list)@.no_duplicates(),
        final(list)@.to_set() == old(list)@.to_set().insert(peer),
{
    if has_peer(list, peer) {
        assert(list@.to_set().insert(peer) =~= list@.to_set());
    } else {
        let ghost before = list@;
        list.push(peer);
        proof {
            lemma_push_to_set(before, peer);
        }
    }
}

/// Adds a validator to a list of different validators, unless it is there.
fn add_validator(list: &mut Vec<ValidatorIndex>, validator: ValidatorIndex)
    requires
        old(list)@.no_duplicates(),
    ensures
        final(list)@.no_duplicates(),
        final(list)@.to_set() == old(list)@.to_set().insert(validator),
{
    if has_validator(list, validator) {
        assert(list@.to_set().insert(validator) =~= list@.to_set());
    } else {
        let ghost before = list@;
        list.push(validator);
        proof {
            lemma_push_to_set(before, validator);
        }
    }
}

/// Adds the peers of another list to a list of different peers, except those that are there.
fn add_all(list: &mut Vec<PeerId>, items: &Vec<PeerId>)
    requires
        old(list)@.no_duplicates(),
    ensures
        final(list)@.no_duplicates(),
        final(list)@.to_set() == old(list)@.to_set().union(items@.to_set()),
{
    let ghost start = list@;
    let mut i: usize = 0;
    assert(start.to_set().union(items@.take(0).to_set()) =~= start.to_set());
    while i < items.len()
        invariant
            i <= items.len(),
            list@.no_duplicates(),
            list@.to_set() == start.to_set().union(items@.take(i as int).to_set()),
        decreases items.len() - i,
    {
        add_peer(list, items[i]);
        proof {
            assert(items@.take(i + 1) =~= items@.take(i as int).push(items@[i as int]));
            lemma_push_to_set(items@.take(i as int), items@[i as int]);
            assert(list@.to_set() =~= start.to_set().union(items@.take(i + 1).to_set()));
        }
        i += 1;
    }
    assert(items@.take(items@.len() as int) =~= items@);
}

/// Appending an item to a list adds it to the set of the items.
pub proof fn lemma_push_to_set<T>(list: Seq<T>, item: T)
    ensures
        list.push(item).to_set() == list.to_set().insert(item),
{
    assert forall|x: T| #[trigger] list.push(item).to_set().contains(x) <==> list.to_set().insert(item).contains(x) by {
        assert(list.push(item).to_set().contains(x) <==> list.push(item).contains(x));
        assert(list.to_set().contains(x) <==> list.contains(x));
        if list.contains(x) {
            let i = choose|i: int| 0 <= i < list.len() && list[i] == x;
            assert(list.push(item)[i] == x);
        }
        if x == item {
            assert(list.push(item)[list.len() as int] == x);
        }
        if list.push(item).contains(x) {
            let i = choose|i: int| 0 <= i < list.push(item).len() && list.push(item)[i] == x;
            if i < list.len() {
                assert(list[i] == x);
            }
        }
    }
    assert(list.push(item).to_set() =~= list.to_set().insert(item));
}

/// What a [`TopologyPeerInfo`] says.
#[verifier::ext_equal]
pub ghost struct Place {
    pub peers: Seq<PeerId>,
    pub validator: ValidatorIndex,
    pub discovery_id: AuthorityDiscoveryId,
}

/// What a [`SessionGridTopology`] says.
#[verifier::ext_equal]
pub ghost struct Layout {
    /// The place of each validator, by its index.
    pub place_of: Seq<usize>,
    /// The validators in the order of their places.
    pub places: Seq<Place>,
}

impl View for TopologyPeerInfo {
    type V = Place;

    open spec fn view(&self) -> Place {
        Place { peers: self.peer_ids@, validator: self.validator_index, discovery_id: self.discovery_id }
    }
}

/// What a list of places says.
pub open spec fn places_in(list: Seq<TopologyPeerInfo>) -> Seq<Place> {
    list.map_values(|info: TopologyPeerInfo| info@)
}

impl View for SessionGridTopology {
    type V = Layout;

    open spec fn view(&self) -> Layout {
        Layout {
            place_of: self.shuffled_indices@,
            places: places_in(self.canonical_shuffling@),
        }
    }
}

impl Layout {
    /// Whether the validator has a place in a layout that gives every validator one.
    pub open spec fn places_validator(self, validator: ValidatorIndex) -> bool {
        &&& self.place_of.len() == self.places.len()
        &&& validator.0 < self.place_of.len()
        &&& self.place_of[validator.0 as int] < self.places.len()
    }

    /// Whether place `i` is in the row of place `at`.
    pub open spec fn in_row(self, at: int, i: int) -> bool {
        0 <= i < self.places.len() && same_row(side_of(self.places.len()), at, i)
    }

    /// Whether place `i` is in the column of place `at`.
    pub open spec fn in_column(self, at: int, i: int) -> bool {
        0 <= i < self.places.len() && same_column(side_of(self.places.len()), at, i)
    }

    /// The neighbors of the place `at`, as far as the first `count` places hold them.
    pub open spec fn neighborhood_upto(self, at: int, count: int) -> Neighborhood {
        Neighborhood {
            peers_x: Set::new(
                |peer: PeerId|
                    exists|i: int| i < count && #[trigger] self.in_row(at, i) && self.places[i].peers.contains(peer),
            ),
            validators_x: Set::new(
                |validator: ValidatorIndex|
                    exists|i: int| i < count && #[trigger] self.in_row(at, i) && self.places[i].validator == validator,
            ),
            peers_y: Set::new(
                |peer: PeerId|
                    exists|i: int| i < count && #[trigger] self.in_column(at, i) && self.places[i].peers.contains(peer),
            ),
            validators_y: Set::new(
                |validator: ValidatorIndex|
                    exists|i: int|
                        i < count && #[trigger] self.in_column(at, i) && self.places[i].validator == validator,
            ),
        }
    }

    /// The neighbors of the place `at`: those in its row and those in its column.
    pub open spec fn neighborhood(self, at: int) -> Neighborhood {
        self.neighborhood_upto(at, self.places.len() as int)
    }

    /// The peers that act for a validator of the session.
    pub open spec fn members(self) -> Set<PeerId> {
        Set::new(
            |peer: PeerId|
                exists|i: int| 0 <= i < self.places.len() && #[trigger] self.places[i].peers.contains(peer),
        )
    }
}

impl GridNeighbors {
    /// Whether no peer and no validator is named twice in a dimension.
    pub open spec fn wf(self) -> bool {
        &&& self.peers_x@.no_duplicates()
        &&& self.validator_indices_x@.no_duplicates()
        &&& self.peers_y@.no_duplicates()
        &&& self.validator_indices_y@.no_duplicates()
    }

    /// No neighbors at all.
    pub fn empty() -> (neighbors: GridNeighbors)
        ensures
            neighbors.wf(),
            neighbors@ == Neighborhood::nobody(),
    {
        let neighbors = GridNeighbors {
            peers_x: Vec::new(),
            validator_indices_x: Vec::new(),
            peers_y: Vec::new(),
            validator_indices_y: Vec::new(),
        };
        assert(neighbors@ =~= Neighborhood::nobody());
        neighbors
    }
}

impl SessionGridTopology {
    /// A topology of validators in the order of their places, with the place of each of them.
    pub fn new(shuffled_indices: Vec<usize>, canonical_shuffling: Vec<TopologyPeerInfo>) -> (topology: Self)
        ensures
            topology@ == (Layout {
                place_of: shuffled_indices@,
                places: places_in(canonical_shuffling@),
            }),
    {
        SessionGridTopology { shuffled_indices, canonical_shuffling }
    }

    /// The neighbors of a validator in the grid, if the topology has a place for it.
    pub fn compute_grid_neighbors_for(&self, validator: ValidatorIndex) -> (neighbors: Option<GridNeighbors>)
        ensures
            neighbors is Some <==> self@.places_validator(validator),
            neighbors matches Some(n) ==> {
                &&& n.wf()
                &&& n@ == self@.neighborhood(self@.place_of[validator.0 as int] as int)
                &&& n.validator_indices_x@.len() == n@.validators_x.len()
                &&& n.validator_indices_y@.len() == n@.validators_y.len()
            },
    {
        let len = self.canonical_shuffling.len();
        if self.shuffled_indices.len() != len || validator.0 as usize >= len {
            return None;
        }
        let at: usize = self.shuffled_indices[validator.0 as usize];
        if at >= len {
            return None;
        }
        let side = grid_side(len);
        let ghost layout = self@;
        proof {
            if side == 0 {
                assert((0nat + 1) * (0nat + 1) == 1) by (nonlinear_arith);
            }
        }
        let mut neighbors = GridNeighbors::empty();
        assert(neighbors@ =~= layout.neighborhood_upto(at as int, 0));
        let mut i: usize = 0;
        while i < len
            invariant
                i <= len,
                at < len,
                len == self.canonical_shuffling@.len(),
                layout == self@,
                side > 0,
                side == side_of(len as nat),
                neighbors.wf(),
                neighbors@ == layout.neighborhood_upto(at as int, i as int),
            decreases len - i,
        {
            let info = &self.canonical_shuffling[i];
            let ghost before = neighbors@;
            proof {
                assert(layout.places[i as int] == info@);
            }
            if i != at && i / side == at / side {
                assert(layout.in_row(at as int, i as int));
                add_all(&mut neighbors.peers_x, &info.peer_ids);
                add_validator(&mut neighbors.validator_indices_x, info.validator_index);
            }
            if i != at && i % side == at % side {
                assert(layout.in_column(at as int, i as int));
                add_all(&mut neighbors.peers_y, &info.peer_ids);
                add_validator(&mut neighbors.validator_indices_y, info.validator_index);
            }
            proof {
                layout.lemma_neighborhood_step(at as int, i as int);
                assert(neighbors@ =~= layout.neighborhood_upto(at as int, i + 1));
            }
            i += 1;
        }
        proof {
            neighbors.validator_indices_x@.unique_seq_to_set();
            neighbors.validator_indices_y@.unique_seq_to_set();
        }
        Some(neighbors)
    }
}

impl Layout {
    /// How the next place changes the neighbors that were found so far.
    proof fn lemma_neighborhood_step(self, at: int, i: int)
        requires
            0 <= i < self.places.len(),
        ensures
            ({
                let was = self.neighborhood_upto(at, i);
                let now = self.neighborhood_upto(at, i + 1);
                &&& now.peers_x =~= if self.in_row(at, i) {
                    was.peers_x.union(self.places[i].peers.to_set())
                } else {
                    was.peers_x
                }
                &&& now.validators_x =~= if self.in_row(at, i) {
                    was.validators_x.insert(self.places[i].validator)
                } else {
                    was.validators_x
                }
                &&& now.peers_y =~= if self.in_column(at, i) {
                    was.peers_y.union(self.places[i].peers.to_set())
                } else {
                    was.peers_y
                }
                &&& now.validators_y =~= if self.in_column(at, i) {
                    was.validators_y.insert(self.places[i].validator)
                } else {
                    was.validators_y
                }
            }),
    {
        let was = self.neighborhood_upto(at, i);
        let now = self.neighborhood_upto(at, i + 1);
        assert forall|peer: PeerId| now.peers_x.contains(peer) <==> was.peers_x.contains(peer) || (self.in_row(at, i)
            && self.places[i].peers.contains(peer)) by {
            if was.peers_x.contains(peer) {
                let k = choose|k: int| k < i && #[trigger] self.in_row(at, k) && self.places[k].peers.contains(peer);
                assert(self.in_row(at, k));
            }
        }
        assert forall|v: ValidatorIndex| now.validators_x.contains(v) <==> was.validators_x.contains(v) || (
        self.in_row(at, i) && self.places[i].validator == v) by {
            if was.validators_x.contains(v) {
                let k = choose|k: int| k < i && #[trigger] self.in_row(at, k) && self.places[k].validator == v;
                assert(self.in_row(at, k));
            }
        }
        assert forall|peer: PeerId| now.peers_y.contains(peer) <==> was.peers_y.contains(peer) || (self.in_column(
            at,
            i,
        ) && self.places[i].peers.contains(peer)) by {
            if was.peers_y.contains(peer) {
                let k = choose|k: int| k < i && #[trigger] self.in_column(at, k) && self.places[k].peers.contains(peer);
                assert(self.in_column(at, k));
            }
        }
        assert forall|v: ValidatorIndex| now.validators_y.contains(v) <==> was.validators_y.contains(v) || (
        self.in_column(at, i) && self.places[i].validator == v) by {
            if was.validators_y.contains(v) {
                let k = choose|k: int| k < i && #[trigger] self.in_column(at, k) && self.places[k].validator == v;
                assert(self.in_column(at, k));
            }
        }
    }
}

/// Whether a peer is in a list.
pub fn has_peer(list: &Vec<PeerId>, peer: PeerId) -> (found: bool)
    ensures
        found == list@.contains(peer),
{
    let mut i: usize = 0;
    while i < list.len()
        invariant
            i <= list.len(),
            forall|j: int| 0 <= j < i ==> list@[j] != peer,
        decreases list.len() - i,
    {
        if list[i] == peer {
            return true;
        }
        i += 1;
    }
    false
}

/// Whether a validator is in a list.
fn has_validator(list: &Vec<ValidatorIndex>, validator: ValidatorIndex) -> (found: bool)
    ensures
        found == list@.contains(validator),
{
    let mut i: usize = 0;
    while i < list.len()
        invariant
            i <= list.len(),
            forall|j: int| 0 <= j < i ==> list@[j] != validator,
        decreases list.len() - i,
    {
        if list[i] == validator {
            return true;
        }
        i += 1;
    }
    false
}

impl Neighborhood {
    /// The neighborhood without anybody in it.
    pub open spec fn nobody() -> Neighborhood {
        Neighborhood {
            peers_x: Set::empty(),
            validators_x: Set::empty(),
            peers_y: Set::empty(),
            validators_y: Set::empty(),
        }
    }

    /// Where the messages of a validator have to go: the node's own go along the row and the column,
    /// those of a validator in the row go along the column, those of one in the column go along the
    /// row, and those of others go nowhere.
    pub open spec fn required_routing(self, originator: ValidatorIndex, local: bool) -> RequiredRouting {
        if local {
            RequiredRouting::GridXY
        } else {
            match (self.validators_x.contains(originator), self.validators_y.contains(originator)) {
                (false, false) => RequiredRouting::Nobody,
                (true, false) => RequiredRouting::GridY,
                (false, true) => RequiredRouting::GridX,
                (true, true) => RequiredRouting::GridXY,
            }
        }
    }

    /// Whether messages that have to go somewhere have to go to a peer.
    pub open spec fn routes(self, routing: RequiredRouting, peer: PeerId) -> bool {
        match routing {
            RequiredRouting::All => true,
            RequiredRouting::GridXY => self.peers_x.contains(peer) || self.peers_y.contains(peer),
            RequiredRouting::GridX => self.peers_x.contains(peer),
            RequiredRouting::GridY => self.peers_y.contains(peer),
            RequiredRouting::Nobody => false,
            RequiredRouting::PendingTopology => false,
        }
    }
}

impl GridNeighbors {
    /// Where the messages of a validator have to go.
    pub fn required_routing_by_index(&self, originator: ValidatorIndex, local: bool) -> (routing: RequiredRouting)
        ensures
            routing == self@.required_routing(originator, local),
    {
        if local {
            return RequiredRouting::GridXY;
        }
        let grid_x = has_validator(&self.validator_indices_x, originator);
        let grid_y = has_validator(&self.validator_indices_y, originator);
        if grid_x {
            if grid_y {
                RequiredRouting::GridXY
            } else {
                RequiredRouting::GridY
            }
        } else if grid_y {
            RequiredRouting::GridX
        } else {
            RequiredRouting::Nobody
        }
    }

    /// Whether messages that have to go somewhere have to go to a peer.
    pub fn route_to_peer(&self, routing: RequiredRouting, peer: PeerId) -> (routed: bool)
        ensures
            routed == self@.routes(routing, peer),
    {
        match routing {
            RequiredRouting::All => true,
            RequiredRouting::GridXY => has_peer(&self.peers_x, peer) || has_peer(&self.peers_y, peer),
            RequiredRouting::GridX => has_peer(&self.peers_x, peer),
            RequiredRouting::GridY => has_peer(&self.peers_y, peer),
            RequiredRouting::Nobody => false,
            RequiredRouting::PendingTopology => false,
        }
    }
}

/// The topology of a session from the point of view of the local validator.
#[derive(Debug)]
pub struct SessionTopology {
    /// The peers that act for a validator of the session.
    pub members: Vec<PeerId>,
    /// The neighbors of the local validator.
    pub local_grid_neighbors: GridNeighbors,
}

impl SessionTopology {
    /// Whether nobody is named twice.
    pub open spec fn wf(self) -> bool {
        self.members@.no_duplicates() && self.local_grid_neighbors.wf()
    }
}

/// What a [`SessionTopology`] says.
#[verifier::ext_equal]
pub ghost struct Outlook {
    pub members: Set<PeerId>,
    pub grid: Neighborhood,
}

impl View for SessionTopology {
    type V = Outlook;

    open spec fn view(&self) -> Outlook {
        Outlook { members: self.members@.to_set(), grid: self.local_grid_neighbors@ }
    }
}

impl Layout {
    /// The topology from the point of view of a validator; one without a place has no neighbors.
    pub open spec fn seen_by(self, validator: ValidatorIndex) -> Outlook {
        Outlook {
            members: self.members(),
            grid: if self.places_validator(validator) {
                self.neighborhood(self.place_of[validator.0 as int] as int)
            } else {
                Neighborhood::nobody()
            },
        }
    }

    /// The peers in the first places.
    spec fn members_upto(self, count: int) -> Set<PeerId> {
        Set::new(|peer: PeerId| exists|i: int| 0 <= i < count && #[trigger] self.places[i].peers.contains(peer))
    }
}

impl SessionGridTopology {
    /// The peers that act for a validator of the session.
    fn members(&self) -> (members: Vec<PeerId>)
        ensures
            members@.no_duplicates(),
            members@.to_set() == self@.members(),
    {
        let mut members: Vec<PeerId> = Vec::new();
        let ghost layout = self@;
        let mut i: usize = 0;
        assert(members@.to_set() =~= layout.members_upto(0));
        while i < self.canonical_shuffling.len()
            invariant
                i <= self.canonical_shuffling.len(),
                layout == self@,
                members@.no_duplicates(),
                members@.to_set() == layout.members_upto(i as int),
            decreases self.canonical_shuffling.len() - i,
        {
            let info = &self.canonical_shuffling[i];
            add_all(&mut members, &info.peer_ids);
            proof {
                assert(layout.places[i as int] == info@);
                assert forall|peer: PeerId| #[trigger]
                    layout.members_upto(i + 1).contains(peer) <==> layout.members_upto(i as int).contains(peer)
                        || info.peer_ids@.contains(peer) by {
                    if layout.members_upto(i as int).contains(peer) {
                        let k = choose|k: int| 0 <= k < i && #[trigger] layout.places[k].peers.contains(peer);
                        assert(layout.places[k].peers.contains(peer));
                    }
                    if info.peer_ids@.contains(peer) {
                        assert(layout.places[i as int].peers.contains(peer));
                    }
                }
                assert(members@.to_set() =~= layout.members_upto(i + 1));
            }
            i += 1;
        }
        assert(layout.members_upto(layout.places.len() as int) =~= layout.members());
        members
    }

    /// The topology from the point of view of a validator.
    pub fn seen_by(&self, validator: ValidatorIndex) -> (seen: SessionTopology)
        ensures
            seen.wf(),
            seen@ == self@.seen_by(validator),
    {
        let local_grid_neighbors = match self.compute_grid_neighbors_for(validator) {
            Some(neighbors) => neighbors,
            None => GridNeighbors::empty(),
        };
        SessionTopology { members: self.members(), local_grid_neighbors }
    }
}

impl SessionTopology {
    /// Whether a peer acts for a validator of the session.
    pub fn is_validator(&self, peer: PeerId) -> (member: bool)
        ensures
            member == self@.members.contains(peer),
    {
        has_peer(&self.members, peer)
    }
}

/// Messages of a validator in the row go to the whole column and to nobody in the row alone, and the
/// other way round; the node's own messages go to the row and the column.
pub proof fn messages_cross_dimensions(grid: Neighborhood, originator: ValidatorIndex, peer: PeerId)
    ensures
        grid.validators_x.contains(originator) && !grid.validators_y.contains(originator) ==> (grid.routes(
            grid.required_routing(originator, false),
            peer,
        ) <==> grid.peers_y.contains(peer)),
        grid.validators_y.contains(originator) && !grid.validators_x.contains(originator) ==> (grid.routes(
            grid.required_routing(originator, false),
            peer,
        ) <==> grid.peers_x.contains(peer)),
        grid.routes(grid.required_routing(originator, true), peer) <==> grid.peers_x.contains(peer)
            || grid.peers_y.contains(peer),
{
}

/// Neighborhood is mutual: a place is in the row (or the column) of another exactly when that one is
/// in its own, and a place that shares both the row and the column is the same place.
pub proof fn neighbors_are_mutual(layout: Layout, a: int, b: int)
    requires
        0 <= a < layout.places.len(),
        0 <= b < layout.places.len(),
    ensures
        layout.in_row(a, b) <==> layout.in_row(b, a),
        layout.in_column(a, b) <==> layout.in_column(b, a),
        !(layout.in_row(a, b) && layout.in_column(a, b)),
{
    let len = layout.places.len();
    let side = side_of(len);
    lemma_side_exists(len);
    if side == 0 {
        assert((0nat + 1) * (0nat + 1) == 1) by (nonlinear_arith);
    }
    if layout.in_row(a, b) && layout.in_column(a, b) {
        vstd::arithmetic::div_mod::lemma_fundamental_div_mod(a, side as int);
        vstd::arithmetic::div_mod::lemma_fundamental_div_mod(b, side as int);
    }
}

/// Every number has a square root, rounded down.
pub proof fn lemma_side_exists(len: nat)
    ensures
        is_side(len, side_of(len)),
    decreases len,
{
    if len == 0 {
        assert(is_side(0, 0)) by (nonlinear_arith);
    } else {
        lemma_side_exists((len - 1) as nat);
        let s = side_of((len - 1) as nat);
        if (s + 1) * (s + 1) <= len {
            assert((s + 1) * (s + 1) < (s + 1 + 1) * (s + 1 + 1)) by (nonlinear_arith);
            assert(is_side(len, s + 1));
        } else {
            assert(is_side(len, s));
        }
    }
}

} // verus!
