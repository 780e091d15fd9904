//! Where validators are in the grid, and what a new topology changes, said of places, rows and columns.
use crate::block::Entry;
use crate::dict;
use crate::lag::lemma_reformed_at;
use crate::primitives::{PeerId, SessionIndex, ValidatorIndex};
use crate::propagation::{Reform, Scope};
use crate::state::Node;
use crate::topology::{
    is_side, lemma_side_exists, lemma_side_unique, side_of, Layout, Neighborhood, RequiredRouting,
};
use vstd::prelude::*;

verus! {

/// The places of a layout form rows of a length whose square is the largest one that the places fill: two places are in
/// the same row if their numbers fall into the same run of that length, and in the same column if they are as far
/// into their runs.
pub proof fn places_form_rows_and_columns(
    layout: Layout,
    side: nat,
    row: nat,
    column: nat,
    other_row: nat,
    other_column: nat,
)
    requires
        side * side <= layout.places.len() < (side + 1) * (side + 1),
        column < side,
        other_column < side,
        row * side + column < layout.places.len(),
        other_row * side + other_column < layout.places.len(),
    ensures
        layout.in_row((row * side + column) as int, (other_row * side + other_column) as int) <==> row == other_row
            && column != other_column,
        layout.in_column((row * side + column) as int, (other_row * side + other_column) as int) <==> column
            == other_column && row != other_row,
{
    let len = layout.places.len();
    lemma_side_exists(len);
    assert(is_side(len, side));
    lemma_side_unique(len, side, side_of(len));
    lemma_place(side, row, column);
    lemma_place(side, other_row, other_column);
}

proof fn lemma_place(side: nat, row: nat, column: nat)
    requires
        column < side,
    ensures
        ((row * side + column) as int) / (side as int) == row,
        ((row * side + column) as int) % (side as int) == column,
        (row * side + column) as int >= 0,
{
    let s = side as int;
    let r = row as int;
    let c = column as int;
    assert(row * side == r * s);
    assert(r * s >= 0) by (nonlinear_arith)
        requires
            r >= 0,
            s >= 0,
    ;
    assert((r * s + c) / s == r) by (nonlinear_arith)
        requires
            0 <= c < s,
            r >= 0,
    ;
    assert((r * s + c) % s == c) by (nonlinear_arith)
        requires
            0 <= c < s,
            r >= 0,
    ;
}

/// Whether a layout has a place for a validator.
pub open spec fn has_a_place(layout: Layout, validator: ValidatorIndex) -> bool {
    &&& layout.place_of.len() == layout.places.len()
    &&& validator.0 < layout.place_of.len()
    &&& layout.place_of[validator.0 as int] < layout.places.len()
}

/// What a validator sees of a layout: all peers at any place as members, and as its neighbors the peers and the
/// validators at the places in the row and in the column of its own; without a place it has no neighbors.
pub proof fn validators_see_their_row_and_column(
    layout: Layout,
    validator: ValidatorIndex,
    peer: PeerId,
    other: ValidatorIndex,
)
    ensures
        ({
            let seen = layout.seen_by(validator);
            let at = layout.place_of[validator.0 as int] as int;
            &&& seen.members.contains(peer) <==> exists|i: int|
                0 <= i < layout.places.len() && #[trigger] layout.places[i].peers.contains(peer)
            &&& has_a_place(layout, validator) ==> {
                &&& seen.grid.peers_x.contains(peer) <==> exists|i: int| #[trigger]
                    layout.in_row(at, i) && layout.places[i].peers.contains(peer)
                &&& seen.grid.peers_y.contains(peer) <==> exists|i: int| #[trigger]
                    layout.in_column(at, i) && layout.places[i].peers.contains(peer)
                &&& seen.grid.validators_x.contains(other) <==> exists|i: int| #[trigger]
                    layout.in_row(at, i) && layout.places[i].validator == other
                &&& seen.grid.validators_y.contains(other) <==> exists|i: int| #[trigger]
                    layout.in_column(at, i) && layout.places[i].validator == other
            }
            &&& !has_a_place(layout, validator) ==> {
                &&& !seen.grid.peers_x.contains(peer)
                &&& !seen.grid.peers_y.contains(peer)
                &&& !seen.grid.validators_x.contains(other)
                &&& !seen.grid.validators_y.contains(other)
            }
        }),
{
    let seen = layout.seen_by(validator);
    let at = layout.place_of[validator.0 as int] as int;
    if has_a_place(layout, validator) {
        if exists|i: int| #[trigger] layout.in_row(at, i) && layout.places[i].peers.contains(peer) {
            let i = choose|i: int| #[trigger] layout.in_row(at, i) && layout.places[i].peers.contains(peer);
            assert(i < layout.places.len() && layout.in_row(at, i));
        }
        if exists|i: int| #[trigger] layout.in_column(at, i) && layout.places[i].peers.contains(peer) {
            let i = choose|i: int| #[trigger] layout.in_column(at, i) && layout.places[i].peers.contains(peer);
            assert(i < layout.places.len() && layout.in_column(at, i));
        }
        if exists|i: int| #[trigger] layout.in_row(at, i) && layout.places[i].validator == other {
            let i = choose|i: int| #[trigger] layout.in_row(at, i) && layout.places[i].validator == other;
            assert(i < layout.places.len() && layout.in_row(at, i));
        }
        if exists|i: int| #[trigger] layout.in_column(at, i) && layout.places[i].validator == other {
            let i = choose|i: int| #[trigger] layout.in_column(at, i) && layout.places[i].validator == other;
            assert(i < layout.places.len() && layout.in_column(at, i));
        }
    }
}

/// The routing of a message says who gets it: with both dimensions every neighbor, with one the neighbors in it, with
/// all everybody, and otherwise nobody.
pub proof fn routings_name_dimensions(grid: Neighborhood, peer: PeerId)
    ensures
        grid.routes(RequiredRouting::All, peer),
        grid.routes(RequiredRouting::GridXY, peer) <==> grid.peers_x.contains(peer) || grid.peers_y.contains(peer),
        grid.routes(RequiredRouting::GridX, peer) <==> grid.peers_x.contains(peer),
        grid.routes(RequiredRouting::GridY, peer) <==> grid.peers_y.contains(peer),
        !grid.routes(RequiredRouting::Nobody, peer),
        !grid.routes(RequiredRouting::PendingTopology, peer),
{
}

/// The routing that a message needs: the node's own both dimensions, one of a validator in the row the column, one of a
/// validator in the column the row, one of both both, and one of neither none.
pub proof fn routings_cross_over(grid: Neighborhood, validator: ValidatorIndex)
    ensures
        grid.required_routing(validator, true) is GridXY,
        grid.validators_x.contains(validator) && grid.validators_y.contains(validator) ==> grid.required_routing(
            validator,
            false,
        ) is GridXY,
        grid.validators_x.contains(validator) && !grid.validators_y.contains(validator) ==> grid.required_routing(
            validator,
            false,
        ) is GridY,
        !grid.validators_x.contains(validator) && grid.validators_y.contains(validator) ==> grid.required_routing(
            validator,
            false,
        ) is GridX,
        !grid.validators_x.contains(validator) && !grid.validators_y.contains(validator) ==> grid.required_routing(
            validator,
            false,
        ) is Nobody,
{
}

/// A topology is noted for its session, as the node's validator sees it, if none is yet; a second one for the same
/// session is not, and the topologies of other sessions stay as they are.  Without a validator of its own the node
/// does nothing.
pub proof fn first_topologies_count(
    node: Node,
    session: SessionIndex,
    layout: Layout,
    local: ValidatorIndex,
    i: int,
)
    ensures
        node.topology_learned(session, layout, None) == node,
        0 <= i < node.topologies.len() && node.topologies[i].0 == session ==> node.topology_learned(
            session,
            layout,
            Some(local),
        ).topologies == node.topologies,
        (forall|t: int| 0 <= t < node.topologies.len() ==> (#[trigger] node.topologies[t]).0 != session)
            ==> node.topology_learned(session, layout, Some(local)).topologies == node.topologies.push(
            (session, layout.seen_by(local)),
        ),
{
    let seen = lemma_seen(node, session, layout, local);
    let grid = seen.topologies[dict::index_of_key(seen.topologies, session)].1.grid;
    lemma_reformed_frame(seen, Scope::Session(session), Reform::Resolve(grid));
}

proof fn lemma_reformed_frame(node: Node, scope: Scope, reform: Reform)
    ensures
        ({
            let end = node.reformed(scope, reform);
            end == (Node { blocks: end.blocks, out: end.out, ..node })
        }),
{
    let changed = Node { blocks: node.blocks.map_values(reform.block_change(scope)), ..node };
    changed.lemma_propagated_at(scope);
}

proof fn lemma_seen(node: Node, session: SessionIndex, layout: Layout, local: ValidatorIndex) -> (seen: Node)
    ensures
        seen == if dict::has_key(node.topologies, session) {
            node
        } else {
            Node { topologies: node.topologies.push((session, layout.seen_by(local))), ..node }
        },
        dict::has_key(seen.topologies, session),
        !dict::has_key(node.topologies, session) ==> seen.topologies[dict::index_of_key(seen.topologies, session)].1
            == layout.seen_by(local),
{
    if dict::has_key(node.topologies, session) {
        node
    } else {
        let seen = Node { topologies: node.topologies.push((session, layout.seen_by(local))), ..node };
        let last = node.topologies.len() as int;
        assert(seen.topologies[last].0 == session);
        let at = dict::index_of_key(seen.topologies, session);
        assert(seen.topologies[at].0 == session);
        if at < last {
            assert(node.topologies[at].0 == session);
        }
        seen
    }
}

/// A new topology settles the routes of the messages about blocks of its session that waited for it, and changes no
/// others: those of other sessions, and those that had a route, keep it.
pub proof fn topologies_settle_routes(
    node: Node,
    session: SessionIndex,
    layout: Layout,
    local: ValidatorIndex,
    i: int,
    k: int,
)
    requires
        !dict::has_key(node.topologies, session),
        0 <= i < node.blocks.len(),
        0 <= k < node.blocks[i].1.entries.len(),
    ensures
        ({
            let next = node.topology_learned(session, layout, Some(local));
            let was = node.blocks[i].1.entries[k];
            let now = next.blocks[i].1.entries[k];
            let grid = layout.seen_by(local).grid;
            let validator = was.assignment.cert.validator;
            &&& node.blocks[i].1.session != session ==> next.blocks[i] == node.blocks[i]
            &&& now == (Entry { routing: now.routing, ..was })
            &&& !(was.routing is PendingTopology) ==> now == was
            &&& node.blocks[i].1.session == session && was.routing is PendingTopology ==> {
                &&& was.local ==> now.routing is GridXY
                &&& !was.local && grid.validators_x.contains(validator) && grid.validators_y.contains(validator)
                    ==> now.routing is GridXY
                &&& !was.local && grid.validators_x.contains(validator) && !grid.validators_y.contains(validator)
                    ==> now.routing is GridY
                &&& !was.local && !grid.validators_x.contains(validator) && grid.validators_y.contains(validator)
                    ==> now.routing is GridX
                &&& !was.local && !grid.validators_x.contains(validator) && !grid.validators_y.contains(validator)
                    ==> now.routing is Nobody
            }
        }),
{
    let seen = lemma_seen(node, session, layout, local);
    let grid = seen.topologies[dict::index_of_key(seen.topologies, session)].1.grid;
    lemma_reformed_at(seen, Scope::Session(session), Reform::Resolve(grid), i);
}

/// A second topology for a session settles the routes of what still waits by the first one.
pub proof fn second_topologies_settle_by_the_first(
    node: Node,
    session: SessionIndex,
    layout: Layout,
    local: ValidatorIndex,
    n: int,
    i: int,
    k: int,
)
    requires
        dict::keys_unique(node.topologies),
        0 <= n < node.topologies.len(),
        node.topologies[n].0 == session,
        0 <= i < node.blocks.len(),
        0 <= k < node.blocks[i].1.entries.len(),
    ensures
        ({
            let next = node.topology_learned(session, layout, Some(local));
            let was = node.blocks[i].1.entries[k];
            let now = next.blocks[i].1.entries[k];
            let grid = node.topologies[n].1.grid;
            let validator = was.assignment.cert.validator;
            &&& node.blocks[i].1.session != session ==> next.blocks[i] == node.blocks[i]
            &&& now == (Entry { routing: now.routing, ..was })
            &&& !(was.routing is PendingTopology) ==> now == was
            &&& node.blocks[i].1.session == session && was.routing is PendingTopology ==> {
                &&& was.local ==> now.routing is GridXY
                &&& !was.local && grid.validators_x.contains(validator) && grid.validators_y.contains(validator)
                    ==> now.routing is GridXY
                &&& !was.local && grid.validators_x.contains(validator) && !grid.validators_y.contains(validator)
                    ==> now.routing is GridY
                &&& !was.local && !grid.validators_x.contains(validator) && grid.validators_y.contains(validator)
                    ==> now.routing is GridX
                &&& !was.local && !grid.validators_x.contains(validator) && !grid.validators_y.contains(validator)
                    ==> now.routing is Nobody
            }
        }),
{
    dict::lemma_dict_at(node.topologies, n);
    let grid = node.topologies[n].1.grid;
    lemma_reformed_at(node, Scope::Session(session), Reform::Resolve(grid), i);
}

} // verus!
