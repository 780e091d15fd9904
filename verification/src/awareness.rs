//! Which peers come to know which blocks, said of hashes, parents and numbers.
use crate::block::Block;
use crate::chain::{among, BlockApprovalMeta};
use crate::dict;
use crate::history::announced_blocks_become_known;
use crate::lists;
use crate::peers::{blocks_without, unaware, Tour};
use crate::primitives::{BlockHash, BlockNumber, PeerId, ValidationVersion};
use crate::state::{Acquaintance, Horizon, Node};
use crate::stories::{lemma_selected, lemma_tours_make_the_peer_aware};
use vstd::prelude::*;

verus! {

/// A peer that connects is noted with its version and with a view of nothing, and one that is connected already
/// stays as it is.
pub proof fn connections_are_noted(node: Node, peer: PeerId, version: ValidationVersion, i: int)
    ensures
        ({
            let next = node.peer_connected(peer, version);
            &&& next == (Node { peers: next.peers, ..node })
            &&& 0 <= i < node.peers.len() && node.peers[i].0 == peer ==> next.peers == node.peers
            &&& (forall|p: int| 0 <= p < node.peers.len() ==> (#[trigger] node.peers[p]).0 != peer) ==> {
                &&& next.peers.len() == node.peers.len() + 1
                &&& next.peers.drop_last() == node.peers
                &&& next.peers.last().0 == peer
                &&& next.peers.last().1.version == version
                &&& next.peers.last().1.view.heads.len() == 0
                &&& next.peers.last().1.view.finalized_number == 0
            }
        }),
{
    let next = node.peer_connected(peer, version);
    if !node.has_peer(peer) {
        assert(next.peers.drop_last() =~= node.peers);
    }
}

/// When a peer disconnects, nothing changes for the others: they stay connected, aware of the same blocks, and with
/// the same messages.
pub proof fn disconnecting_concerns_one_peer(node: Node, peer: PeerId, other: PeerId, i: int)
    requires
        other != peer,
        dict::keys_unique(node.peers),
        0 <= i < node.blocks.len(),
        dict::keys_unique(node.blocks[i].1.known_by),
    ensures
        ({
            let next = node.peer_disconnected(peer);
            let was = node.blocks[i].1;
            let now = next.blocks[i].1;
            &&& next == (Node { peers: next.peers, blocks: next.blocks, ..node })
            &&& next.has_peer(other) <==> node.has_peer(other)
            &&& node.has_peer(other) ==> next.peer(other) == node.peer(other)
            &&& next.blocks.len() == node.blocks.len()
            &&& next.blocks[i].0 == node.blocks[i].0
            &&& now == (Block { known_by: now.known_by, ..was })
            &&& now.aware(other) <==> was.aware(other)
            &&& was.aware(other) ==> now.memory(other) == was.memory(other)
        }),
{
    let next = node.peer_disconnected(peer);
    if node.has_peer(peer) {
        lemma_removed(node.peers, peer, other);
    }
    if node.blocks[i].1.aware(peer) {
        lemma_removed(node.blocks[i].1.known_by, peer, other);
    }
}

proof fn lemma_removed<V>(list: Seq<(PeerId, V)>, peer: PeerId, other: PeerId)
    requires
        dict::keys_unique(list),
        dict::has_key(list, peer),
        other != peer,
    ensures
        ({
            let next = list.remove(dict::index_of_key(list, peer));
            &&& dict::keys_unique(next)
            &&& dict::has_key(next, other) <==> dict::has_key(list, other)
            &&& dict::has_key(list, other) ==> next[dict::index_of_key(next, other)]
                == list[dict::index_of_key(list, other)]
        }),
{
    let i = dict::index_of_key(list, peer);
    let next = list.remove(i);
    dict::lemma_dict_remove(list, i);
    assert(dict::dict(next).contains_key(other) <==> dict::dict(list).contains_key(other));
    if dict::has_key(list, other) {
        let a = dict::index_of_key(list, other);
        let b = dict::index_of_key(next, other);
        assert(list[a].0 == other && next[b].0 == other);
        assert(dict::dict(next)[other] == dict::dict(list)[other]);
        assert(list[a].1 == next[b].1);
    }
}

/// Whether a block is the same but that a peer may have become aware of it, and may have been chosen at random for
/// some of its messages.
pub open spec fn acquainted(was: Block, now: Block, peer: PeerId) -> bool {
    &&& now == (Block { known_by: now.known_by, entries: now.entries, ..was })
    &&& was.known_by.len() <= now.known_by.len()
    &&& forall|p: int| 0 <= p < was.known_by.len() ==> #[trigger] now.known_by[p] == was.known_by[p]
    &&& forall|p: int| was.known_by.len() <= p < now.known_by.len() ==> (#[trigger] now.known_by[p]).0 == peer
    &&& was.aware(peer) ==> now == was
    &&& now.entries.len() == was.entries.len()
    &&& forall|k: int|
        0 <= k < was.entries.len() ==> {
            &&& (#[trigger] now.entries[k]).assignment == was.entries[k].assignment
            &&& now.entries[k].approvals == was.entries[k].approvals
            &&& now.entries[k].routing == was.entries[k].routing
            &&& now.entries[k].local == was.entries[k].local
        }
}

proof fn lemma_acquainted_transitive(a: Block, b: Block, c: Block, peer: PeerId)
    requires
        acquainted(a, b, peer),
        acquainted(b, c, peer),
    ensures
        acquainted(a, c, peer),
{
    assert forall|p: int| 0 <= p < a.known_by.len() implies #[trigger] c.known_by[p] == a.known_by[p] by {
        assert(b.known_by[p] == a.known_by[p]);
    }
    assert forall|p: int| a.known_by.len() <= p < c.known_by.len() implies (#[trigger] c.known_by[p]).0 == peer by {
        if p < b.known_by.len() {
            assert(c.known_by[p] == b.known_by[p]);
        }
    }
    assert forall|k: int| 0 <= k < a.entries.len() implies {
        &&& (#[trigger] c.entries[k]).assignment == a.entries[k].assignment
        &&& c.entries[k].approvals == a.entries[k].approvals
        &&& c.entries[k].routing == a.entries[k].routing
        &&& c.entries[k].local == a.entries[k].local
    } by {
        assert(b.entries[k].assignment == a.entries[k].assignment);
    }
    if a.aware(peer) {
        assert(b == a);
    }
}

/// Whether all blocks of a list are the same in that sense.
pub open spec fn all_acquainted(was: Seq<(BlockHash, Block)>, now: Seq<(BlockHash, Block)>, peer: PeerId) -> bool {
    &&& now.len() == was.len()
    &&& forall|i: int|
        0 <= i < was.len() ==> (#[trigger] now[i]).0 == was[i].0 && acquainted(was[i].1, now[i].1, peer)
}

proof fn lemma_all_acquainted_transitive(
    a: Seq<(BlockHash, Block)>,
    b: Seq<(BlockHash, Block)>,
    c: Seq<(BlockHash, Block)>,
    peer: PeerId,
)
    requires
        all_acquainted(a, b, peer),
        all_acquainted(b, c, peer),
    ensures
        all_acquainted(a, c, peer),
{
    assert forall|i: int| 0 <= i < a.len() implies (#[trigger] c[i]).0 == a[i].0 && acquainted(
        a[i].1,
        c[i].1,
        peer,
    ) by {
        assert(b[i].0 == a[i].0);
        lemma_acquainted_transitive(a[i].1, b[i].1, c[i].1, peer);
    }
}

proof fn lemma_all_acquainted_same(blocks: Seq<(BlockHash, Block)>, peer: PeerId)
    ensures
        all_acquainted(blocks, blocks, peer),
{
}

proof fn lemma_greeting(tour: Tour, peer: PeerId, hash: BlockHash)
    requires
        tour.node.has_block(hash),
        !tour.node.block(hash).aware(peer),
    ensures
        ({
            let next = tour.greeted(peer, hash).node;
            let f = dict::index_of_key(tour.node.blocks, hash);
            &&& all_acquainted(tour.node.blocks, next.blocks, peer)
            &&& next.blocks[f].1.aware(peer)
            &&& forall|i: int|
                0 <= i < tour.node.blocks.len() && i != f ==> #[trigger] next.blocks[i] == tour.node.blocks[i]
            &&& next == (Node { blocks: next.blocks, luck: next.luck, ..tour.node })
        }),
{
    let block = tour.node.block(hash);
    let f = dict::index_of_key(tour.node.blocks, hash);
    assert(tour.node.blocks[f].0 == hash);
    let topology = tour.node.topology_of(block.session);
    lemma_selected(block.entries, peer, topology, tour.node.peers.len(), tour.node.luck);
    let next = tour.greeted(peer, hash).node;
    let now = next.blocks[f].1;
    assert(now.known_by.last().0 == peer);
    assert(now.known_by[now.known_by.len() - 1].0 == peer);
    assert(acquainted(block, now, peer));
    assert forall|i: int| 0 <= i < tour.node.blocks.len() implies (#[trigger] next.blocks[i]).0
        == tour.node.blocks[i].0 && acquainted(tour.node.blocks[i].1, next.blocks[i].1, peer) by {
        if i != f {
            assert(next.blocks[i] == tour.node.blocks[i]);
        }
    }
}

/// Whether a list of positions leads from a block down to another one, each block the parent of the one before, and
/// all of them above a number.
pub open spec fn leads_down(
    blocks: Seq<(BlockHash, Block)>,
    path: Seq<int>,
    from: BlockHash,
    to: int,
    finalized_number: BlockNumber,
) -> bool {
    &&& path.len() > 0
    &&& forall|j: int|
        0 <= j < path.len() ==> 0 <= #[trigger] path[j] < blocks.len() && blocks[path[j]].1.number > finalized_number
    &&& blocks[path[0]].0 == from
    &&& path.last() == to
    &&& forall|j: int|
        0 < j < path.len() ==> blocks[#[trigger] path[j]].0 == blocks[path[j - 1]].1.parent_hash
}

proof fn lemma_path_elsewhere(
    a: Seq<(BlockHash, Block)>,
    b: Seq<(BlockHash, Block)>,
    peer: PeerId,
    path: Seq<int>,
    from: BlockHash,
    to: int,
    finalized_number: BlockNumber,
)
    requires
        all_acquainted(a, b, peer),
        leads_down(b, path, from, to, finalized_number),
    ensures
        leads_down(a, path, from, to, finalized_number),
{
    assert forall|j: int| 0 <= j < path.len() implies 0 <= #[trigger] path[j] < a.len() && a[path[j]].1.number
        > finalized_number by {
        assert(b[path[j]].0 == a[path[j]].0);
    }
    assert(b[path[0]].0 == a[path[0]].0);
    assert forall|j: int| 0 < j < path.len() implies a[#[trigger] path[j]].0 == a[path[j - 1]].1.parent_hash by {
        assert(b[path[j]].0 == a[path[j]].0);
        assert(b[path[j - 1]].0 == a[path[j - 1]].0);
    }
}

proof fn lemma_walk(tour: Tour, peer: PeerId, finalized_number: BlockNumber, from: BlockHash, i: int) -> (path: Seq<int>)
    requires
        0 <= i < tour.node.blocks.len(),
    ensures
        ({
            let end = tour.walked(peer, finalized_number, from).node;
            &&& all_acquainted(tour.node.blocks, end.blocks, peer)
            &&& end == (Node { blocks: end.blocks, luck: end.luck, ..tour.node })
            &&& !tour.node.blocks[i].1.aware(peer) && end.blocks[i].1.aware(peer) ==> leads_down(
                tour.node.blocks,
                path,
                from,
                i,
                finalized_number,
            )
        }),
    decreases unaware(tour.node.blocks, peer),
{
    if tour.ends_at(peer, finalized_number, from) {
        lemma_all_acquainted_same(tour.node.blocks, peer);
        Seq::empty()
    } else {
        tour.lemma_greeted(peer, finalized_number, from);
        lemma_greeting(tour, peer, from);
        let next = tour.greeted(peer, from);
        let blocks = tour.node.blocks;
        let f = dict::index_of_key(blocks, from);
        assert(blocks[f].0 == from);
        let parent = tour.node.block(from).parent_hash;
        let rest = lemma_walk(next, peer, finalized_number, parent, i);
        let end = tour.walked(peer, finalized_number, from).node;
        lemma_all_acquainted_transitive(blocks, next.node.blocks, end.blocks, peer);
        if i == f {
            let path = seq![f];
            assert(leads_down(blocks, path, from, i, finalized_number));
            path
        } else if !blocks[i].1.aware(peer) && end.blocks[i].1.aware(peer) {
            assert(next.node.blocks[i] == blocks[i]);
            lemma_path_elsewhere(blocks, next.node.blocks, peer, rest, parent, i, finalized_number);
            let path = seq![f] + rest;
            assert(path.last() == i);
            assert forall|j: int| 0 <= j < path.len() implies 0 <= #[trigger] path[j] < blocks.len()
                && blocks[path[j]].1.number > finalized_number by {
                if j > 0 {
                    assert(path[j] == rest[j - 1]);
                }
            }
            assert forall|j: int| 0 < j < path.len() implies blocks[#[trigger] path[j]].0
                == blocks[path[j - 1]].1.parent_hash by {
                assert(path[j] == rest[j - 1]);
                if j > 1 {
                    assert(path[j - 1] == rest[j - 2]);
                }
            }
            path
        } else {
            Seq::empty()
        }
    }
}

/// Whether a block is reached from one of several heads by going from blocks to their parents, all of them above a
/// number.
pub open spec fn is_below(
    blocks: Seq<(BlockHash, Block)>,
    heads: Seq<BlockHash>,
    finalized_number: BlockNumber,
    i: int,
) -> bool {
    exists|h: int, path: Seq<int>|
        0 <= h < heads.len() && #[trigger] leads_down(blocks, path, heads[h], i, finalized_number)
}

proof fn lemma_tour(tour: Tour, peer: PeerId, finalized_number: BlockNumber, heads: Seq<BlockHash>, i: int)
    requires
        0 <= i < tour.node.blocks.len(),
    ensures
        ({
            let end = tour.toured(peer, finalized_number, heads).node;
            &&& all_acquainted(tour.node.blocks, end.blocks, peer)
            &&& end == (Node { blocks: end.blocks, luck: end.luck, ..tour.node })
            &&& !tour.node.blocks[i].1.aware(peer) && end.blocks[i].1.aware(peer) ==> is_below(
                tour.node.blocks,
                heads,
                finalized_number,
                i,
            )
        }),
    decreases heads.len(),
{
    let blocks = tour.node.blocks;
    if heads.len() == 0 {
        lemma_all_acquainted_same(blocks, peer);
    } else {
        let short = heads.drop_last();
        lemma_tour(tour, peer, finalized_number, short, i);
        let rest = tour.toured(peer, finalized_number, short);
        let path = lemma_walk(rest, peer, finalized_number, heads.last(), i);
        let end = tour.toured(peer, finalized_number, heads).node;
        lemma_all_acquainted_transitive(blocks, rest.node.blocks, end.blocks, peer);
        if !blocks[i].1.aware(peer) && end.blocks[i].1.aware(peer) {
            if rest.node.blocks[i].1.aware(peer) {
                let (h, way) = choose|h: int, way: Seq<int>|
                    0 <= h < short.len() && #[trigger] leads_down(blocks, way, short[h], i, finalized_number);
                assert(heads[h] == short[h]);
                assert(leads_down(blocks, way, heads[h], i, finalized_number));
            } else {
                lemma_path_elsewhere(blocks, rest.node.blocks, peer, path, heads.last(), i, finalized_number);
                let h = heads.len() - 1;
                assert(leads_down(blocks, path, heads[h], i, finalized_number));
            }
        }
    }
}

/// Catching up with a view changes nothing about a block but that the peer may become aware of it and be chosen for
/// some of its messages, and it becomes aware only of heads of the view and the chains below them, as far as they
/// are above the number that is final for it.
pub proof fn peers_become_aware_of_nothing_else(node: Node, peer: PeerId, view: Horizon, i: int)
    requires
        0 <= i < node.blocks.len(),
    ensures
        ({
            let next = node.unified(peer, view);
            &&& all_acquainted(node.blocks, next.blocks, peer)
            &&& next == (Node { blocks: next.blocks, luck: next.luck, out: next.out, ..node })
            &&& !node.blocks[i].1.aware(peer) && next.blocks[i].1.aware(peer) ==> is_below(
                node.blocks,
                view.heads,
                view.finalized_number,
                i,
            )
        }),
{
    let tour = Tour { node, assignments: Seq::empty(), votes: Seq::empty() };
    lemma_tour(tour, peer, view.finalized_number, view.heads, i);
}

/// A peer's new view is noted; its version and the other peers stay as they are.
pub proof fn views_are_noted(node: Node, peer: PeerId, view: Horizon, p: int)
    requires
        dict::keys_unique(node.peers),
        0 <= p < node.peers.len(),
    ensures
        ({
            let next = node.peer_view_changed(peer, view);
            &&& next.peers.len() == node.peers.len()
            &&& node.peers[p].0 == peer ==> next.peers[p] == (
                peer,
                Acquaintance { view, version: node.peers[p].1.version },
            )
            &&& node.peers[p].0 != peer ==> next.peers[p] == node.peers[p]
        }),
{
    if node.peers[p].0 == peer {
        dict::lemma_dict_at(node.peers, p);
        assert(node.has_peer(peer));
    }
    if node.has_peer(peer) {
        let q = dict::index_of_key(node.peers, peer);
        assert(node.peers[q].0 == peer);
        let was = node.peer(peer);
        let seen = Node {
            peers: node.peers.update(q, (peer, Acquaintance { view, ..was })),
            blocks: blocks_without(node.blocks, peer, was.view.finalized_number, view.finalized_number),
            ..node
        };
        seen.lemma_unified_frame(peer, view);
    }
}

/// A change of a peer's view changes nothing for the others, and the peer itself stays aware of a block, with what
/// it has, unless the number that is final for it moves up to that of the block.
pub proof fn views_concern_one_peer(node: Node, peer: PeerId, view: Horizon, i: int, other: PeerId)
    requires
        dict::keys_unique(node.peers),
        node.has_peer(peer),
        0 <= i < node.blocks.len(),
        dict::keys_unique(node.blocks[i].1.known_by),
    ensures
        ({
            let next = node.peer_view_changed(peer, view);
            let was = node.blocks[i].1;
            let now = next.blocks[i].1;
            let final_before = node.peer(peer).view.finalized_number;
            &&& next.blocks.len() == node.blocks.len()
            &&& next.blocks[i].0 == node.blocks[i].0
            &&& now == (Block { known_by: now.known_by, entries: now.entries, ..was })
            &&& other != peer ==> (now.aware(other) <==> was.aware(other))
            &&& other != peer && was.aware(other) ==> now.memory(other) == was.memory(other)
            &&& was.aware(peer) && (was.number < final_before || was.number > view.finalized_number) ==> now == was
            &&& !was.aware(peer) && now.aware(peer) ==> is_below(node.blocks, view.heads, view.finalized_number, i)
        }),
{
    let q = dict::index_of_key(node.peers, peer);
    let was = node.peer(peer);
    let seen = Node {
        peers: node.peers.update(q, (peer, Acquaintance { view, ..was })),
        blocks: blocks_without(node.blocks, peer, was.view.finalized_number, view.finalized_number),
        ..node
    };
    peers_become_aware_of_nothing_else(seen, peer, view, i);
    let next = node.peer_view_changed(peer, view);
    let before = node.blocks[i].1;
    let middle = seen.blocks[i].1;
    let now = next.blocks[i].1;
    assert(next.blocks[i].0 == seen.blocks[i].0 && acquainted(middle, now, peer));
    if other != peer && before.aware(peer) {
        lemma_removed(before.known_by, peer, other);
    }
    if other != peer {
        lemma_others_acquainted(middle, now, peer, other);
    }
    if !before.aware(peer) && now.aware(peer) {
        assert(middle == before);
        let (h, path) = choose|h: int, path: Seq<int>|
            0 <= h < view.heads.len() && #[trigger] leads_down(
                seen.blocks,
                path,
                view.heads[h],
                i,
                view.finalized_number,
            );
        assert forall|j: int| 0 <= j < path.len() implies 0 <= #[trigger] path[j] < node.blocks.len()
            && node.blocks[path[j]].1.number > view.finalized_number by {
            assert(seen.blocks[path[j]].1.number == node.blocks[path[j]].1.number);
        }
        assert forall|j: int| 0 < j < path.len() implies node.blocks[#[trigger] path[j]].0
            == node.blocks[path[j - 1]].1.parent_hash by {
            assert(seen.blocks[path[j]].0 == node.blocks[path[j]].0);
            assert(seen.blocks[path[j - 1]].1.parent_hash == node.blocks[path[j - 1]].1.parent_hash);
        }
        assert(leads_down(node.blocks, path, view.heads[h], i, view.finalized_number));
    }
}

proof fn lemma_others_acquainted(was: Block, now: Block, peer: PeerId, other: PeerId)
    requires
        acquainted(was, now, peer),
        dict::keys_unique(was.known_by),
        other != peer,
    ensures
        now.aware(other) <==> was.aware(other),
        was.aware(other) ==> now.memory(other) == was.memory(other),
{
    if was.aware(other) {
        let p = dict::index_of_key(was.known_by, other);
        assert(was.known_by[p].0 == other);
        assert(now.known_by[p].0 == other);
        let q = dict::index_of_key(now.known_by, other);
        assert(now.known_by[q].0 == other);
        if q < was.known_by.len() {
            assert(now.known_by[q] == was.known_by[q]);
            dict::lemma_dict_at(was.known_by, q);
        }
    }
    if now.aware(other) {
        let q = dict::index_of_key(now.known_by, other);
        assert(now.known_by[q].0 == other);
        if q < was.known_by.len() {
            assert(now.known_by[q] == was.known_by[q]);
        }
    }
}

/// Whether a block is the same but that peers may have become aware of it, and may have been chosen at random for
/// some of its messages.
pub open spec fn lasting(was: Block, now: Block) -> bool {
    &&& now == (Block { known_by: now.known_by, entries: now.entries, ..was })
    &&& was.known_by.len() <= now.known_by.len()
    &&& forall|p: int| 0 <= p < was.known_by.len() ==> #[trigger] now.known_by[p] == was.known_by[p]
    &&& now.entries.len() == was.entries.len()
    &&& forall|k: int|
        0 <= k < was.entries.len() ==> {
            &&& (#[trigger] now.entries[k]).assignment == was.entries[k].assignment
            &&& now.entries[k].approvals == was.entries[k].approvals
            &&& now.entries[k].routing == was.entries[k].routing
            &&& now.entries[k].local == was.entries[k].local
        }
}

proof fn lemma_lasting_transitive(a: Block, b: Block, c: Block)
    requires
        lasting(a, b),
        lasting(b, c),
    ensures
        lasting(a, c),
{
    assert forall|p: int| 0 <= p < a.known_by.len() implies #[trigger] c.known_by[p] == a.known_by[p] by {
        assert(b.known_by[p] == a.known_by[p]);
    }
    assert forall|k: int| 0 <= k < a.entries.len() implies {
        &&& (#[trigger] c.entries[k]).assignment == a.entries[k].assignment
        &&& c.entries[k].approvals == a.entries[k].approvals
        &&& c.entries[k].routing == a.entries[k].routing
        &&& c.entries[k].local == a.entries[k].local
    } by {
        assert(b.entries[k].assignment == a.entries[k].assignment);
    }
}

proof fn lemma_lasting_aware(was: Block, now: Block, peer: PeerId)
    requires
        lasting(was, now),
        was.aware(peer),
    ensures
        now.aware(peer),
{
    let p = dict::index_of_key(was.known_by, peer);
    assert(was.known_by[p].0 == peer);
    assert(now.known_by[p].0 == peer);
}

/// The peers whose view holds a block that has just become known, and only they, become aware of it and of the chain
/// below it; the blocks themselves stay the same.
proof fn lemma_introductions(
    node: Node,
    hashes: Seq<BlockHash>,
    peers: Seq<(PeerId, Acquaintance)>,
    i: int,
    peer: PeerId,
)
    requires
        0 <= i < node.blocks.len(),
    ensures
        ({
            let next = node.introduced(hashes, peers);
            &&& next == (Node { blocks: next.blocks, luck: next.luck, out: next.out, ..node })
            &&& next.blocks.len() == node.blocks.len()
            &&& next.blocks[i].0 == node.blocks[i].0
            &&& lasting(node.blocks[i].1, next.blocks[i].1)
            &&& !node.blocks[i].1.aware(peer) && next.blocks[i].1.aware(peer) ==> exists|p: int|
                {
                    &&& 0 <= p < peers.len()
                    &&& (#[trigger] peers[p]).0 == peer
                    &&& is_below(
                        node.blocks,
                        peers[p].1.view.heads.filter(among(hashes)),
                        peers[p].1.view.finalized_number,
                        i,
                    )
                }
        }),
    decreases peers.len(),
{
    if peers.len() > 0 {
        let short = peers.drop_last();
        let last = peers.len() - 1;
        let (other, known) = peers.last();
        lemma_introductions(node, hashes, short, i, peer);
        let rest = node.introduced(hashes, short);
        let view = Horizon { heads: known.view.heads.filter(among(hashes)), ..known.view };
        peers_become_aware_of_nothing_else(rest, other, view, i);
        let next = node.introduced(hashes, peers);
        assert(next.blocks[i].0 == rest.blocks[i].0 && acquainted(rest.blocks[i].1, next.blocks[i].1, other));
        lemma_lasting_transitive(node.blocks[i].1, rest.blocks[i].1, next.blocks[i].1);
        if !node.blocks[i].1.aware(peer) && next.blocks[i].1.aware(peer) {
            if rest.blocks[i].1.aware(peer) {
                let p = choose|p: int|
                    {
                        &&& 0 <= p < short.len()
                        &&& (#[trigger] short[p]).0 == peer
                        &&& is_below(
                            node.blocks,
                            short[p].1.view.heads.filter(among(hashes)),
                            short[p].1.view.finalized_number,
                            i,
                        )
                    };
                assert(peers[p] == short[p]);
            } else {
                let q = dict::index_of_key(next.blocks[i].1.known_by, peer);
                assert(next.blocks[i].1.known_by[q].0 == peer);
                if q < rest.blocks[i].1.known_by.len() {
                    assert(next.blocks[i].1.known_by[q] == rest.blocks[i].1.known_by[q]);
                    assert(rest.blocks[i].1.known_by[q].0 == peer);
                    assert(rest.blocks[i].1.aware(peer));
                }
                assert(peer == other);
                let (h, path) = choose|h: int, path: Seq<int>|
                    0 <= h < view.heads.len() && #[trigger] leads_down(
                        rest.blocks,
                        path,
                        view.heads[h],
                        i,
                        view.finalized_number,
                    );
                lemma_path_before(node, hashes, short, path, view.heads[h], i, view.finalized_number);
                assert(is_below(node.blocks, view.heads, view.finalized_number, i));
                assert(peers[last].0 == peer);
            }
        }
    }
}

proof fn lemma_path_before(
    node: Node,
    hashes: Seq<BlockHash>,
    peers: Seq<(PeerId, Acquaintance)>,
    path: Seq<int>,
    from: BlockHash,
    to: int,
    finalized_number: BlockNumber,
)
    requires
        node.blocks.len() == node.introduced(hashes, peers).blocks.len(),
        leads_down(node.introduced(hashes, peers).blocks, path, from, to, finalized_number),
    ensures
        leads_down(node.blocks, path, from, to, finalized_number),
{
    let next = node.introduced(hashes, peers);
    assert forall|j: int| 0 <= j < path.len() implies 0 <= #[trigger] path[j] < node.blocks.len()
        && node.blocks[path[j]].0 == next.blocks[path[j]].0 && node.blocks[path[j]].1.number
        == next.blocks[path[j]].1.number && node.blocks[path[j]].1.parent_hash
        == next.blocks[path[j]].1.parent_hash by {
        lemma_introduced_shape(node, hashes, peers, path[j]);
    }
    assert forall|j: int| 0 < j < path.len() implies node.blocks[#[trigger] path[j]].0
        == node.blocks[path[j - 1]].1.parent_hash by {
        assert(node.blocks[path[j - 1]].1.parent_hash == next.blocks[path[j - 1]].1.parent_hash);
    }
}

proof fn lemma_introduced_shape(node: Node, hashes: Seq<BlockHash>, peers: Seq<(PeerId, Acquaintance)>, i: int)
    requires
        0 <= i < node.blocks.len(),
    ensures
        ({
            let next = node.introduced(hashes, peers);
            &&& next.blocks.len() == node.blocks.len()
            &&& next.blocks[i].0 == node.blocks[i].0
            &&& next.blocks[i].1.number == node.blocks[i].1.number
            &&& next.blocks[i].1.parent_hash == node.blocks[i].1.parent_hash
        }),
    decreases peers.len(),
{
    if peers.len() > 0 {
        let short = peers.drop_last();
        lemma_introduced_shape(node, hashes, short, i);
        let rest = node.introduced(hashes, short);
        let (other, known) = peers.last();
        let view = Horizon { heads: known.view.heads.filter(among(hashes)), ..known.view };
        peers_become_aware_of_nothing_else(rest, other, view, i);
        let next = node.introduced(hashes, peers);
        assert(next.blocks[i].0 == rest.blocks[i].0 && acquainted(rest.blocks[i].1, next.blocks[i].1, other));
    }
}

/// When blocks come, those that were known stay the same but that peers may become aware of them; a new one is as it
/// was announced; and a peer becomes aware of a block only if its view holds one that has just come, from which the
/// chain leads down to that block.
pub proof fn new_blocks_are_introduced(node: Node, metas: Seq<BlockApprovalMeta>, i: int, peer: PeerId)
    requires
        0 <= i < node.arrival(metas).node.blocks.len(),
    ensures
        ({
            let arrival = node.arrival(metas);
            let next = node.blocks_arrived(metas);
            let was = arrival.node.blocks[i];
            &&& next == (Node {
                blocks: next.blocks,
                pending: next.pending,
                luck: next.luck,
                tasks: next.tasks,
                out: next.out,
                ..node
            })
            &&& next.blocks.len() == arrival.node.blocks.len()
            &&& next.blocks[i].0 == was.0
            &&& lasting(was.1, next.blocks[i].1)
            &&& !was.1.aware(peer) && next.blocks[i].1.aware(peer) ==> exists|p: int|
                {
                    &&& 0 <= p < node.peers.len()
                    &&& (#[trigger] node.peers[p]).0 == peer
                    &&& is_below(
                        arrival.node.blocks,
                        node.peers[p].1.view.heads.filter(among(arrival.hashes)),
                        node.peers[p].1.view.finalized_number,
                        i,
                    )
                }
        }),
{
    let arrival = node.arrival(metas);
    announced_blocks_become_known(node, metas, i, 0);
    lemma_introductions(arrival.node, arrival.hashes, node.peers, i, peer);
}

/// Every peer whose view holds a block that has just become known is aware of it afterwards, if it is not final for
/// the peer.
pub proof fn peers_become_aware_of_new_blocks(node: Node, metas: Seq<BlockApprovalMeta>, i: int, p: int, h: int)
    requires
        dict::keys_unique(node.blocks),
        node.blocks.len() <= i < node.arrival(metas).node.blocks.len(),
        0 <= p < node.peers.len(),
        0 <= h < node.peers[p].1.view.heads.len(),
        node.peers[p].1.view.heads[h] == node.arrival(metas).node.blocks[i].0,
        node.arrival(metas).node.blocks[i].1.number > node.peers[p].1.view.finalized_number,
    ensures
        node.blocks_arrived(metas).blocks[i].1.aware(node.peers[p].0),
{
    let arrival = node.arrival(metas);
    announced_blocks_become_known(node, metas, i, 0);
    assert(arrival.hashes[i - node.blocks.len()] == node.peers[p].1.view.heads[h]);
    assert(arrival.hashes.contains(node.peers[p].1.view.heads[h]));
    lemma_introduced_aware(arrival.node, arrival.hashes, node.peers, i, p, h);
}

proof fn lemma_introduced_aware(
    node: Node,
    hashes: Seq<BlockHash>,
    peers: Seq<(PeerId, Acquaintance)>,
    i: int,
    p: int,
    h: int,
)
    requires
        dict::keys_unique(node.blocks),
        0 <= i < node.blocks.len(),
        0 <= p < peers.len(),
        0 <= h < peers[p].1.view.heads.len(),
        peers[p].1.view.heads[h] == node.blocks[i].0,
        hashes.contains(node.blocks[i].0),
        node.blocks[i].1.number > peers[p].1.view.finalized_number,
    ensures
        node.introduced(hashes, peers).blocks[i].1.aware(peers[p].0),
    decreases peers.len(),
{
    let short = peers.drop_last();
    let last = peers.len() - 1;
    let (other, known) = peers.last();
    let view = Horizon { heads: known.view.heads.filter(among(hashes)), ..known.view };
    let rest = node.introduced(hashes, short);
    lemma_introductions(node, hashes, short, i, other);
    if p < last {
        assert(short[p] == peers[p]);
        lemma_introduced_aware(node, hashes, short, i, p, h);
        peers_become_aware_of_nothing_else(rest, other, view, i);
        let next = node.introduced(hashes, peers);
        assert(next.blocks[i].0 == rest.blocks[i].0 && acquainted(rest.blocks[i].1, next.blocks[i].1, other));
        lemma_lasting_aware(rest.blocks[i].1, next.blocks[i].1, peers[p].0);
    } else {
        let hash = node.blocks[i].0;
        lists::lemma_filter_contains(known.view.heads, among(hashes), hash);
        assert(known.view.heads.contains(hash));
        let n = choose|n: int| 0 <= n < view.heads.len() && view.heads[n] == hash;
        assert(dict::keys_unique(rest.blocks)) by {
            assert forall|a: int, b: int| 0 <= a < b < rest.blocks.len() implies #[trigger] rest.blocks[a].0
                != #[trigger] rest.blocks[b].0 by {
                lemma_introduced_shape(node, hashes, short, a);
                lemma_introduced_shape(node, hashes, short, b);
                assert(node.blocks[a].0 != node.blocks[b].0);
            }
        }
        let tour = Tour { node: rest, assignments: Seq::empty(), votes: Seq::empty() };
        lemma_tours_make_the_peer_aware(tour, other, view.finalized_number, view.heads, n, i);
    }
}

} // verus!
