//! Peers that come and go, and bringing them up to date.
use crate::batching::{send_approvals_batched, send_assignments_batched};
use crate::block::Block;
use crate::dict;
use crate::import::lemma_block_changed;
use crate::lists::copied;
use crate::messages::{Assignment, IndirectSignedApprovalVoteV2};
use crate::primitives::{BlockHash, BlockNumber, PeerId, ValidationVersion};
use crate::state::{find_topology, Acquaintance, ChainView, Horizon, Node, PeerEntry, State};
use vstd::prelude::*;

verus! {

/// The number of blocks that a peer is not aware of.
pub open spec fn unaware(blocks: Seq<(BlockHash, Block)>, peer: PeerId) -> nat
    decreases blocks.len(),
{
    if blocks.len() == 0 {
        0
    } else {
        unaware(blocks.drop_last(), peer) + if blocks.last().1.aware(peer) {
            0nat
        } else {
            1nat
        }
    }
}

/// A block that a peer becomes aware of is one less that it is not aware of.
proof fn lemma_unaware_update(blocks: Seq<(BlockHash, Block)>, peer: PeerId, i: int, block: (BlockHash, Block))
    requires
        0 <= i < blocks.len(),
        !blocks[i].1.aware(peer),
        block.1.aware(peer),
    ensures
        unaware(blocks.update(i, block), peer) + 1 == unaware(blocks, peer),
    decreases blocks.len(),
{
    let other = blocks.update(i, block);
    if i == blocks.len() - 1 {
        assert(other.drop_last() =~= blocks.drop_last());
    } else {
        lemma_unaware_update(blocks.drop_last(), peer, i, block);
        assert(other.drop_last() =~= blocks.drop_last().update(i, block));
    }
}

/// The messages that are collected for a peer on a walk along the chain.
#[verifier::ext_equal]
pub ghost struct Tour {
    pub node: Node,
    pub assignments: Seq<Assignment>,
    pub votes: Seq<IndirectSignedApprovalVoteV2>,
}

impl Tour {
    /// With the messages about a block that the peer has become aware of.
    pub open spec fn greeted(self, peer: PeerId, hash: BlockHash) -> Tour {
        let block = self.node.block(hash);
        let greeting = block.greeted(
            peer,
            self.node.topology_of(block.session),
            self.node.peers.len(),
            self.node.luck,
        );
        Tour {
            node: Node { luck: greeting.luck, ..self.node.with_block(hash, greeting.block) },
            assignments: self.assignments + greeting.assignments,
            votes: self.votes + greeting.votes,
        }
    }

    /// Whether the walk ends before a block: it is not known, final for the peer, or one that the
    /// peer is aware of.
    pub open spec fn ends_at(self, peer: PeerId, finalized_number: BlockNumber, hash: BlockHash) -> bool {
        ||| !self.node.has_block(hash)
        ||| self.node.block(hash).number <= finalized_number
        ||| self.node.block(hash).aware(peer)
    }

    /// Every step of a walk leaves one block less to greet the peer at.
    pub proof fn lemma_greeted(self, peer: PeerId, finalized_number: BlockNumber, hash: BlockHash)
        requires
            !self.ends_at(peer, finalized_number, hash),
        ensures
            unaware(self.greeted(peer, hash).node.blocks, peer) + 1 == unaware(self.node.blocks, peer),
    {
        let i = dict::index_of_key(self.node.blocks, hash);
        let known_by = self.greeted(peer, hash).node.blocks[i].1.known_by;
        assert(known_by[known_by.len() - 1].0 == peer);
        lemma_unaware_update(self.node.blocks, peer, i, self.greeted(peer, hash).node.blocks[i]);
    }

    /// After walking from a block to its ancestors.
    pub open spec fn walked(self, peer: PeerId, finalized_number: BlockNumber, from: BlockHash) -> Tour
        decreases unaware(self.node.blocks, peer),
    {
        if self.ends_at(peer, finalized_number, from) {
            self
        } else {
            proof {
                self.lemma_greeted(peer, finalized_number, from);
            }
            self.greeted(peer, from).walked(peer, finalized_number, self.node.block(from).parent_hash)
        }
    }

    /// After walking from each of some heads.
    pub open spec fn toured(self, peer: PeerId, finalized_number: BlockNumber, heads: Seq<BlockHash>) -> Tour
        decreases heads.len(),
    {
        if heads.len() == 0 {
            self
        } else {
            self.toured(peer, finalized_number, heads.drop_last()).walked(peer, finalized_number, heads.last())
        }
    }
}

/// Whether two lists of blocks are about the same blocks, in the same order.
pub open spec fn same_hashes(a: Seq<(BlockHash, Block)>, b: Seq<(BlockHash, Block)>) -> bool {
    &&& a.len() == b.len()
    &&& forall|i: int| 0 <= i < a.len() ==> #[trigger] a[i].0 == #[trigger] b[i].0
}

impl Tour {
    /// A walk changes nothing but the blocks and the draws.
    pub proof fn lemma_walked_frame(self, peer: PeerId, finalized_number: BlockNumber, from: BlockHash)
        ensures
            ({
                let end = self.walked(peer, finalized_number, from).node;
                &&& end == (Node { blocks: end.blocks, luck: end.luck, ..self.node })
                &&& same_hashes(self.node.blocks, end.blocks)
            }),
        decreases unaware(self.node.blocks, peer),
    {
        if !self.ends_at(peer, finalized_number, from) {
            self.lemma_greeted(peer, finalized_number, from);
            let next = self.greeted(peer, from);
            next.lemma_walked_frame(peer, finalized_number, self.node.block(from).parent_hash);
            let i = dict::index_of_key(self.node.blocks, from);
            assert(self.node.blocks[i].0 == from);
            assert(same_hashes(self.node.blocks, next.node.blocks));
            let end = self.walked(peer, finalized_number, from).node;
            assert forall|k: int| 0 <= k < self.node.blocks.len() implies #[trigger] self.node.blocks[k].0
                == #[trigger] end.blocks[k].0 by {
                assert(self.node.blocks[k].0 == next.node.blocks[k].0);
            }
        }
    }

    /// Walks change nothing but the blocks and the draws.
    pub proof fn lemma_toured_frame(self, peer: PeerId, finalized_number: BlockNumber, heads: Seq<BlockHash>)
        ensures
            ({
                let end = self.toured(peer, finalized_number, heads).node;
                &&& end == (Node { blocks: end.blocks, luck: end.luck, ..self.node })
                &&& same_hashes(self.node.blocks, end.blocks)
            }),
        decreases heads.len(),
    {
        if heads.len() > 0 {
            self.lemma_toured_frame(peer, finalized_number, heads.drop_last());
            let middle = self.toured(peer, finalized_number, heads.drop_last());
            middle.lemma_walked_frame(peer, finalized_number, heads.last());
            let end = self.toured(peer, finalized_number, heads).node;
            assert forall|k: int| 0 <= k < self.node.blocks.len() implies #[trigger] self.node.blocks[k].0
                == #[trigger] end.blocks[k].0 by {
                assert(self.node.blocks[k].0 == middle.node.blocks[k].0);
            }
        }
    }
}

impl Node {
    /// Bringing a peer up to date changes nothing but the blocks and the draws, and sends messages.
    pub proof fn lemma_unified_frame(self, peer: PeerId, view: Horizon)
        ensures
            ({
                let end = self.unified(peer, view);
                &&& end == (Node { blocks: end.blocks, luck: end.luck, out: end.out, ..self })
                &&& same_hashes(self.blocks, end.blocks)
            }),
    {
        Tour { node: self, assignments: Seq::empty(), votes: Seq::empty() }.lemma_toured_frame(
            peer,
            view.finalized_number,
            view.heads,
        );
    }
}

/// The blocks after a peer has lost sight of those within a range of numbers.
pub open spec fn blocks_without(
    blocks: Seq<(BlockHash, Block)>,
    peer: PeerId,
    from: BlockNumber,
    upto: BlockNumber,
) -> Seq<(BlockHash, Block)> {
    blocks.map_values(
        |block: (BlockHash, Block)|
            if from <= block.1.number <= upto {
                (block.0, block.1.without(peer))
            } else {
                block
            },
    )
}

impl Node {
    /// After a peer has been brought up to date on the chains behind some heads: it becomes aware of
    /// all their blocks that are not final for it, and gets the messages about them, assignments
    /// before votes.
    pub open spec fn unified(self, peer: PeerId, view: Horizon) -> Node {
        let tour = Tour { node: self, assignments: Seq::empty(), votes: Seq::empty() }.toured(
            peer,
            view.finalized_number,
            view.heads,
        );
        tour.node.assignments_sent(tour.assignments, seq![peer]).approvals_sent(tour.votes, seq![peer])
    }

    /// After a peer has connected.
    pub open spec fn peer_connected(self, peer: PeerId, version: ValidationVersion) -> Node {
        if self.has_peer(peer) {
            self
        } else {
            Node {
                peers: self.peers.push(
                    (peer, Acquaintance { view: Horizon { heads: Seq::empty(), finalized_number: 0 }, version }),
                ),
                ..self
            }
        }
    }

    /// After a peer has disconnected.
    pub open spec fn peer_disconnected(self, peer: PeerId) -> Node {
        Node {
            peers: if self.has_peer(peer) {
                self.peers.remove(dict::index_of_key(self.peers, peer))
            } else {
                self.peers
            },
            blocks: blocks_without(self.blocks, peer, 0, BlockNumber::MAX),
            ..self
        }
    }

    /// After a connected peer has changed its view: it loses sight of the blocks that have become
    /// final for it, and is brought up to date on the others.
    pub open spec fn peer_view_changed(self, peer: PeerId, view: Horizon) -> Node {
        if self.has_peer(peer) {
            let was = self.peer(peer);
            Node {
                peers: self.peers.update(
                    dict::index_of_key(self.peers, peer),
                    (peer, Acquaintance { view, ..was }),
                ),
                blocks: blocks_without(self.blocks, peer, was.view.finalized_number, view.finalized_number),
                ..self
            }.unified(peer, view)
        } else {
            self
        }
    }
}

/// The tour that a state and two lists of messages make up.
pub open spec fn tour_of(state: State, assignments: Vec<Assignment>, votes: Vec<IndirectSignedApprovalVoteV2>) -> Tour {
    Tour { node: state@, assignments: assignments@, votes: votes@ }
}

impl State {
    /// Walks from a block to its ancestors, and collects the messages that a peer is to get.
    fn walk(
        &mut self,
        peer: PeerId,
        finalized_number: BlockNumber,
        from: BlockHash,
        assignments: &mut Vec<Assignment>,
        votes: &mut Vec<IndirectSignedApprovalVoteV2>,
    )
        requires
            old(self).parts_wf(),
        ensures
            final(self).parts_wf(),
            tour_of(*final(self), *final(assignments), *final(votes)) == tour_of(
                *old(self),
                *old(assignments),
                *old(votes),
            ).walked(peer, finalized_number, from),
    {
        let ghost goal = tour_of(*self, *assignments, *votes).walked(peer, finalized_number, from);
        let n_peers_total = self.peer_views.len();
        let mut current = from;
        loop
            invariant
                self.parts_wf(),
                n_peers_total == self.peer_views@.len(),
                goal == tour_of(*self, *assignments, *votes).walked(peer, finalized_number, current),
            ensures
                self.parts_wf(),
                goal == tour_of(*self, *assignments, *votes),
            decreases unaware(self@.blocks, peer),
        {
            let ghost before = tour_of(*self, *assignments, *votes);
            let position = match self.block_position(current) {
                Some(i) => i,
                None => {
                    break;
                },
            };
            if self.blocks[position].1.number <= finalized_number {
                break;
            }
            if self.blocks[position].1.peer_position(peer).is_some() {
                break;
            }
            let ghost blocks = self.blocks@;
            let topology = find_topology(&self.topologies, self.blocks[position].1.session);
            self.blocks[position].1.greet(peer, topology, n_peers_total, &mut self.draws, assignments, votes);
            proof {
                lemma_block_changed(blocks, self.blocks@, position as int);
                before.lemma_greeted(peer, finalized_number, current);
                assert(tour_of(*self, *assignments, *votes) =~= before.greeted(peer, current));
            }
            current = self.blocks[position].1.parent_hash;
        }
    }

    /// Brings a peer up to date on the chains behind the heads of a view.
    pub(crate) fn unify_with_peer(&mut self, peer: PeerId, view: &ChainView)
        requires
            old(self).parts_wf(),
        ensures
            final(self).parts_wf(),
            final(self)@ == old(self)@.unified(peer, view@),
    {
        let ghost heads = view.heads@;
        let mut assignments: Vec<Assignment> = Vec::new();
        let mut votes: Vec<IndirectSignedApprovalVoteV2> = Vec::new();
        let ghost start = tour_of(*self, assignments, votes);
        proof {
            assert(start =~= (Tour { node: self@, assignments: Seq::empty(), votes: Seq::empty() }));
            assert(heads.take(0) =~= Seq::empty());
        }
        let mut k: usize = 0;
        while k < view.heads.len()
            invariant
                k <= view.heads.len(),
                self.parts_wf(),
                heads == view.heads@,
                tour_of(*self, assignments, votes) == start.toured(
                    peer,
                    view.finalized_number,
                    heads.take(k as int),
                ),
            decreases view.heads.len() - k,
        {
            proof {
                assert(heads.take(k + 1).drop_last() =~= heads.take(k as int));
                assert(heads.take(k + 1).last() == heads[k as int]);
            }
            self.walk(peer, view.finalized_number, view.heads[k], &mut assignments, &mut votes);
            k += 1;
        }
        assert(heads.take(k as int) =~= heads);
        let mut receivers: Vec<PeerId> = Vec::new();
        receivers.push(peer);
        assert(receivers@ =~= seq![peer]);
        let versions = self.peer_versions(&receivers);
        send_assignments_batched(&mut self.outbox, &assignments, &versions);
        send_approvals_batched(&mut self.outbox, &votes, &versions);
    }

    /// Notes that a peer has lost sight of the blocks within a range of numbers.
    fn lose_sight(&mut self, peer: PeerId, from: BlockNumber, upto: BlockNumber)
        requires
            old(self).parts_wf(),
        ensures
            final(self).parts_wf(),
            final(self)@ == (Node {
                blocks: blocks_without(old(self)@.blocks, peer, from, upto),
                ..old(self)@
            }),
    {
        let ghost start = self@;
        let ghost goal = blocks_without(start.blocks, peer, from, upto);
        let mut i: usize = 0;
        assert(goal.take(0) + start.blocks.skip(0) =~= start.blocks);
        while i < self.blocks.len()
            invariant
                i <= self.blocks.len(),
                self.parts_wf(),
                goal == blocks_without(start.blocks, peer, from, upto),
                start.blocks.len() == self.blocks@.len(),
                goal.len() == self.blocks@.len(),
                self@ == (Node { blocks: goal.take(i as int) + start.blocks.skip(i as int), ..start }),
            decreases self.blocks.len() - i,
        {
            let ghost blocks = self.blocks@;
            let ghost before = self@.blocks;
            let ghost next = goal.take(i + 1) + start.blocks.skip(i + 1);
            assert(before[i as int] == start.blocks[i as int]);
            assert(before[i as int] == (blocks[i as int].0, blocks[i as int].1@));
            let number = self.blocks[i].1.number;
            if from <= number && number <= upto {
                self.blocks[i].1.forget_peer(peer);
                proof {
                    lemma_block_changed(blocks, self.blocks@, i as int);
                    assert(self@.blocks =~= before.update(i as int, goal[i as int]));
                    assert(self@.blocks =~= next);
                }
            } else {
                assert(self@.blocks =~= next);
            }
            i += 1;
        }
        assert(self@.blocks =~= goal);
    }

    /// Notes that a peer has connected.
    pub fn connect_peer(&mut self, peer: PeerId, version: ValidationVersion)
        requires
            old(self).parts_wf(),
        ensures
            final(self).parts_wf(),
            final(self)@ == old(self)@.peer_connected(peer, version),
    {
        let ghost start = self@;
        if self.peer_position(peer).is_none() {
            let entry = PeerEntry { view: ChainView::with_finalized(0), version };
            let ghost value = entry@;
            self.peer_views.push((peer, entry));
            proof {
                dict::lemma_dict_push(start.peers, peer, value);
                assert(self@.peers =~= start.peers.push((peer, value)));
            }
        }
    }

    /// Notes that a peer has disconnected.
    pub fn disconnect_peer(&mut self, peer: PeerId)
        requires
            old(self).parts_wf(),
        ensures
            final(self).parts_wf(),
            final(self)@ == old(self)@.peer_disconnected(peer),
    {
        let ghost start = self@;
        if let Some(i) = self.peer_position(peer) {
            self.peer_views.remove(i);
            proof {
                dict::lemma_dict_remove(start.peers, i as int);
                assert(self@.peers =~= start.peers.remove(i as int));
            }
        }
        self.lose_sight(peer, 0, BlockNumber::MAX);
    }

    /// Notes that a peer has changed its view, and brings it up to date.
    pub fn change_peer_view(&mut self, peer: PeerId, view: ChainView)
        requires
            old(self).parts_wf(),
        ensures
            final(self).parts_wf(),
            final(self)@ == old(self)@.peer_view_changed(peer, view@),
    {
        let ghost start = self@;
        let position = match self.peer_position(peer) {
            Some(i) => i,
            None => {
                return;
            },
        };
        let was = self.peer_views[position].1.view.finalized_number;
        let upto = view.finalized_number;
        let kept = ChainView { heads: copied(&view.heads), finalized_number: upto };
        self.peer_views[position].1.view = kept;
        proof {
            let value = Acquaintance { view: view@, ..start.peer(peer) };
            assert(self.peer_views@[position as int].1@ == value);
            assert(self@.peers =~= start.peers.update(position as int, (peer, value)));
            dict::lemma_dict_update(start.peers, position as int, value);
        }
        self.lose_sight(peer, was, upto);
        self.unify_with_peer(peer, &view);
    }
}

} // verus!
