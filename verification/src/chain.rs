//! Blocks that come in and become final, and the messages that wait for them.
use crate::block::{Block, BlockEntry};
use crate::dict;
use crate::knowledge::Known;
use crate::lists;
use crate::primitives::{BlockHash, BlockNumber, PeerId, SessionIndex};
use crate::state::{
    blocks_in, pending_in, Acquaintance, ChainView, Horizon, Node, PendingMessage, State, Task,
};
use vstd::prelude::*;

verus! {

/// The number of blocks that became final of which the node remembers the hashes.
pub const MAX_RECENT_OUTDATED: usize = 20;

/// What approval voting says of a new block.
#[derive(Clone, Copy, Debug, PartialEq, Eq)]
pub struct BlockApprovalMeta {
    pub hash: BlockHash,
    pub parent_hash: BlockHash,
    pub number: BlockNumber,
    /// The number of candidates that the block includes.
    pub candidates: usize,
    pub session: SessionIndex,
}

/// New blocks on their way into the node.
#[verifier::ext_equal]
pub ghost struct Arrival {
    pub node: Node,
    /// The hashes of those blocks that the node did not have.
    pub hashes: Seq<BlockHash>,
}

/// Whether a hash is in a list.
pub open spec fn among(hashes: Seq<BlockHash>) -> spec_fn(BlockHash) -> bool {
    |hash: BlockHash| hashes.contains(hash)
}

/// The tasks of importing some messages.
pub open spec fn imports(messages: Seq<(PeerId, PendingMessage)>) -> Seq<Task> {
    messages.map_values(|message: (PeerId, PendingMessage)| Task::Import(message.0, message.1))
}

/// The tasks of importing the messages about those heads that are known by now.
pub open spec fn released(
    pending: Seq<(BlockHash, Seq<(PeerId, PendingMessage)>)>,
    blocks: Seq<(BlockHash, Block)>,
) -> Seq<Task>
    decreases pending.len(),
{
    if pending.len() == 0 {
        Seq::empty()
    } else {
        let rest = released(pending.drop_last(), blocks);
        if dict::has_key(blocks, pending.last().0) {
            rest + imports(pending.last().1)
        } else {
            rest
        }
    }
}

/// Whether a head is still missing among some blocks.
pub open spec fn missing_from(blocks: Seq<(BlockHash, Block)>) -> spec_fn(
    (BlockHash, Seq<(PeerId, PendingMessage)>),
) -> bool {
    |head: (BlockHash, Seq<(PeerId, PendingMessage)>)| !dict::has_key(blocks, head.0)
}

/// Whether a head is in a view.
pub open spec fn viewed(heads: Seq<BlockHash>) -> spec_fn((BlockHash, Seq<(PeerId, PendingMessage)>)) -> bool {
    |head: (BlockHash, Seq<(PeerId, PendingMessage)>)| heads.contains(head.0)
}

/// Whether a block is above the number up to which the chain is final.
pub open spec fn above(finalized_number: BlockNumber) -> spec_fn((BlockHash, Block)) -> bool {
    |block: (BlockHash, Block)| block.1.number > finalized_number
}

/// The hashes of the blocks that became final last, after another one did.
pub open spec fn with_outdated(outdated: Seq<BlockHash>, hash: BlockHash) -> Seq<BlockHash> {
    if outdated.len() >= MAX_RECENT_OUTDATED {
        outdated.push(hash).drop_first()
    } else {
        outdated.push(hash)
    }
}

/// The hashes of the blocks that became final last, after those of some blocks did that are not above
/// a number.
pub open spec fn outdated_after(
    outdated: Seq<BlockHash>,
    blocks: Seq<(BlockHash, Block)>,
    finalized_number: BlockNumber,
) -> Seq<BlockHash>
    decreases blocks.len(),
{
    if blocks.len() == 0 {
        outdated
    } else {
        let rest = outdated_after(outdated, blocks.drop_last(), finalized_number);
        if above(finalized_number)(blocks.last()) {
            rest
        } else {
            with_outdated(rest, blocks.last().0)
        }
    }
}

impl Node {
    /// After a block has come in, if it is new.
    pub open spec fn with_new_block(self, meta: BlockApprovalMeta) -> Node {
        Node {
            blocks: self.blocks.push(
                (
                    meta.hash,
                    Block {
                        parent_hash: meta.parent_hash,
                        number: meta.number,
                        session: meta.session,
                        candidates: meta.candidates as nat,
                        knowledge: Known::empty(),
                        known_by: Seq::empty(),
                        entries: Seq::empty(),
                    },
                ),
            ),
            ..self
        }
    }

    /// After some blocks have come in; those that the node has are left as they are.
    pub open spec fn arrival(self, metas: Seq<BlockApprovalMeta>) -> Arrival
        decreases metas.len(),
    {
        if metas.len() == 0 {
            Arrival { node: self, hashes: Seq::empty() }
        } else {
            let rest = self.arrival(metas.drop_last());
            let meta = metas.last();
            if rest.node.has_block(meta.hash) {
                rest
            } else {
                Arrival { node: rest.node.with_new_block(meta), hashes: rest.hashes.push(meta.hash) }
            }
        }
    }

    /// After each of some peers has been brought up to date on those of its heads that are new.
    pub open spec fn introduced(self, hashes: Seq<BlockHash>, peers: Seq<(PeerId, Acquaintance)>) -> Node
        decreases peers.len(),
    {
        if peers.len() == 0 {
            self
        } else {
            let (peer, known) = peers.last();
            self.introduced(hashes, peers.drop_last()).unified(
                peer,
                Horizon { heads: known.view.heads.filter(among(hashes)), ..known.view },
            )
        }
    }

    /// After the messages about heads that are known by now have been put on the list of tasks.
    pub open spec fn pending_released(self) -> Node {
        Node {
            pending: self.pending.filter(missing_from(self.blocks)),
            tasks: self.tasks + released(self.pending, self.blocks),
            ..self
        }
    }

    /// After new blocks: the peers that look at them get to know of it, the messages that waited for
    /// them are to be imported, and then finality is to be looked at.
    pub open spec fn blocks_arrived(self, metas: Seq<BlockApprovalMeta>) -> Node {
        let arrival = self.arrival(metas);
        let settled = arrival.node.introduced(arrival.hashes, self.peers).pending_released();
        Node { tasks: settled.tasks.push(Task::EnableAggression), ..settled }
    }

    /// After a head has come into the node's own view: messages about it are kept until it is known.
    pub open spec fn head_awaited(self, hash: BlockHash) -> Node {
        if self.has_block(hash) || dict::has_key(self.pending, hash) {
            self
        } else {
            Node { pending: self.pending.push((hash, Seq::empty())), ..self }
        }
    }

    /// After several heads have come into the node's own view.
    pub open spec fn heads_awaited(self, heads: Seq<BlockHash>) -> Node
        decreases heads.len(),
    {
        if heads.len() == 0 {
            self
        } else {
            self.heads_awaited(heads.drop_last()).head_awaited(heads.last())
        }
    }

    /// After the node's own view has changed: messages about heads that have left it are dropped.
    pub open spec fn our_view_changed(self, heads: Seq<BlockHash>) -> Node {
        let awaited = self.heads_awaited(heads);
        Node { pending: awaited.pending.filter(viewed(heads)), ..awaited }
    }

    /// After the chain has become final up to a number: the blocks up to there are dropped.
    pub open spec fn pruned(self, finalized_number: BlockNumber) -> Node {
        Node {
            blocks: self.blocks.filter(above(finalized_number)),
            outdated: outdated_after(self.outdated, self.blocks, finalized_number),
            ..self
        }
    }

    /// After the chain has become final up to a number.
    pub open spec fn block_finalized(self, finalized_number: BlockNumber) -> Node {
        self.pruned(finalized_number).aggression_enabled(false)
    }
}

/// Whether a hash is in a list.
fn has_hash(hashes: &Vec<BlockHash>, hash: BlockHash) -> (answer: bool)
    ensures
        answer == hashes@.contains(hash),
{
    let mut i: usize = 0;
    while i < hashes.len()
        invariant
            i <= hashes.len(),
            forall|j: int| 0 <= j < i ==> hashes@[j] != hash,
        decreases hashes.len() - i,
    {
        if hashes[i] == hash {
            return true;
        }
        i += 1;
    }
    false
}

/// The hashes of a list that are in another list too.
fn common_hashes(heads: &Vec<BlockHash>, hashes: &Vec<BlockHash>) -> (common: Vec<BlockHash>)
    ensures
        common@ == heads@.filter(among(hashes@)),
{
    let mut common: Vec<BlockHash> = Vec::new();
    let mut i: usize = 0;
    assert(heads@.take(0).filter(among(hashes@)) =~= Seq::empty()) by {
        reveal(Seq::filter);
    }
    while i < heads.len()
        invariant
            i <= heads.len(),
            common@ == heads@.take(i as int).filter(among(hashes@)),
        decreases heads.len() - i,
    {
        proof {
            lists::lemma_filter_step(heads@, i as int, among(hashes@));
        }
        if has_hash(hashes, heads[i]) {
            common.push(heads[i]);
        }
        i += 1;
    }
    assert(heads@.take(i as int) =~= heads@);
    common
}

impl State {
    /// Adds the blocks that the node does not have, and tells which those are.
    fn add_blocks(&mut self, metas: &Vec<BlockApprovalMeta>) -> (hashes: Vec<BlockHash>)
        requires
            old(self).parts_wf(),
        ensures
            final(self).parts_wf(),
            (Arrival { node: final(self)@, hashes: hashes@ }) == old(self)@.arrival(metas@),
            final(self)@.peers == old(self)@.peers,
    {
        let ghost start = self@;
        let mut hashes: Vec<BlockHash> = Vec::new();
        let mut i: usize = 0;
        assert(metas@.take(0) =~= Seq::empty());
        assert(hashes@ =~= Seq::empty());
        while i < metas.len()
            invariant
                i <= metas.len(),
                self.parts_wf(),
                self@.peers == start.peers,
                (Arrival { node: self@, hashes: hashes@ }) == start.arrival(metas@.take(i as int)),
            decreases metas.len() - i,
        {
            let meta = metas[i];
            let ghost before = self@;
            proof {
                assert(metas@.take(i + 1).drop_last() =~= metas@.take(i as int));
                assert(metas@.take(i + 1).last() == meta);
            }
            if self.block_position(meta.hash).is_none() {
                let block = BlockEntry::new(meta.parent_hash, meta.number, meta.session, meta.candidates);
                let ghost value = block@;
                self.blocks.push((meta.hash, block));
                proof {
                    dict::lemma_dict_push(before.blocks, meta.hash, value);
                    assert(self@.blocks =~= before.blocks.push((meta.hash, value)));
                    assert(self@ =~= before.with_new_block(meta));
                }
                hashes.push(meta.hash);
            }
            i += 1;
        }
        assert(metas@.take(i as int) =~= metas@);
        hashes
    }

    /// Brings every peer up to date on those of its heads that are new.
    fn introduce(&mut self, hashes: &Vec<BlockHash>)
        requires
            old(self).parts_wf(),
        ensures
            final(self).parts_wf(),
            final(self)@ == old(self)@.introduced(hashes@, old(self)@.peers),
    {
        let ghost start = self@;
        let ghost peers = start.peers;
        let mut i: usize = 0;
        assert(peers.take(0) =~= Seq::empty());
        while i < self.peer_views.len()
            invariant
                i <= self.peer_views.len(),
                self.parts_wf(),
                self@.peers == peers,
                peers.len() == self.peer_views@.len(),
                self@ == start.introduced(hashes@, peers.take(i as int)),
            decreases self.peer_views.len() - i,
        {
            let peer = self.peer_views[i].0;
            let ghost before = self@;
            let view = ChainView {
                heads: common_hashes(&self.peer_views[i].1.view.heads, hashes),
                finalized_number: self.peer_views[i].1.view.finalized_number,
            };
            proof {
                assert(peers[i as int] == (peer, self.peer_views@[i as int].1@));
                assert(peers.take(i + 1).drop_last() =~= peers.take(i as int));
                assert(peers.take(i + 1).last() == peers[i as int]);
                before.lemma_unified_frame(peer, view@);
            }
            self.unify_with_peer(peer, &view);
            proof {
                assert(self@.peers.len() == self.peer_views@.len());
            }
            i += 1;
        }
        assert(peers.take(i as int) =~= peers);
    }

    /// Puts the messages about heads that are known by now on the list of tasks.
    fn release_pending(&mut self)
        requires
            old(self).parts_wf(),
        ensures
            final(self).parts_wf(),
            final(self)@ == old(self)@.pending_released(),
    {
        let ghost start = self@;
        let ghost list = start.pending;
        let ghost keep = missing_from(start.blocks);
        let mut rest: Vec<(BlockHash, Vec<(PeerId, PendingMessage)>)> = Vec::new();
        std::mem::swap(&mut rest, &mut self.pending_known);
        let ghost mut k: int = 0;
        proof {
            assert(self@.pending =~= Seq::empty());
            assert(list.take(0).filter(keep) =~= Seq::empty()) by {
                reveal(Seq::filter);
            }
            assert(list.take(0) =~= Seq::empty());
            assert(list.skip(0) =~= list);
            assert(start.tasks + released(list.take(0), start.blocks) =~= start.tasks);
            dict::lemma_filter_keys(list, keep);
        }
        while rest.len() > 0
            invariant
                0 <= k <= list.len(),
                self.blocks_wf(),
                list == start.pending,
                keep == missing_from(start.blocks),
                pending_in(rest@) == list.skip(k),
                self@ == (Node {
                    pending: list.take(k).filter(keep),
                    tasks: start.tasks + released(list.take(k), start.blocks),
                    ..start
                }),
            decreases rest.len(),
        {
            let ghost queue = rest@;
            let ghost tasks = self.tasks@;
            let (hash, messages) = rest.remove(0);
            proof {
                assert(pending_in(queue)[0] == (hash, messages@));
                assert(list.skip(k).len() == queue.len());
                assert(list.skip(k)[0] == list[k]);
                assert(pending_in(rest@) =~= list.skip(k + 1)) by {
                    assert(pending_in(rest@) =~= pending_in(queue).drop_first());
                    assert(list.skip(k).drop_first() =~= list.skip(k + 1));
                }
                lists::lemma_filter_step(list, k, keep);
                assert(list.take(k + 1).drop_last() =~= list.take(k));
                assert(list.take(k + 1).last() == list[k]);
            }
            if self.block_position(hash).is_some() {
                let mut i: usize = 0;
                assert(tasks + imports(messages@).take(0) =~= tasks);
                let ghost before = self@;
                while i < messages.len()
                    invariant
                        i <= messages.len(),
                        self.blocks_wf(),
                        self@ == (Node { tasks: tasks + imports(messages@).take(i as int), ..before }),
                    decreases messages.len() - i,
                {
                    let (peer, message) = messages[i];
                    self.tasks.push(Task::Import(peer, message));
                    proof {
                        assert(imports(messages@)[i as int] == Task::Import(peer, message));
                        assert(self.tasks@ =~= tasks + imports(messages@).take(i + 1));
                    }
                    i += 1;
                }
                proof {
                    assert(imports(messages@).take(i as int) =~= imports(messages@));
                    assert(self@.tasks =~= start.tasks + released(list.take(k + 1), start.blocks));
                }
            } else {
                let ghost before = self@.pending;
                self.pending_known.push((hash, messages));
                assert(self@.pending =~= before.push((hash, messages@)));
            }
            proof {
                k = k + 1;
            }
        }
        proof {
            assert(list.take(k) =~= list);
        }
    }

    /// Takes in new blocks.
    pub fn take_in_blocks(&mut self, metas: &Vec<BlockApprovalMeta>)
        requires
            old(self).parts_wf(),
        ensures
            final(self).parts_wf(),
            final(self)@ == old(self)@.blocks_arrived(metas@),
    {
        let hashes = self.add_blocks(metas);
        self.introduce(&hashes);
        self.release_pending();
        self.tasks.push(Task::EnableAggression);
    }

    /// Notes a change of the node's own view.
    pub fn change_our_view(&mut self, view: &ChainView)
        requires
            old(self).parts_wf(),
        ensures
            final(self).parts_wf(),
            final(self)@ == old(self)@.our_view_changed(view@.heads),
    {
        let ghost start = self@;
        let ghost heads = view.heads@;
        let mut i: usize = 0;
        assert(heads.take(0) =~= Seq::empty());
        while i < view.heads.len()
            invariant
                i <= view.heads.len(),
                self.parts_wf(),
                heads == view.heads@,
                self@ == start.heads_awaited(heads.take(i as int)),
            decreases view.heads.len() - i,
        {
            let hash = view.heads[i];
            let ghost before = self@;
            proof {
                assert(heads.take(i + 1).drop_last() =~= heads.take(i as int));
                assert(heads.take(i + 1).last() == hash);
            }
            if self.block_position(hash).is_none() && self.pending_position(hash).is_none() {
                self.pending_known.push((hash, Vec::new()));
                proof {
                    dict::lemma_dict_push(before.pending, hash, Seq::empty());
                    assert(self@.pending[before.pending.len() as int].1 =~= Seq::empty());
                    assert(self@.pending =~= before.pending.push((hash, Seq::empty())));
                }
            }
            i += 1;
        }
        assert(heads.take(i as int) =~= heads);
        let ghost awaited = self@;
        let ghost list = awaited.pending;
        let ghost keep = viewed(heads);
        let mut rest: Vec<(BlockHash, Vec<(PeerId, PendingMessage)>)> = Vec::new();
        std::mem::swap(&mut rest, &mut self.pending_known);
        let ghost mut k: int = 0;
        proof {
            assert(self@.pending =~= Seq::empty());
            assert(list.take(0).filter(keep) =~= Seq::empty()) by {
                reveal(Seq::filter);
            }
            assert(list.skip(0) =~= list);
            dict::lemma_filter_keys(list, keep);
        }
        while rest.len() > 0
            invariant
                0 <= k <= list.len(),
                self.blocks_wf(),
                heads == view.heads@,
                list == awaited.pending,
                keep == viewed(heads),
                pending_in(rest@) == list.skip(k),
                self@ == (Node { pending: list.take(k).filter(keep), ..awaited }),
            decreases rest.len(),
        {
            let ghost queue = rest@;
            let (hash, messages) = rest.remove(0);
            proof {
                assert(pending_in(queue)[0] == (hash, messages@));
                assert(list.skip(k).len() == queue.len());
                assert(list.skip(k)[0] == list[k]);
                assert(pending_in(rest@) =~= list.skip(k + 1)) by {
                    assert(pending_in(rest@) =~= pending_in(queue).drop_first());
                    assert(list.skip(k).drop_first() =~= list.skip(k + 1));
                }
                lists::lemma_filter_step(list, k, keep);
            }
            if has_hash(&view.heads, hash) {
                let ghost before = self@.pending;
                self.pending_known.push((hash, messages));
                assert(self@.pending =~= before.push((hash, messages@)));
            }
            proof {
                k = k + 1;
            }
        }
        proof {
            assert(list.take(k) =~= list);
        }
    }

    /// Notes the hash of a block that has become final.
    fn note_outdated(&mut self, hash: BlockHash)
        ensures
            *final(self) == (State { recent_outdated_blocks: final(self).recent_outdated_blocks, ..*old(self) }),
            final(self)@ == (Node { outdated: with_outdated(old(self)@.outdated, hash), ..old(self)@ }),
    {
        self.recent_outdated_blocks.push(hash);
        if self.recent_outdated_blocks.len() > MAX_RECENT_OUTDATED {
            let ghost longer = self.recent_outdated_blocks@;
            self.recent_outdated_blocks.remove(0);
            assert(self.recent_outdated_blocks@ =~= longer.drop_first());
        }
    }

    /// Drops the blocks that have become final.
    fn prune(&mut self, finalized_number: BlockNumber)
        requires
            old(self).parts_wf(),
        ensures
            final(self).parts_wf(),
            final(self)@ == old(self)@.pruned(finalized_number),
    {
        let ghost start = self@;
        let ghost list = start.blocks;
        let ghost keep = above(finalized_number);
        let mut rest: Vec<(BlockHash, BlockEntry)> = Vec::new();
        std::mem::swap(&mut rest, &mut self.blocks);
        let ghost mut k: int = 0;
        proof {
            assert(self@.blocks =~= Seq::empty());
            assert(list.take(0).filter(keep) =~= Seq::empty()) by {
                reveal(Seq::filter);
            }
            assert(list.take(0) =~= Seq::empty());
            assert(list.skip(0) =~= list);
            dict::lemma_filter_keys(list, keep);
        }
        while rest.len() > 0
            invariant
                0 <= k <= list.len(),
                self.others_wf(),
                list == start.blocks,
                keep == above(finalized_number),
                blocks_in(rest@) == list.skip(k),
                forall|i: int| 0 <= i < rest@.len() ==> (#[trigger] rest@[i]).1.wf(),
                forall|i: int| 0 <= i < self.blocks@.len() ==> (#[trigger] self.blocks@[i]).1.wf(),
                self@ == (Node {
                    blocks: list.take(k).filter(keep),
                    outdated: outdated_after(start.outdated, list.take(k), finalized_number),
                    ..start
                }),
            decreases rest.len(),
        {
            let ghost queue = rest@;
            let (hash, block) = rest.remove(0);
            proof {
                assert(blocks_in(queue)[0] == (hash, block@));
                assert(list.skip(k).len() == queue.len());
                assert(list.skip(k)[0] == list[k]);
                assert(queue[0].1.wf());
                assert forall|i: int| 0 <= i < rest@.len() implies (#[trigger] rest@[i]).1.wf() by {
                    assert(rest@[i] == queue[i + 1]);
                }
                assert(blocks_in(rest@) =~= list.skip(k + 1)) by {
                    assert(blocks_in(rest@) =~= blocks_in(queue).drop_first());
                    assert(list.skip(k).drop_first() =~= list.skip(k + 1));
                }
                lists::lemma_filter_step(list, k, keep);
                assert(list.take(k + 1).drop_last() =~= list.take(k));
                assert(list.take(k + 1).last() == list[k]);
            }
            if block.number > finalized_number {
                let ghost before = self@.blocks;
                let ghost value = block@;
                self.blocks.push((hash, block));
                assert(self@.blocks =~= before.push((hash, value)));
            } else {
                self.note_outdated(hash);
            }
            proof {
                k = k + 1;
            }
        }
        proof {
            assert(list.take(k) =~= list);
        }
    }

    /// Drops the blocks that have become final, and looks at finality.
    pub fn finalize(&mut self, finalized_number: BlockNumber)
        requires
            old(self).parts_wf(),
        ensures
            final(self).parts_wf(),
            final(self)@ == old(self)@.block_finalized(finalized_number),
    {
        self.prune(finalized_number);
        self.enable_aggression(false);
    }
}

} // verus!
