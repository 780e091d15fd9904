//! How blocks come, are waited for, and become final, said of their hashes and numbers.
use crate::block::Block;
use crate::chain::{imports, missing_from, outdated_after, released, viewed, BlockApprovalMeta};
use crate::dict;
use crate::invariants::{lemma_arrival_sound, lemma_introduced_sound};
use crate::knowledge::Known;
use crate::lists;
use crate::primitives::{BlockHash, BlockNumber, PeerId};
use crate::state::{Node, PendingMessage, Task};
use crate::subsystem::Event;
use vstd::prelude::*;

verus! {

/// Whether a block is as it was announced, and nothing is known about it yet.
pub open spec fn is_announced(block: (BlockHash, Block), meta: BlockApprovalMeta) -> bool {
    &&& block.0 == meta.hash
    &&& block.1.parent_hash == meta.parent_hash
    &&& block.1.number == meta.number
    &&& block.1.session == meta.session
    &&& block.1.candidates == meta.candidates
    &&& block.1.knowledge == Known::empty()
    &&& block.1.known_by.len() == 0
    &&& block.1.entries.len() == 0
}

/// Blocks that are announced become known as they were announced; those that were known stay as they are, and of
/// two announcements of a block the first one counts.
pub proof fn announced_blocks_become_known(node: Node, metas: Seq<BlockApprovalMeta>, i: int, m: int)
    ensures
        ({
            let end = node.arrival(metas);
            let blocks = end.node.blocks;
            &&& end.node == (Node { blocks, ..node })
            &&& node.blocks.len() <= blocks.len()
            &&& blocks.take(node.blocks.len() as int) == node.blocks
            &&& node.blocks.len() <= i < blocks.len() ==> {
                &&& !dict::has_key(node.blocks, blocks[i].0)
                &&& end.hashes[i - node.blocks.len()] == blocks[i].0
                &&& exists|j: int|
                    {
                        &&& 0 <= j < metas.len()
                        &&& is_announced(blocks[i], #[trigger] metas[j])
                        &&& forall|l: int| 0 <= l < j ==> (#[trigger] metas[l]).hash != metas[j].hash
                    }
            }
            &&& end.hashes.len() == blocks.len() - node.blocks.len()
            &&& 0 <= m < metas.len() ==> dict::has_key(blocks, metas[m].hash)
            &&& dict::keys_unique(node.blocks) ==> dict::keys_unique(blocks)
        }),
    decreases metas.len(),
{
    if metas.len() == 0 {
        assert(node.blocks.take(node.blocks.len() as int) =~= node.blocks);
    } else {
        let short = metas.drop_last();
        let meta = metas.last();
        let rest = node.arrival(short);
        let end = node.arrival(metas);
        announced_blocks_become_known(node, short, i, m);
        if rest.node.has_block(meta.hash) {
            if node.blocks.len() <= i < end.node.blocks.len() {
                let j = choose|j: int|
                    {
                        &&& 0 <= j < short.len()
                        &&& is_announced(rest.node.blocks[i], #[trigger] short[j])
                        &&& forall|l: int| 0 <= l < j ==> (#[trigger] short[l]).hash != short[j].hash
                    };
                lemma_first_stays(metas, j);
            }
        } else {
            let blocks = end.node.blocks;
            let last = rest.node.blocks.len() as int;
            assert(blocks == rest.node.blocks.push(blocks[last]));
            assert(blocks.take(node.blocks.len() as int) =~= rest.node.blocks.take(node.blocks.len() as int));
            if dict::keys_unique(rest.node.blocks) {
                dict::lemma_dict_push(rest.node.blocks, blocks[last].0, blocks[last].1);
            }
            assert(dict::has_key(blocks, meta.hash)) by {
                assert(blocks[last].0 == meta.hash);
            }
            if 0 <= m < metas.len() - 1 {
                assert(short[m] == metas[m]);
                let b = dict::index_of_key(rest.node.blocks, metas[m].hash);
                assert(rest.node.blocks[b].0 == metas[m].hash);
                assert(blocks[b].0 == metas[m].hash);
            }
            if node.blocks.len() <= i < last {
                assert(blocks[i] == rest.node.blocks[i]);
                let j = choose|j: int|
                    {
                        &&& 0 <= j < short.len()
                        &&& is_announced(rest.node.blocks[i], #[trigger] short[j])
                        &&& forall|l: int| 0 <= l < j ==> (#[trigger] short[l]).hash != short[j].hash
                    };
                lemma_first_stays(metas, j);
            }
            if i == last {
                assert(!dict::has_key(node.blocks, meta.hash)) by {
                    if dict::has_key(node.blocks, meta.hash) {
                        let b = dict::index_of_key(node.blocks, meta.hash);
                        assert(node.blocks[b].0 == meta.hash);
                        assert(rest.node.blocks.take(node.blocks.len() as int)[b] == rest.node.blocks[b]);
                        assert(rest.node.blocks[b].0 == meta.hash);
                    }
                }
                let j = metas.len() - 1;
                assert(is_announced(blocks[i], metas[j]));
                assert forall|l: int| 0 <= l < j implies (#[trigger] metas[l]).hash != metas[j].hash by {
                    announced_blocks_become_known(node, short, i, l);
                    assert(short[l] == metas[l]);
                }
            }
        }
    }
}

proof fn lemma_first_stays(metas: Seq<BlockApprovalMeta>, j: int)
    requires
        0 <= j < metas.len() - 1,
        forall|l: int| 0 <= l < j ==> (#[trigger] metas.drop_last()[l]).hash != metas.drop_last()[j].hash,
    ensures
        metas.drop_last()[j] == metas[j],
        forall|l: int| 0 <= l < j ==> (#[trigger] metas[l]).hash != metas[j].hash,
{
    assert forall|l: int| 0 <= l < j implies (#[trigger] metas[l]).hash != metas[j].hash by {
        assert(metas.drop_last()[l] == metas[l]);
    }
}

/// After a change of the node's view it keeps messages for exactly those heads that it does not know; what was kept
/// for a head is still kept, and for a new one nothing yet.
pub proof fn messages_are_kept_for_unknown_heads(node: Node, heads: Seq<BlockHash>, hash: BlockHash, i: int)
    requires
        node.coherent(),
    ensures
        ({
            let next = node.our_view_changed(heads);
            let now = next.pending[dict::index_of_key(next.pending, hash)];
            &&& next == (Node { pending: next.pending, ..node })
            &&& dict::keys_unique(next.pending)
            &&& dict::has_key(next.pending, hash) <==> heads.contains(hash) && !dict::has_key(node.blocks, hash)
            &&& dict::has_key(next.pending, hash) && 0 <= i < node.pending.len() && node.pending[i].0 == hash
                ==> now == node.pending[i]
            &&& dict::has_key(next.pending, hash) && !dict::has_key(node.pending, hash) ==> now == (
                hash,
                Seq::<(PeerId, PendingMessage)>::empty(),
            )
        }),
{
    let awaited = node.heads_awaited(heads);
    let next = node.our_view_changed(heads);
    lemma_heads_awaited(node, heads, hash, i);
    let keep = viewed(heads);
    dict::lemma_filter_keys(awaited.pending, keep);
    if dict::has_key(next.pending, hash) {
        let n = dict::index_of_key(next.pending, hash);
        lists::lemma_filter_satisfies(awaited.pending, keep);
        assert(keep(next.pending[n]));
        assert(awaited.pending.contains(next.pending[n]));
        let a = choose|a: int| 0 <= a < awaited.pending.len() && awaited.pending[a] == next.pending[n];
        assert(awaited.pending[a].0 == hash);
        dict::lemma_dict_at(awaited.pending, a);
        if dict::has_key(node.pending, hash) {
            let p = dict::index_of_key(node.pending, hash);
            assert(!node.has_block(node.pending[p].0));
        }
    }
    if heads.contains(hash) && !dict::has_key(node.blocks, hash) {
        let a = dict::index_of_key(awaited.pending, hash);
        assert(keep(awaited.pending[a]));
        lists::lemma_filter_contains(awaited.pending, keep, awaited.pending[a]);
        let n = choose|n: int| 0 <= n < next.pending.len() && next.pending[n] == awaited.pending[a];
        assert(next.pending[n].0 == hash);
    }
}

proof fn lemma_heads_awaited(node: Node, heads: Seq<BlockHash>, hash: BlockHash, i: int)
    requires
        dict::keys_unique(node.pending),
    ensures
        ({
            let next = node.heads_awaited(heads);
            let now = next.pending[dict::index_of_key(next.pending, hash)];
            &&& next == (Node { pending: next.pending, ..node })
            &&& dict::keys_unique(next.pending)
            &&& dict::has_key(next.pending, hash) <==> dict::has_key(node.pending, hash) || (heads.contains(hash)
                && !dict::has_key(node.blocks, hash))
            &&& 0 <= i < node.pending.len() ==> i < next.pending.len() && next.pending[i] == node.pending[i]
            &&& dict::has_key(next.pending, hash) && !dict::has_key(node.pending, hash) ==> now == (
                hash,
                Seq::<(PeerId, PendingMessage)>::empty(),
            )
            &&& dict::has_key(next.pending, hash) && 0 <= i < node.pending.len() && node.pending[i].0 == hash
                ==> now == node.pending[i]
        }),
    decreases heads.len(),
{
    if heads.len() == 0 {
        if 0 <= i < node.pending.len() && node.pending[i].0 == hash {
            dict::lemma_dict_at(node.pending, i);
        }
    } else {
        let short = heads.drop_last();
        let head = heads.last();
        let rest = node.heads_awaited(short);
        let next = node.heads_awaited(heads);
        lemma_heads_awaited(node, short, hash, i);
        lemma_heads_awaited(node, short, head, i);
        assert(heads.contains(hash) <==> short.contains(hash) || hash == head) by {
            if heads.contains(hash) {
                let h = choose|h: int| 0 <= h < heads.len() && heads[h] == hash;
                if h < heads.len() - 1 {
                    assert(short[h] == hash);
                }
            }
            if short.contains(hash) {
                let h = choose|h: int| 0 <= h < short.len() && short[h] == hash;
                assert(heads[h] == hash);
            }
            assert(heads[heads.len() - 1] == head);
        }
        if !(rest.has_block(head) || dict::has_key(rest.pending, head)) {
            let empty = Seq::<(PeerId, PendingMessage)>::empty();
            dict::lemma_dict_push(rest.pending, head, empty);
            let last = rest.pending.len() as int;
            assert(next.pending == rest.pending.push((head, empty)));
            assert(next.pending[last].0 == head);
            dict::lemma_dict_at(next.pending, last);
            if dict::has_key(rest.pending, hash) {
                let r = dict::index_of_key(rest.pending, hash);
                assert(next.pending[r] == rest.pending[r]);
                dict::lemma_dict_at(next.pending, r);
                assert(next.pending[r].0 == hash);
            } else if dict::has_key(next.pending, hash) {
                let r = dict::index_of_key(next.pending, hash);
                if r < last {
                    assert(rest.pending[r].0 == hash);
                }
            }
        }
    }
}

/// When blocks come, the messages that were kept for them are no longer kept, and those for other heads stay as they
/// are; at last the lag is looked at.  Where only one head was waited for, and it has come, its messages are looked at
/// before that, in the order in which they came; where none has come, none are.
pub proof fn kept_messages_are_looked_at(node: Node, metas: Seq<BlockApprovalMeta>, hash: BlockHash, i: int)
    requires
        node.coherent(),
    ensures
        ({
            let next = node.blocks_arrived(metas);
            let known = dict::has_key(next.blocks, hash);
            &&& dict::has_key(next.pending, hash) <==> dict::has_key(node.pending, hash) && !known
            &&& 0 <= i < next.pending.len() ==> node.pending.contains(next.pending[i])
            &&& next.tasks.last() == Task::EnableAggression
            &&& next.tasks.len() > 0
            &&& node.pending.len() == 0 ==> next.tasks == node.tasks.push(Task::EnableAggression)
            &&& node.pending.len() == 1 && !known && node.pending[0].0 == hash ==> next.tasks == node.tasks.push(
                Task::EnableAggression,
            )
            &&& node.pending.len() == 1 && known && node.pending[0].0 == hash ==> {
                let kept = node.pending[0].1;
                &&& next.tasks.len() == node.tasks.len() + kept.len() + 1
                &&& next.tasks.take(node.tasks.len() as int) == node.tasks
                &&& 0 <= i < kept.len() ==> next.tasks[node.tasks.len() + i] == Task::Import(kept[i].0, kept[i].1)
            }
        }),
{
    let arrival = node.arrival(metas);
    lemma_arrival_sound(node, metas);
    assert forall|p: int| 0 <= p < node.peers.len() implies arrival.node.has_peer((#[trigger] node.peers[p]).0) by {
        assert(arrival.node.peers[p].0 == node.peers[p].0);
    }
    lemma_introduced_sound(arrival.node, arrival.hashes, node.peers);
    let end = arrival.node.introduced(arrival.hashes, node.peers);
    let next = node.blocks_arrived(metas);
    let keep = missing_from(end.blocks);
    assert(next.pending == node.pending.filter(keep));
    dict::lemma_filter_keys(node.pending, keep);
    lists::lemma_filter_satisfies(node.pending, keep);
    if dict::has_key(next.pending, hash) {
        let n = dict::index_of_key(next.pending, hash);
        assert(keep(next.pending[n]));
    }
    if dict::has_key(node.pending, hash) && !dict::has_key(next.blocks, hash) {
        let p = dict::index_of_key(node.pending, hash);
        lists::lemma_filter_contains(node.pending, keep, node.pending[p]);
        let n = choose|n: int| 0 <= n < next.pending.len() && next.pending[n] == node.pending[p];
        assert(next.pending[n].0 == hash);
    }
    let tasks = released(node.pending, end.blocks);
    if node.pending.len() == 0 {
        assert(node.tasks + tasks =~= node.tasks);
    } else if node.pending.len() == 1 {
        assert(released(node.pending.drop_last(), end.blocks) =~= Seq::empty());
        if node.pending[0].0 == hash {
            if dict::has_key(next.blocks, hash) {
                assert(tasks =~= imports(node.pending[0].1));
                assert(next.tasks.take(node.tasks.len() as int) =~= node.tasks);
            } else {
                assert(node.tasks + tasks =~= node.tasks);
            }
        }
    }
}

/// The messages kept for heads that were waited for earlier are looked at first.
pub proof fn heads_waited_for_first_come_first(
    pending: Seq<(BlockHash, Seq<(PeerId, PendingMessage)>)>,
    blocks: Seq<(BlockHash, Block)>,
    n: int,
)
    requires
        0 <= n <= pending.len(),
    ensures
        ({
            let first = released(pending.take(n), blocks);
            let all = released(pending, blocks);
            &&& first.len() <= all.len()
            &&& all.take(first.len() as int) == first
        }),
    decreases pending.len(),
{
    let first = released(pending.take(n), blocks);
    let all = released(pending, blocks);
    if n == pending.len() {
        assert(pending.take(n) =~= pending);
        assert(all.take(all.len() as int) =~= all);
    } else {
        let short = pending.drop_last();
        heads_waited_for_first_come_first(short, blocks, n);
        assert(short.take(n) =~= pending.take(n));
        let rest = released(short, blocks);
        assert(all.take(first.len() as int) =~= rest.take(first.len() as int));
    }
}

/// The messages kept for a head that has come are looked at in the order in which they came, right behind those of the
/// heads before it.
pub proof fn kept_messages_keep_their_order(
    pending: Seq<(BlockHash, Seq<(PeerId, PendingMessage)>)>,
    blocks: Seq<(BlockHash, Block)>,
    i: int,
    j: int,
)
    requires
        0 <= i < pending.len(),
        0 <= j < pending[i].1.len(),
        exists|b: int| 0 <= b < blocks.len() && (#[trigger] blocks[b]).0 == pending[i].0,
    ensures
        ({
            let before = released(pending.take(i), blocks).len();
            &&& before + j < released(pending, blocks).len()
            &&& released(pending, blocks)[before + j] == Task::Import(pending[i].1[j].0, pending[i].1[j].1)
        }),
{
    let upto = pending.take(i + 1);
    assert(upto.drop_last() =~= pending.take(i));
    assert(upto.last() == pending[i]);
    let b = choose|b: int| 0 <= b < blocks.len() && (#[trigger] blocks[b]).0 == pending[i].0;
    assert(blocks[b].0 == pending[i].0);
    assert(dict::has_key(blocks, pending[i].0));
    let first = released(upto, blocks);
    assert(first == released(pending.take(i), blocks) + imports(pending[i].1));
    heads_waited_for_first_come_first(pending, blocks, i + 1);
    let all = released(pending, blocks);
    let before = released(pending.take(i), blocks).len();
    assert(all.take(first.len() as int)[before + j] == all[before + j]);
}

/// The hashes of the blocks that are not above a number, in their order.
pub open spec fn final_hashes(blocks: Seq<(BlockHash, Block)>, number: BlockNumber) -> Seq<BlockHash>
    decreases blocks.len(),
{
    if blocks.len() == 0 {
        Seq::empty()
    } else if blocks.last().1.number <= number {
        final_hashes(blocks.drop_last(), number).push(blocks.last().0)
    } else {
        final_hashes(blocks.drop_last(), number)
    }
}

/// The blocks that become final are remembered as such, after those that became final before; of all of them the
/// last twenty are.
pub proof fn the_last_final_blocks_are_remembered(node: Node, number: BlockNumber)
    requires
        node.outdated.len() <= 20,
    ensures
        ({
            let all = node.outdated + final_hashes(node.blocks, number);
            let kept = node.pruned(number).outdated;
            &&& all.len() <= 20 ==> kept == all
            &&& all.len() > 20 ==> kept == all.skip(all.len() - 20)
        }),
{
    lemma_outdated(node.outdated, node.blocks, number);
}

proof fn lemma_outdated(outdated: Seq<BlockHash>, blocks: Seq<(BlockHash, Block)>, number: BlockNumber)
    requires
        outdated.len() <= 20,
    ensures
        ({
            let all = outdated + final_hashes(blocks, number);
            let kept = outdated_after(outdated, blocks, number);
            &&& all.len() <= 20 ==> kept == all
            &&& all.len() > 20 ==> kept == all.skip(all.len() - 20)
        }),
    decreases blocks.len(),
{
    if blocks.len() == 0 {
        assert(outdated + final_hashes(blocks, number) =~= outdated);
    } else {
        let short = blocks.drop_last();
        lemma_outdated(outdated, short, number);
        let before = outdated + final_hashes(short, number);
        let all = outdated + final_hashes(blocks, number);
        let kept = outdated_after(outdated, blocks, number);
        if blocks.last().1.number <= number {
            assert(all =~= before.push(blocks.last().0));
            if all.len() <= 20 {
                assert(kept =~= all);
            } else {
                assert(kept =~= all.skip(all.len() - 20));
            }
        }
    }
}

/// A block is remembered to be final if its number is not above the one that became final, as long as there are
/// not more than twenty of them.
pub proof fn final_blocks_are_remembered(node: Node, number: BlockNumber, i: int)
    requires
        node.outdated.len() + node.blocks.len() <= 20,
        0 <= i < node.blocks.len(),
        node.blocks[i].1.number <= number,
    ensures
        node.pruned(number).outdated.contains(node.blocks[i].0),
{
    lemma_outdated(node.outdated, node.blocks, number);
    lemma_final_hashes(node.blocks, number, i);
    let finals = final_hashes(node.blocks, number);
    let all = node.outdated + finals;
    let f = choose|f: int| 0 <= f < finals.len() && finals[f] == node.blocks[i].0;
    assert(all[node.outdated.len() + f] == node.blocks[i].0);
}

proof fn lemma_final_hashes(blocks: Seq<(BlockHash, Block)>, number: BlockNumber, i: int)
    requires
        0 <= i < blocks.len(),
        blocks[i].1.number <= number,
    ensures
        final_hashes(blocks, number).len() <= blocks.len(),
        final_hashes(blocks, number).contains(blocks[i].0),
    decreases blocks.len(),
{
    let short = blocks.drop_last();
    lemma_final_len(short, number);
    if i < short.len() {
        assert(short[i] == blocks[i]);
        lemma_final_hashes(short, number, i);
        let rest = final_hashes(short, number);
        let f = choose|f: int| 0 <= f < rest.len() && rest[f] == blocks[i].0;
        assert(final_hashes(blocks, number)[f] == blocks[i].0);
    } else {
        assert(final_hashes(blocks, number).last() == blocks[i].0);
    }
}

proof fn lemma_final_len(blocks: Seq<(BlockHash, Block)>, number: BlockNumber)
    ensures
        final_hashes(blocks, number).len() <= blocks.len(),
    decreases blocks.len(),
{
    if blocks.len() > 0 {
        lemma_final_len(blocks.drop_last(), number);
    }
}

/// An update of the lag is noted, and nothing else happens.
pub proof fn lags_are_noted(node: Node, lag: BlockNumber)
    requires
        node.tasks.len() == 0,
    ensures
        node.handled(Event::ApprovalCheckingLagUpdate(lag)) == (Node { lag, ..node }),
{
    assert(node.tasks =~= Seq::empty());
}

} // verus!
