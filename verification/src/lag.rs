//! What a node does when finality lags, said of the lag and of the numbers of its blocks.
use crate::actions::Effect;
use crate::aggression::{newest, oldest, reached, AggressionConfig};
use crate::awareness::new_blocks_are_introduced;
use crate::batching::{approval_sends, assignment_sends};
use crate::block::{Block, Entry};
use crate::chain::{above, BlockApprovalMeta};
use crate::delivery::{
    has_entry, lagging_nodes_send_along_both_dimensions, lagging_nodes_send_their_messages_to_all,
    lemma_all_propagated, lemma_all_propagated_shape, lemma_unsent_memory, stands_alone,
};
use crate::dict;
use crate::dispatch::{
    newly_delivers_assignment, newly_delivers_vote_about, old_assignments_are_sent_again,
    old_votes_are_sent_again, owed_assignments_are_sent, owed_votes_are_sent, understands_assignment,
    understands_vote,
};
use crate::history::{announced_blocks_become_known, is_announced, kept_messages_are_looked_at};
use crate::invariants::lemma_blocks_arrived_coherent;
use crate::knowledge::{approval_subject, assignment_subject, MessageKind, MessageSubject};
use crate::lists;
use crate::messages::{Assignment, IndirectSignedApprovalVoteV2};
use crate::primitives::{BlockHash, BlockNumber, PeerId};
use crate::propagation::{parcel, Reform, Scope};
use crate::routes::demanded;
use crate::state::{Node, Task};
use crate::stories::finalization_drops_the_final_blocks;
use crate::subsystem::Event;
use crate::topology::RequiredRouting;
use vstd::prelude::*;

verus! {

/// A threshold is reached by every lag that is not below it, and one that is not there by none.
pub proof fn thresholds_are_reached_from_below(threshold: Option<BlockNumber>, lag: BlockNumber)
    ensures
        threshold matches Some(bound) ==> (reached(threshold, lag) <==> bound <= lag),
        threshold is None ==> !reached(threshold, lag),
{
}

/// With a first threshold, a node whose lag is not below it always sends its messages to more peers, after
/// sending old ones again where it is asked to; and a node whose lag is below it does nothing.
pub proof fn lag_from_the_threshold_on_escalates(node: Node, threshold: BlockNumber, resend: bool)
    requires
        node.config.l1_threshold == Some(threshold),
    ensures
        threshold <= node.lag && !resend ==> node.aggression_enabled(resend) == node.escalated(),
        threshold <= node.lag && resend ==> node.aggression_enabled(resend) == node.resent().escalated(),
        node.lag < threshold ==> node.aggression_enabled(resend) == node,
{
}

/// With a first threshold, what a lag triggers every larger one triggers, too.
pub proof fn larger_lags_trigger_as_well(config: AggressionConfig, lag: BlockNumber, larger: BlockNumber)
    requires
        config.l1_threshold is Some,
        lag <= larger,
        config.triggers(lag),
    ensures
        config.triggers(larger),
{
}

/// Without a first threshold, a node does something if its lag is a positive multiple of the period, and
/// with a lag that is none, or without a period, nothing.
pub proof fn lag_without_threshold_triggers_once_a_period(node: Node, resend: bool, multiple: int, left: int)
    requires
        node.config.l1_threshold is None,
        multiple >= 0,
    ensures
        node.config.resend_unfinalized_period is None ==> node.aggression_enabled(resend) == node,
        node.config.resend_unfinalized_period == Some(0u32) ==> node.aggression_enabled(resend) == node,
        node.config.resend_unfinalized_period matches Some(period) ==> 0 < period ==> {
            &&& multiple > 0 && node.lag == multiple * period && !resend ==> node.aggression_enabled(resend)
                == node.escalated()
            &&& multiple > 0 && node.lag == multiple * period && resend ==> node.aggression_enabled(resend)
                == node.resent().escalated()
            &&& node.lag == 0 ==> node.aggression_enabled(resend) == node
            &&& 0 < left < period && node.lag == multiple * period + left ==> node.aggression_enabled(resend)
                == node
        },
{
    if let Some(period) = node.config.resend_unfinalized_period {
        if period > 0 {
            let p = period as int;
            let lag = node.lag as int;
            if multiple > 0 && lag == multiple * p {
                assert(lag > 0 && lag % p == 0) by (nonlinear_arith)
                    requires
                        multiple > 0,
                        p > 0,
                        lag == multiple * p,
                ;
            }
            if 0 < left < p && lag == multiple * p + left {
                assert(lag % p == left) by (nonlinear_arith)
                    requires
                        0 < left < p,
                        lag == multiple * p + left,
                ;
            }
        }
    }
}

/// The number of the oldest block is that of a block, and none has a smaller one.
pub proof fn the_oldest_block_has_the_smallest_number(blocks: Seq<(BlockHash, Block)>, i: int)
    requires
        0 <= i < blocks.len(),
    ensures
        oldest(blocks) <= blocks[i].1.number,
        exists|j: int| 0 <= j < blocks.len() && (#[trigger] blocks[j]).1.number == oldest(blocks),
    decreases blocks.len(),
{
    let short = blocks.drop_last();
    let last = blocks.len() - 1;
    if blocks.last().1.number < oldest(short) {
        assert(blocks[last].1.number == oldest(blocks));
    } else if short.len() > 0 {
        the_oldest_block_has_the_smallest_number(short, 0);
        let j = choose|j: int| 0 <= j < short.len() && (#[trigger] short[j]).1.number == oldest(short);
        assert(blocks[j].1.number == oldest(blocks));
    } else {
        assert(blocks[last].1.number == oldest(blocks));
    }
    if i < last {
        the_oldest_block_has_the_smallest_number(short, i);
        assert(short[i] == blocks[i]);
    }
}

/// The number of the newest block is that of a block, and none has a larger one.
pub proof fn the_newest_block_has_the_largest_number(blocks: Seq<(BlockHash, Block)>, i: int)
    requires
        0 <= i < blocks.len(),
    ensures
        blocks[i].1.number <= newest(blocks),
        exists|j: int| 0 <= j < blocks.len() && (#[trigger] blocks[j]).1.number == newest(blocks),
    decreases blocks.len(),
{
    let short = blocks.drop_last();
    let last = blocks.len() - 1;
    if blocks.last().1.number > newest(short) {
        assert(blocks[last].1.number == newest(blocks));
    } else if short.len() > 0 {
        the_newest_block_has_the_largest_number(short, 0);
        let j = choose|j: int| 0 <= j < short.len() && (#[trigger] short[j]).1.number == newest(short);
        assert(blocks[j].1.number == newest(blocks));
    } else {
        assert(blocks[last].1.number == newest(blocks));
    }
    if i < last {
        the_newest_block_has_the_largest_number(short, i);
        assert(short[i] == blocks[i]);
    }
}

/// A block is due if it is older than the newest one by a positive multiple of the period.
pub proof fn multiples_of_the_period_are_due(
    block: Block,
    newest: BlockNumber,
    period: BlockNumber,
    multiple: int,
)
    requires
        multiple >= 1,
        period > 0,
        newest == block.number + multiple * period,
    ensures
        (Scope::Aged { newest, period }).covers(block),
{
    let p = period as int;
    let age = newest - block.number;
    assert(age > 0 && age % p == 0) by (nonlinear_arith)
        requires
            age == multiple * p,
            multiple >= 1,
            p > 0,
    ;
}

/// Only such a block is due: its age is a positive multiple of the period, which is not zero.
pub proof fn only_multiples_of_the_period_are_due(block: Block, newest: BlockNumber, period: BlockNumber) -> (
    multiple: int)
    requires
        (Scope::Aged { newest, period }).covers(block),
    ensures
        multiple >= 1,
        period > 0,
        newest == block.number + multiple * period,
{
    let p = period as int;
    let age = newest - block.number;
    let multiple = age / p;
    assert(age == multiple * p && multiple >= 1) by (nonlinear_arith)
        requires
            p > 0,
            age > 0,
            age % p == 0,
            multiple == age / p,
    ;
    multiple
}

/// A session and a number stand for the blocks that have them.
pub proof fn scopes_stand_for_sessions_and_numbers(block: Block, session: u32, number: BlockNumber)
    ensures
        Scope::Session(session).covers(block) <==> block.session == session,
        Scope::Number(number).covers(block) <==> block.number == number,
{
}

proof fn lemma_newest_is(node: Node, n: int)
    requires
        0 <= n < node.blocks.len(),
        forall|j: int| 0 <= j < node.blocks.len() ==> (#[trigger] node.blocks[j]).1.number <= node.blocks[n].1.number,
    ensures
        newest(node.blocks) == node.blocks[n].1.number,
{
    the_newest_block_has_the_largest_number(node.blocks, n);
}

proof fn lemma_oldest_is(node: Node, n: int)
    requires
        0 <= n < node.blocks.len(),
        forall|j: int| 0 <= j < node.blocks.len() ==> node.blocks[n].1.number <= (#[trigger] node.blocks[j]).1.number,
    ensures
        oldest(node.blocks) == node.blocks[n].1.number,
{
    the_oldest_block_has_the_smallest_number(node.blocks, n);
}

/// How a change of routes leaves a block that it is not about alone, and one that it is about the same but
/// for the routes and for what its peers have.
pub proof fn lemma_reformed_at(node: Node, scope: Scope, reform: Reform, i: int)
    requires
        0 <= i < node.blocks.len(),
    ensures
        ({
            let end = node.reformed(scope, reform);
            let was = node.blocks[i].1;
            let now = end.blocks[i].1;
            &&& end == (Node { blocks: end.blocks, out: end.out, ..node })
            &&& end.blocks.len() == node.blocks.len()
            &&& end.blocks[i].0 == node.blocks[i].0
            &&& now.number == was.number
            &&& now.session == was.session
            &&& now.entries.len() == was.entries.len()
            &&& forall|k: int|
                0 <= k < was.entries.len() ==> #[trigger] now.entries[k] == if scope.covers(was) {
                    (Entry { routing: reform.routing(was.entries[k]), ..was.entries[k] })
                } else {
                    was.entries[k]
                }
            &&& !scope.covers(was) ==> now == was
        }),
{
    let changed = Node { blocks: node.blocks.map_values(reform.block_change(scope)), ..node };
    changed.lemma_propagated_at(scope);
    let was = node.blocks[i].1;
    let block = changed.blocks[i].1;
    assert(changed.blocks[i] == reform.block_change(scope)(node.blocks[i]));
    lemma_all_propagated_shape(block, changed.peer_ids(), changed.topology_of(block.session));
}

proof fn lemma_reformed_aware(node: Node, scope: Scope, reform: Reform, i: int, peer: PeerId)
    requires
        0 <= i < node.blocks.len(),
        dict::keys_unique(node.blocks[i].1.known_by),
        node.blocks[i].1.aware(peer),
    ensures
        dict::keys_unique(node.reformed(scope, reform).blocks[i].1.known_by),
        node.reformed(scope, reform).blocks[i].1.aware(peer),
{
    let changed = Node { blocks: node.blocks.map_values(reform.block_change(scope)), ..node };
    changed.lemma_propagated_at(scope);
    let was = node.blocks[i].1;
    let block = changed.blocks[i].1;
    assert(changed.blocks[i] == reform.block_change(scope)(node.blocks[i]));
    if scope.covers(was) {
        let rerouted = Block { entries: was.entries.map_values(reform.entry_change()), ..was };
        let p = dict::index_of_key(was.known_by, peer);
        assert(was.known_by[p].0 == peer);
        assert(rerouted.known_by[p].0 == peer);
        lemma_unsent_memory(rerouted, peer);
        assert(block.aware(peer) && dict::keys_unique(block.known_by));
        lemma_all_propagated(block, changed.peer_ids(), changed.topology_of(block.session), peer);
    }
}

/// The messages about a block are sent again if its number is below the largest one by a positive multiple of
/// the period: every connected peer that is aware of the block and on the way of an assignment, and that did
/// not send it itself, gets it once more.
pub proof fn assignments_are_sent_again_once_a_period(
    node: Node,
    period: BlockNumber,
    multiple: int,
    n: int,
    i: int,
    peer: PeerId,
    k: int,
)
    requires
        node.config.resend_unfinalized_period == Some(period),
        period > 0,
        multiple >= 1,
        0 <= n < node.blocks.len(),
        forall|j: int| 0 <= j < node.blocks.len() ==> (#[trigger] node.blocks[j]).1.number <= node.blocks[n].1.number,
        0 <= i < node.blocks.len(),
        node.blocks[n].1.number == node.blocks[i].1.number + multiple * period,
        dict::keys_unique(node.peers),
        dict::keys_unique(node.blocks[i].1.known_by),
        node.blocks[i].1.aware(peer),
        0 <= k < node.blocks[i].1.entries.len(),
        demanded(node.blocks[i].1.entries[k].routing, node.topology_of(node.blocks[i].1.session), peer),
        !node.blocks[i].1.memory(peer).received.contains_key(
            assignment_subject(node.blocks[i].1.entries[k].assignment),
        ),
        stands_alone(node.blocks[i].1, k),
        node.has_peer(peer),
        understands_assignment(node.peer(peer).version, node.blocks[i].1.entries[k].assignment),
    ensures
        newly_delivers_assignment(node.out, node.resent().out, peer, node.blocks[i].1.entries[k].assignment),
{
    lemma_newest_is(node, n);
    multiples_of_the_period_are_due(node.blocks[i].1, node.blocks[n].1.number, period, multiple);
    old_assignments_are_sent_again(node, period, i, peer, k);
}

/// The same of votes.
pub proof fn votes_are_sent_again_once_a_period(
    node: Node,
    period: BlockNumber,
    multiple: int,
    n: int,
    i: int,
    peer: PeerId,
    k: int,
    j: int,
)
    requires
        node.config.resend_unfinalized_period == Some(period),
        period > 0,
        multiple >= 1,
        0 <= n < node.blocks.len(),
        forall|b: int| 0 <= b < node.blocks.len() ==> (#[trigger] node.blocks[b]).1.number <= node.blocks[n].1.number,
        0 <= i < node.blocks.len(),
        node.blocks[n].1.number == node.blocks[i].1.number + multiple * period,
        dict::keys_unique(node.peers),
        dict::keys_unique(node.blocks[i].1.known_by),
        node.blocks[i].1.aware(peer),
        0 <= k < node.blocks[i].1.entries.len(),
        0 <= j < node.blocks[i].1.entries[k].approvals.len(),
        demanded(node.blocks[i].1.entries[k].routing, node.topology_of(node.blocks[i].1.session), peer),
        ({
            let received = node.blocks[i].1.memory(peer).received;
            let subject = approval_subject(node.blocks[i].1.entries[k].approvals[j]);
            received.contains_key(subject) ==> received[subject] == MessageKind::Assignment
        }),
        node.has_peer(peer),
        understands_vote(node.peer(peer).version, node.blocks[i].1.entries[k].approvals[j]),
    ensures
        newly_delivers_vote_about(
            node.out,
            node.resent().out,
            peer,
            approval_subject(node.blocks[i].1.entries[k].approvals[j]),
        ),
{
    lemma_newest_is(node, n);
    multiples_of_the_period_are_due(node.blocks[i].1, node.blocks[n].1.number, period, multiple);
    old_votes_are_sent_again(node, period, i, peer, k, j);
}

/// A block whose number is below the largest one by something else than a positive multiple of the period is
/// left as it is.
pub proof fn other_blocks_are_not_sent_again(node: Node, period: BlockNumber, n: int, i: int)
    requires
        node.config.resend_unfinalized_period == Some(period),
        0 <= n < node.blocks.len(),
        forall|j: int| 0 <= j < node.blocks.len() ==> (#[trigger] node.blocks[j]).1.number <= node.blocks[n].1.number,
        0 <= i < node.blocks.len(),
        forall|multiple: int|
            multiple >= 1 && period > 0 ==> node.blocks[n].1.number != node.blocks[i].1.number + #[trigger] (multiple
                * period),
    ensures
        node.resent().blocks[i] == node.blocks[i],
{
    lemma_newest_is(node, n);
    let scope = Scope::Aged { newest: node.blocks[n].1.number, period };
    if scope.covers(node.blocks[i].1) {
        let multiple = only_multiples_of_the_period_are_due(node.blocks[i].1, node.blocks[n].1.number, period);
        assert(node.blocks[n].1.number == node.blocks[i].1.number + multiple * period);
    }
    lemma_reformed_at(node, scope, Reform::Resend, i);
}

proof fn lemma_no_sends(node: Node, receivers: Seq<PeerId>)
    ensures
        node.assignments_sent(Seq::empty(), receivers) == node,
        node.approvals_sent(Seq::empty(), receivers) == node,
{
    let peers = node.versions_of(receivers);
    assert(assignment_sends(Seq::empty(), peers) =~= Seq::empty());
    assert(approval_sends(Seq::empty(), peers) =~= Seq::empty());
    assert(node.out + Seq::<Effect>::empty() =~= node.out);
}

proof fn lemma_empty_parcel(node: Node, scope: Scope, upto: int, peer: PeerId)
    requires
        0 <= upto <= node.blocks.len(),
        forall|i: int| 0 <= i < node.blocks.len() ==> !scope.covers((#[trigger] node.blocks[i]).1),
    ensures
        ({
            let found = parcel(node.blocks.take(upto), scope, peer, node.topologies);
            &&& found.blocks == node.blocks.take(upto)
            &&& found.assignments == Seq::<Assignment>::empty()
            &&& found.votes == Seq::<IndirectSignedApprovalVoteV2>::empty()
        }),
    decreases upto,
{
    if upto > 0 {
        lemma_empty_parcel(node, scope, upto - 1, peer);
        assert(node.blocks.take(upto).drop_last() =~= node.blocks.take(upto - 1));
        assert(node.blocks.take(upto).last() == node.blocks[upto - 1]);
        assert(node.blocks.take(upto - 1).push(node.blocks[upto - 1]) =~= node.blocks.take(upto));
    }
}

proof fn lemma_idle_wave(node: Node, scope: Scope, peers: Seq<PeerId>)
    requires
        forall|i: int| 0 <= i < node.blocks.len() ==> !scope.covers((#[trigger] node.blocks[i]).1),
    ensures
        node.wave(scope, peers).node == node,
        forall|p: int|
            0 <= p < node.wave(scope, peers).votes.len() ==> (#[trigger] node.wave(scope, peers).votes[p]).1.len() == 0,
    decreases peers.len(),
{
    if peers.len() > 0 {
        lemma_idle_wave(node, scope, peers.drop_last());
        lemma_empty_parcel(node, scope, node.blocks.len() as int, peers.last());
        assert(node.blocks.take(node.blocks.len() as int) =~= node.blocks);
        lemma_no_sends(node, seq![peers.last()]);
    }
}

proof fn lemma_idle_packets(node: Node, packets: Seq<(PeerId, Seq<IndirectSignedApprovalVoteV2>)>)
    requires
        forall|p: int| 0 <= p < packets.len() ==> (#[trigger] packets[p]).1.len() == 0,
    ensures
        node.packets_sent(packets) == node,
    decreases packets.len(),
{
    if packets.len() > 0 {
        let short = packets.drop_last();
        assert forall|p: int| 0 <= p < short.len() implies (#[trigger] short[p]).1.len() == 0 by {
            assert(short[p] == packets[p]);
        }
        lemma_idle_packets(node, short);
        assert(packets[packets.len() - 1].1.len() == 0);
        assert(packets.last().1 =~= Seq::empty());
        lemma_no_sends(node, seq![packets.last().0]);
    }
}

/// Where no block is due, sending messages again changes nothing and sends nothing.
pub proof fn nothing_is_sent_where_no_block_is_due(node: Node, period: BlockNumber, n: int)
    requires
        node.config.resend_unfinalized_period == Some(period),
        0 <= n < node.blocks.len(),
        forall|j: int| 0 <= j < node.blocks.len() ==> (#[trigger] node.blocks[j]).1.number <= node.blocks[n].1.number,
        forall|i: int, multiple: int|
            0 <= i < node.blocks.len() && multiple >= 1 && period > 0 ==> node.blocks[n].1.number
                != (#[trigger] node.blocks[i]).1.number + #[trigger] (multiple * period),
    ensures
        node.resent() == node,
{
    lemma_newest_is(node, n);
    let scope = Scope::Aged { newest: node.blocks[n].1.number, period };
    assert forall|i: int| 0 <= i < node.blocks.len() implies !scope.covers((#[trigger] node.blocks[i]).1) by {
        if scope.covers(node.blocks[i].1) {
            let multiple = only_multiples_of_the_period_are_due(node.blocks[i].1, node.blocks[n].1.number, period);
            assert(node.blocks[n].1.number == node.blocks[i].1.number + multiple * period);
        }
    }
    assert(node.blocks.map_values(Reform::Resend.block_change(scope)) =~= node.blocks);
    lemma_idle_wave(node, scope, node.peer_ids());
    lemma_idle_packets(node, node.wave(scope, node.peer_ids()).votes);
}

/// Without a period, or with one of zero, nothing is ever sent again.
pub proof fn nothing_is_sent_again_without_a_period(node: Node)
    requires
        node.config.resend_unfinalized_period is None || node.config.resend_unfinalized_period == Some(0u32),
    ensures
        node.resent() == node,
{
    if node.config.resend_unfinalized_period == Some(0u32) {
        let scope = Scope::Aged { newest: newest(node.blocks), period: 0u32 };
        assert(node.blocks.map_values(Reform::Resend.block_change(scope)) =~= node.blocks);
        lemma_idle_wave(node, scope, node.peer_ids());
        lemma_idle_packets(node, node.wave(scope, node.peer_ids()).votes);
    }
}

/// From the first threshold on, after the oldest block has been looked at, every connected peer that is aware of
/// it has the node's own messages about it; and where it did not have them, they have just been sent.
pub proof fn own_messages_reach_everybody_from_the_threshold_on(
    node: Node,
    threshold: BlockNumber,
    i: int,
    peer: PeerId,
    k: int,
    j: int,
)
    requires
        node.config.l1_threshold == Some(threshold),
        threshold <= node.lag,
        0 <= i < node.blocks.len(),
        forall|b: int| 0 <= b < node.blocks.len() ==> node.blocks[i].1.number <= (#[trigger] node.blocks[b]).1.number,
        dict::keys_unique(node.peers),
        dict::keys_unique(node.blocks[i].1.known_by),
        node.has_peer(peer),
        node.blocks[i].1.aware(peer),
        node.topology_of(node.blocks[i].1.session) is Some,
        0 <= k < node.blocks[i].1.entries.len(),
        node.blocks[i].1.entries[k].local,
        node.blocks[i].1.entries[k].routing != RequiredRouting::PendingTopology,
    ensures
        ({
            let end = node.aggression_enabled(false);
            let entry = node.blocks[i].1.entries[k];
            let was = node.blocks[i].1.memory(peer);
            let now = end.blocks[i].1.memory(peer);
            let subject = assignment_subject(entry.assignment);
            &&& end.blocks[i].0 == node.blocks[i].0
            &&& now.sent.contains_key(subject) || now.received.contains_key(subject)
            &&& 0 <= j < entry.approvals.len() ==> now.has(approval_subject(entry.approvals[j]), MessageKind::Approval)
            &&& !was.sent.contains_key(subject) && !was.received.contains_key(subject) && stands_alone(
                node.blocks[i].1,
                k,
            ) && understands_assignment(node.peer(peer).version, entry.assignment) ==> newly_delivers_assignment(
                node.out,
                end.out,
                peer,
                entry.assignment,
            )
            &&& 0 <= j < entry.approvals.len() && !was.has(approval_subject(entry.approvals[j]), MessageKind::Approval)
                && understands_vote(node.peer(peer).version, entry.approvals[j]) ==> newly_delivers_vote_about(
                node.out,
                end.out,
                peer,
                approval_subject(entry.approvals[j]),
            )
        }),
{
    lemma_oldest_is(node, i);
    lagging_nodes_send_their_messages_to_all(node, i, peer, k);
    lag_from_the_threshold_on_escalates(node, threshold, false);
    let scope = Scope::Number(oldest(node.blocks));
    let reform = Reform::Escalate {
        own_to_all: reached(node.config.l1_threshold, node.lag),
        others_to_grid: reached(node.config.l2_threshold, node.lag),
    };
    let changed = Node { blocks: node.blocks.map_values(reform.block_change(scope)), ..node };
    let block = node.blocks[i].1;
    let next = changed.blocks[i].1;
    let entry = block.entries[k];
    let was = block.memory(peer);
    assert(changed.blocks[i] == reform.block_change(scope)(node.blocks[i]));
    assert(next == reform.applied(block));
    assert(next.known_by == block.known_by);
    assert(next.entries[k] == (Entry { routing: RequiredRouting::All, ..entry }));
    let subject = assignment_subject(entry.assignment);
    if !was.sent.contains_key(subject) && !was.received.contains_key(subject) && stands_alone(block, k)
        && understands_assignment(node.peer(peer).version, entry.assignment) {
        lemma_stands_alone_rerouted(block, next, k);
        assert(changed.owes(scope, i, peer, k));
        owed_assignments_are_sent(changed, scope, i, peer, k);
    }
    if 0 <= j < entry.approvals.len() && !was.has(approval_subject(entry.approvals[j]), MessageKind::Approval)
        && understands_vote(node.peer(peer).version, entry.approvals[j]) {
        assert(changed.owes_vote(scope, i, peer, k, j));
        owed_votes_are_sent(changed, scope, i, peer, k, j);
    }
}

proof fn lemma_stands_alone_rerouted(was: Block, now: Block, k: int)
    requires
        0 <= k < was.entries.len(),
        stands_alone(was, k),
        now.entries.len() == was.entries.len(),
        forall|m: int|
            0 <= m < was.entries.len() ==> (#[trigger] now.entries[m]).assignment == was.entries[m].assignment
                && now.entries[m].approvals == was.entries[m].approvals,
    ensures
        stands_alone(now, k),
{
    let subject = assignment_subject(was.entries[k].assignment);
    assert(now.entries[k].assignment == was.entries[k].assignment);
    assert forall|m: int, j: int|
        0 <= m < now.entries.take(k).len() && 0 <= j < now.entries.take(k)[m].approvals.len() implies approval_subject(
        #[trigger] now.entries.take(k)[m].approvals[j],
    ) != subject by {
        assert(now.entries[m].approvals == was.entries[m].approvals);
        assert(was.entries.take(k)[m] == was.entries[m]);
        assert(approval_subject(was.entries.take(k)[m].approvals[j]) != subject);
    }
    assert forall|m: int| 0 <= m < now.entries.len() && m != k implies assignment_subject(
        (#[trigger] now.entries[m]).assignment,
    ) != subject by {
        assert(assignment_subject(was.entries[m].assignment) != subject);
    }
}

/// What a lag does to the routes: those of the oldest blocks, and no others, change.  From the first threshold on
/// the node's own messages go to all, from the second one on those of others go along both dimensions; what
/// waits for a topology goes on waiting.
pub proof fn only_the_routes_of_the_oldest_blocks_change(node: Node, i: int, k: int)
    requires
        0 <= i < node.blocks.len(),
        0 <= k < node.blocks[i].1.entries.len(),
    ensures
        ({
            let was = node.blocks[i].1.entries[k];
            let now = node.escalated().blocks[i].1.entries[k];
            let first = node.config.l1_threshold matches Some(threshold) && threshold <= node.lag;
            let second = node.config.l2_threshold matches Some(threshold) && threshold <= node.lag;
            let is_oldest = forall|b: int|
                0 <= b < node.blocks.len() ==> node.blocks[i].1.number <= (#[trigger] node.blocks[b]).1.number;
            &&& now == (Entry { routing: now.routing, ..was })
            &&& is_oldest && was.local && first && !(was.routing is PendingTopology) ==> now.routing is All
            &&& is_oldest && !was.local && second && !(was.routing is PendingTopology) ==> now.routing is GridXY
            &&& !is_oldest || (was.local && !first) || (!was.local && !second) || was.routing is PendingTopology
                ==> now.routing == was.routing
            &&& !is_oldest ==> node.escalated().blocks[i] == node.blocks[i]
        }),
{
    the_oldest_block_has_the_smallest_number(node.blocks, i);
    let n = choose|j: int| 0 <= j < node.blocks.len() && (#[trigger] node.blocks[j]).1.number == oldest(node.blocks);
    if forall|b: int| 0 <= b < node.blocks.len() ==> node.blocks[i].1.number <= (#[trigger] node.blocks[b]).1.number {
        assert(node.blocks[i].1.number <= node.blocks[n].1.number);
    } else {
        let b = choose|b: int|
            0 <= b < node.blocks.len() && !(node.blocks[i].1.number <= (#[trigger] node.blocks[b]).1.number);
        the_oldest_block_has_the_smallest_number(node.blocks, b);
    }
    let reform = Reform::Escalate {
        own_to_all: reached(node.config.l1_threshold, node.lag),
        others_to_grid: reached(node.config.l2_threshold, node.lag),
    };
    lemma_reformed_at(node, Scope::Number(oldest(node.blocks)), reform, i);
}

/// From both thresholds on, every connected neighbor that is aware of the oldest block has the messages of others
/// about it.
pub proof fn others_messages_reach_all_neighbors_from_the_second_threshold_on(
    node: Node,
    first: BlockNumber,
    second: BlockNumber,
    i: int,
    peer: PeerId,
    k: int,
    j: int,
)
    requires
        node.config.l1_threshold == Some(first),
        first <= node.lag,
        node.config.l2_threshold == Some(second),
        second <= node.lag,
        0 <= i < node.blocks.len(),
        forall|b: int| 0 <= b < node.blocks.len() ==> node.blocks[i].1.number <= (#[trigger] node.blocks[b]).1.number,
        dict::keys_unique(node.blocks[i].1.known_by),
        node.has_peer(peer),
        node.blocks[i].1.aware(peer),
        node.topology_of(node.blocks[i].1.session) matches Some(t) && (t.grid.peers_x.contains(peer)
            || t.grid.peers_y.contains(peer)),
        0 <= k < node.blocks[i].1.entries.len(),
        !node.blocks[i].1.entries[k].local,
        node.blocks[i].1.entries[k].routing != RequiredRouting::PendingTopology,
    ensures
        ({
            let end = node.aggression_enabled(false);
            let entry = node.blocks[i].1.entries[k];
            let now = end.blocks[i].1.memory(peer);
            let subject = assignment_subject(entry.assignment);
            &&& end.blocks[i].0 == node.blocks[i].0
            &&& now.sent.contains_key(subject) || now.received.contains_key(subject)
            &&& 0 <= j < entry.approvals.len() ==> now.has(approval_subject(entry.approvals[j]), MessageKind::Approval)
        }),
{
    lemma_oldest_is(node, i);
    lagging_nodes_send_along_both_dimensions(node, i, peer, k);
}

/// The same with sending old messages again first: from the first threshold on every connected peer that is aware
/// of the oldest block has the node's own messages about it.
proof fn lemma_own_messages_reach_everybody(
    node: Node,
    threshold: BlockNumber,
    resend: bool,
    i: int,
    peer: PeerId,
    k: int,
)
    requires
        node.config.l1_threshold == Some(threshold),
        threshold <= node.lag,
        0 <= i < node.blocks.len(),
        forall|b: int| 0 <= b < node.blocks.len() ==> node.blocks[i].1.number <= (#[trigger] node.blocks[b]).1.number,
        dict::keys_unique(node.blocks[i].1.known_by),
        node.has_peer(peer),
        node.blocks[i].1.aware(peer),
        node.topology_of(node.blocks[i].1.session) is Some,
        0 <= k < node.blocks[i].1.entries.len(),
        node.blocks[i].1.entries[k].local,
        node.blocks[i].1.entries[k].routing != RequiredRouting::PendingTopology,
    ensures
        node.aggression_enabled(resend).blocks.len() == node.blocks.len(),
        node.aggression_enabled(resend).blocks[i].0 == node.blocks[i].0,
        has_entry(node.aggression_enabled(resend).blocks[i].1.memory(peer), node.blocks[i].1.entries[k]),
        node.aggression_enabled(resend) == (Node {
            blocks: node.aggression_enabled(resend).blocks,
            out: node.aggression_enabled(resend).out,
            ..node
        }),
{
    let first = if resend {
        node.resent()
    } else {
        node
    };
    if resend {
        if let Some(period) = node.config.resend_unfinalized_period {
            let scope = Scope::Aged { newest: newest(node.blocks), period };
            lemma_reformed_aware(node, scope, Reform::Resend, i, peer);
            lemma_reformed_at(node, scope, Reform::Resend, i);
            assert(first.blocks[i].1.entries[k] == node.blocks[i].1.entries[k]);
            assert forall|b: int| 0 <= b < first.blocks.len() implies first.blocks[i].1.number <= (#[trigger]
            first.blocks[b]).1.number by {
                lemma_reformed_at(node, scope, Reform::Resend, b);
                assert(node.blocks[i].1.number <= node.blocks[b].1.number);
            }
        }
    }
    lemma_oldest_is(first, i);
    lagging_nodes_send_their_messages_to_all(first, i, peer, k);
    let reform = Reform::Escalate {
        own_to_all: reached(first.config.l1_threshold, first.lag),
        others_to_grid: reached(first.config.l2_threshold, first.lag),
    };
    lemma_reformed_at(first, Scope::Number(oldest(first.blocks)), reform, i);
}

/// When a block becomes final while the lag is not below the first threshold, every connected peer that is aware
/// of the oldest block that is left has the node's own messages about it afterwards.
pub proof fn finality_makes_own_messages_reach_everybody(
    node: Node,
    number: BlockNumber,
    threshold: BlockNumber,
    hash: BlockHash,
    peer: PeerId,
    k: int,
    j: int,
)
    requires
        dict::keys_unique(node.blocks),
        node.tasks.len() == 0,
        node.config.l1_threshold == Some(threshold),
        threshold <= node.lag,
        node.has_block(hash),
        node.block(hash).number > number,
        forall|b: int|
            0 <= b < node.blocks.len() && (#[trigger] node.blocks[b]).1.number > number ==> node.block(hash).number
                <= node.blocks[b].1.number,
        dict::keys_unique(node.block(hash).known_by),
        node.has_peer(peer),
        node.block(hash).aware(peer),
        node.topology_of(node.block(hash).session) is Some,
        0 <= k < node.block(hash).entries.len(),
        node.block(hash).entries[k].local,
        node.block(hash).entries[k].routing != RequiredRouting::PendingTopology,
    ensures
        ({
            let end = node.handled(Event::BlockFinalized(number));
            let entry = node.block(hash).entries[k];
            let now = end.block(hash).memory(peer);
            let subject = assignment_subject(entry.assignment);
            &&& end.has_block(hash)
            &&& now.sent.contains_key(subject) || now.received.contains_key(subject)
            &&& 0 <= j < entry.approvals.len() ==> now.has(approval_subject(entry.approvals[j]), MessageKind::Approval)
        }),
{
    let left = node.pruned(number);
    finalization_drops_the_final_blocks(node, number, hash);
    let i = dict::index_of_key(left.blocks, hash);
    assert(left.blocks[i].0 == hash);
    assert(left.blocks[i].1 == node.block(hash));
    lists::lemma_filter_satisfies(node.blocks, above(number));
    dict::lemma_filter_keys(node.blocks, above(number));
    assert forall|b: int| 0 <= b < left.blocks.len() implies left.blocks[i].1.number <= (#[trigger]
    left.blocks[b]).1.number by {
        assert(node.blocks.contains(left.blocks[b]));
        let c = choose|c: int| 0 <= c < node.blocks.len() && node.blocks[c] == left.blocks[b];
        assert(above(number)(left.blocks[b]));
        assert(node.blocks[c].1.number > number);
    }
    lemma_own_messages_reach_everybody(left, threshold, false, i, peer, k);
    let end = left.aggression_enabled(false);
    assert forall|b: int| 0 <= b < left.blocks.len() implies (#[trigger] end.blocks[b]).0 == left.blocks[b].0 by {
        let reform = Reform::Escalate {
            own_to_all: reached(left.config.l1_threshold, left.lag),
            others_to_grid: reached(left.config.l2_threshold, left.lag),
        };
        lemma_reformed_at(left, Scope::Number(oldest(left.blocks)), reform, b);
    }
    assert(dict::keys_unique(end.blocks)) by {
        assert forall|a: int, b: int| 0 <= a < b < end.blocks.len() implies #[trigger] end.blocks[a].0
            != #[trigger] end.blocks[b].0 by {
            assert(left.blocks[a].0 != left.blocks[b].0);
        }
    }
    dict::lemma_dict_at(end.blocks, i);
    assert(end.tasks =~= Seq::empty());
    assert(node.handled(Event::BlockFinalized(number)) == end);
}

/// When blocks come while the lag is not below the first threshold, and no messages were kept for them, every
/// connected peer that is aware of the oldest block has the node's own messages about it afterwards.
pub proof fn new_blocks_make_own_messages_reach_everybody(
    node: Node,
    metas: Vec<BlockApprovalMeta>,
    threshold: BlockNumber,
    i: int,
    peer: PeerId,
    k: int,
    j: int,
)
    requires
        node.coherent(),
        node.tasks.len() == 0,
        node.awaiting is None,
        node.pending.len() == 0,
        node.config.l1_threshold == Some(threshold),
        threshold <= node.lag,
        0 <= i < node.blocks.len(),
        forall|b: int| 0 <= b < node.blocks.len() ==> node.blocks[i].1.number <= (#[trigger] node.blocks[b]).1.number,
        forall|m: int| 0 <= m < metas@.len() ==> node.blocks[i].1.number <= (#[trigger] metas@[m]).number,
        node.has_peer(peer),
        node.blocks[i].1.aware(peer),
        node.topology_of(node.blocks[i].1.session) is Some,
        0 <= k < node.blocks[i].1.entries.len(),
        node.blocks[i].1.entries[k].local,
        node.blocks[i].1.entries[k].routing != RequiredRouting::PendingTopology,
    ensures
        ({
            let end = node.handled(Event::NewBlocks(metas));
            let entry = node.blocks[i].1.entries[k];
            let now = end.blocks[i].1.memory(peer);
            let subject = assignment_subject(entry.assignment);
            &&& end.blocks[i].0 == node.blocks[i].0
            &&& now.sent.contains_key(subject) || now.received.contains_key(subject)
            &&& 0 <= j < entry.approvals.len() ==> now.has(approval_subject(entry.approvals[j]), MessageKind::Approval)
        }),
{
    let arrived = node.blocks_arrived(metas@);
    let first = node.arrival(metas@).node;
    announced_blocks_become_known(node, metas@, i, 0);
    assert(first.blocks[i] == first.blocks.take(node.blocks.len() as int)[i]);
    new_blocks_are_introduced(node, metas@, i, peer);
    kept_messages_are_looked_at(node, metas@, node.blocks[i].0, 0);
    lemma_blocks_arrived_coherent(node, metas@);
    let block = arrived.blocks[i].1;
    assert(block.aware(peer)) by {
        let p = dict::index_of_key(node.blocks[i].1.known_by, peer);
        assert(node.blocks[i].1.known_by[p].0 == peer);
        assert(block.known_by[p].0 == peer);
    }
    assert forall|b: int| 0 <= b < arrived.blocks.len() implies arrived.blocks[i].1.number <= (#[trigger]
    arrived.blocks[b]).1.number by {
        announced_blocks_become_known(node, metas@, b, 0);
        new_blocks_are_introduced(node, metas@, b, peer);
        if b < node.blocks.len() {
            assert(first.blocks[b] == first.blocks.take(node.blocks.len() as int)[b]);
            assert(node.blocks[i].1.number <= node.blocks[b].1.number);
        } else {
            let m = choose|m: int|
                {
                    &&& 0 <= m < metas@.len()
                    &&& is_announced(first.blocks[b], #[trigger] metas@[m])
                    &&& forall|l: int| 0 <= l < m ==> (#[trigger] metas@[l]).hash != metas@[m].hash
                };
            assert(node.blocks[i].1.number <= metas@[m].number);
        }
    }
    let ready = Node { tasks: Seq::empty(), ..arrived };
    assert(block.entries[k].assignment == node.blocks[i].1.entries[k].assignment);
    assert(dict::keys_unique(block.known_by));
    lemma_own_messages_reach_everybody(ready, threshold, true, i, peer, k);
    assert(arrived.tasks =~= seq![Task::EnableAggression]);
    assert(arrived.tasks.drop_first() =~= Seq::empty());
    let end = ready.aggression_enabled(true);
    assert(ready.performed(arrived.tasks[0]) == end);
    assert(end.advanced(Seq::empty()) == end);
    assert(ready.advanced(arrived.tasks) == end);
    assert(node.handled(Event::NewBlocks(metas)) == end);
}

/// Whatever is sent again or to more peers, what a peer is noted to have sent stays noted; and what it is noted to
/// have at all does, unless it is to be sent again.
pub proof fn received_messages_stay_noted(
    node: Node,
    scope: Scope,
    reform: Reform,
    i: int,
    peer: PeerId,
    subject: MessageSubject,
    kind: MessageKind,
)
    requires
        0 <= i < node.blocks.len(),
        dict::keys_unique(node.blocks[i].1.known_by),
        node.blocks[i].1.aware(peer),
    ensures
        ({
            let was = node.blocks[i].1.memory(peer);
            let now = node.reformed(scope, reform).blocks[i].1.memory(peer);
            &&& now.received == was.received
            &&& was.has(subject, kind) && !(reform is Resend) ==> now.has(subject, kind)
        }),
{
    let changed = Node { blocks: node.blocks.map_values(reform.block_change(scope)), ..node };
    changed.lemma_propagated_at(scope);
    let was = node.blocks[i].1;
    let block = changed.blocks[i].1;
    assert(changed.blocks[i] == reform.block_change(scope)(node.blocks[i]));
    if scope.covers(was) {
        let rerouted = Block { entries: was.entries.map_values(reform.entry_change()), ..was };
        let p = dict::index_of_key(was.known_by, peer);
        assert(was.known_by[p].0 == peer);
        assert(rerouted.known_by[p].0 == peer);
        lemma_unsent_memory(rerouted, peer);
        lemma_all_propagated(block, changed.peer_ids(), changed.topology_of(block.session), peer);
    }
}

} // verus!
