//! What every event keeps true of the node's memory.
use crate::aggression;
use crate::block::{Block, Entry};
use crate::chain::{
    above, among, missing_from, outdated_after, viewed, BlockApprovalMeta, MAX_RECENT_OUTDATED,
};
use crate::circulation::{eligible, with_vote};
use crate::delivery::{all_propagated, same_but_memories};
use crate::dict;
use crate::import::{ApprovalCheckResult, AssignmentCheckResult};
use crate::knowledge::{
    approval_subject, assignment_subject, knows, learned, learning_adds_one_message, Known,
    MessageKind, MessageSubject, PeerMemory,
};
use crate::laws::few_peers_are_chosen;
use crate::lists;
use crate::messages::{Assignment, IndirectSignedApprovalVoteV2};
use crate::offers::select_entries;
use crate::peers::{blocks_without, unaware, Tour};
use crate::primitives::{
    BlockHash, BlockNumber, PeerId, SessionIndex, ValidationVersion, ValidatorIndex,
};
use crate::propagation::{Reform, Scope};
use crate::random::{Luck, RANDOM_CIRCULATION};
use crate::reputation::{Rep, BENEFIT_VALID_MESSAGE_FIRST};
use crate::state::{Acquaintance, Horizon, Node, PendingMessage, Task};
use crate::subsystem::{unpacked, unpacking_costs, Event};
use crate::topology::{Layout, Outlook};
use vstd::prelude::*;

verus! {

/// Whether the node has a message.
pub open spec fn has_message(known: Known, message: PendingMessage) -> bool {
    match message {
        PendingMessage::Assignment(assignment) => knows(
            known,
            assignment_subject(assignment),
            MessageKind::Assignment,
        ),
        PendingMessage::Approval(vote) => knows(known, approval_subject(vote), MessageKind::Approval),
    }
}

/// Whether the node has all messages of an entry, and few peers were chosen for it at random.
pub open spec fn entry_sound(known: Known, entry: Entry) -> bool {
    &&& entry.randomly_routed.len() <= RANDOM_CIRCULATION
    &&& has_message(known, PendingMessage::Assignment(entry.assignment))
    &&& forall|j: int|
        0 <= j < entry.approvals.len() ==> has_message(
            known,
            PendingMessage::Approval(#[trigger] entry.approvals[j]),
        )
}

/// Whether no two entries are for assignments about the same.
pub open spec fn entries_distinct(entries: Seq<Entry>) -> bool {
    forall|a: int, b: int|
        0 <= a < b < entries.len() ==> assignment_subject((#[trigger] entries[a]).assignment) != assignment_subject(
            (#[trigger] entries[b]).assignment,
        )
}

/// Whether entries are for the same assignments as others.
spec fn same_assignments(was: Seq<Entry>, now: Seq<Entry>) -> bool {
    &&& was.len() == now.len()
    &&& forall|k: int| 0 <= k < was.len() ==> (#[trigger] now[k]).assignment == was[k].assignment
}

proof fn lemma_same_distinct(was: Seq<Entry>, now: Seq<Entry>)
    requires
        entries_distinct(was),
        same_assignments(was, now),
    ensures
        entries_distinct(now),
{
    assert forall|a: int, b: int| 0 <= a < b < now.len() implies assignment_subject((#[trigger] now[a]).assignment)
        != assignment_subject((#[trigger] now[b]).assignment) by {
        assert(assignment_subject(was[a].assignment) != assignment_subject(was[b].assignment));
    }
}

/// Whether each peer that is aware of a block is noted once and is among those that are connected, the
/// entries are sound, and no two of them are about the same.
pub open spec fn block_sound(block: Block, peers: Seq<(PeerId, Acquaintance)>) -> bool {
    &&& dict::keys_unique(block.known_by)
    &&& forall|i: int| 0 <= i < block.known_by.len() ==> dict::has_key(peers, (#[trigger] block.known_by[i]).0)
    &&& forall|k: int| 0 <= k < block.entries.len() ==> entry_sound(block.knowledge, #[trigger] block.entries[k])
    &&& entries_distinct(block.entries)
}

/// Whether all blocks are sound.
pub open spec fn blocks_sound(blocks: Seq<(BlockHash, Block)>, peers: Seq<(PeerId, Acquaintance)>) -> bool {
    &&& dict::keys_unique(blocks)
    &&& forall|i: int| 0 <= i < blocks.len() ==> block_sound((#[trigger] blocks[i]).1, peers)
}

impl Node {
    /// Whether what the node remembers fits together:
    /// - no peer, block, head or session is noted twice;
    /// - only connected peers are aware of blocks;
    /// - the node has every message that it passes on, and few peers get it by chance;
    /// - no two assignments that it passes on are about the same;
    /// - messages are kept only for heads that are not known;
    /// - the check that is waited for is about a known block;
    /// - the list of blocks that became final last is bounded.
    pub open spec fn coherent(self) -> bool {
        &&& self.sound()
        &&& forall|i: int| 0 <= i < self.pending.len() ==> !self.has_block((#[trigger] self.pending[i]).0)
    }

    /// What is left of that while messages are still kept for heads that have just become known.
    pub open spec fn sound(self) -> bool {
        &&& dict::keys_unique(self.peers)
        &&& dict::keys_unique(self.pending)
        &&& dict::keys_unique(self.topologies)
        &&& blocks_sound(self.blocks, self.peers)
        &&& self.awaiting matches Some((_, message)) ==> self.has_block(message.about())
        &&& self.outdated.len() <= MAX_RECENT_OUTDATED
    }

    /// Whether the check that is waited for, if there is one, is of a message that the node does not have.
    pub open spec fn awaits_news(self) -> bool {
        self.awaiting matches Some((_, message)) ==> !has_message(self.block(message.about()).knowledge, message)
    }

    /// Whether nothing is left to be done but what waits for a check, and that is the check of a message
    /// that the node does not have.
    pub open spec fn quiet(self) -> bool {
        &&& self.tasks.len() > 0 ==> self.awaiting is Some
        &&& self.awaits_news()
    }
}

// Blocks.

proof fn lemma_knowledge_grows(known: Known, subject: MessageSubject, kind: MessageKind, entry: Entry)
    requires
        entry_sound(known, entry),
    ensures
        entry_sound(learned(known, subject, kind), entry),
{
    let now = learned(known, subject, kind);
    learning_adds_one_message(
        known,
        subject,
        kind,
        assignment_subject(entry.assignment),
        MessageKind::Assignment,
    );
    assert forall|j: int| 0 <= j < entry.approvals.len() implies has_message(
        now,
        PendingMessage::Approval(#[trigger] entry.approvals[j]),
    ) by {
        assert(has_message(known, PendingMessage::Approval(entry.approvals[j])));
        learning_adds_one_message(
            known,
            subject,
            kind,
            approval_subject(entry.approvals[j]),
            MessageKind::Approval,
        );
    }
}

proof fn lemma_learned_sound(
    block: Block,
    peers: Seq<(PeerId, Acquaintance)>,
    subject: MessageSubject,
    kind: MessageKind,
)
    requires
        block_sound(block, peers),
    ensures
        block_sound(block.after_learned(subject, kind), peers),
        knows(block.after_learned(subject, kind).knowledge, subject, kind),
{
    let next = block.after_learned(subject, kind);
    assert forall|k: int| 0 <= k < next.entries.len() implies entry_sound(
        next.knowledge,
        #[trigger] next.entries[k],
    ) by {
        lemma_knowledge_grows(block.knowledge, subject, kind, block.entries[k]);
    }
}

/// A block stays sound when only memories of peers change.
proof fn lemma_memories_sound(was: Block, now: Block, peers: Seq<(PeerId, Acquaintance)>)
    requires
        block_sound(was, peers),
        same_but_memories(was, now),
    ensures
        block_sound(now, peers),
{
    assert forall|i: int, j: int| 0 <= i < j < now.known_by.len() implies #[trigger] now.known_by[i].0
        != #[trigger] now.known_by[j].0 by {
        assert(was.known_by[i].0 != was.known_by[j].0);
    }
    assert forall|i: int| 0 <= i < now.known_by.len() implies dict::has_key(
        peers,
        (#[trigger] now.known_by[i]).0,
    ) by {
        assert(was.known_by[i].0 == now.known_by[i].0);
    }
}

proof fn lemma_with_memory_same(block: Block, peer: PeerId, memory: PeerMemory)
    requires
        block.aware(peer),
    ensures
        same_but_memories(block, block.with_memory(peer, memory)),
{
    let i = dict::index_of_key(block.known_by, peer);
    assert(block.known_by[i].0 == peer);
}

proof fn lemma_received_sound(
    block: Block,
    peers: Seq<(PeerId, Acquaintance)>,
    peer: PeerId,
    subject: MessageSubject,
    kind: MessageKind,
)
    requires
        block_sound(block, peers),
    ensures
        block_sound(block.after_received(peer, subject, kind), peers),
{
    if block.aware(peer) {
        let memory = block.memory(peer).after_received(subject, kind);
        lemma_with_memory_same(block, peer, memory);
        lemma_memories_sound(block, block.with_memory(peer, memory), peers);
    }
}

proof fn lemma_propagated_sound(
    block: Block,
    peers: Seq<(PeerId, Acquaintance)>,
    peer: PeerId,
    topology: Option<Outlook>,
)
    requires
        block_sound(block, peers),
    ensures
        block_sound(block.propagated(peer, topology).0, peers),
{
    if block.aware(peer) {
        let next = block.propagated(peer, topology).0;
        lemma_with_memory_same(block, peer, next.known_by[dict::index_of_key(block.known_by, peer)].1);
        assert(same_but_memories(block, next));
        lemma_memories_sound(block, next, peers);
    }
}

proof fn lemma_all_propagated_sound(
    block: Block,
    peers: Seq<(PeerId, Acquaintance)>,
    list: Seq<PeerId>,
    topology: Option<Outlook>,
)
    requires
        block_sound(block, peers),
    ensures
        block_sound(all_propagated(block, list, topology), peers),
    decreases list.len(),
{
    if list.len() > 0 {
        lemma_all_propagated_sound(block, peers, list.drop_last(), topology);
        lemma_propagated_sound(
            all_propagated(block, list.drop_last(), topology),
            peers,
            list.last(),
            topology,
        );
    }
}

proof fn lemma_reformed_sound(block: Block, peers: Seq<(PeerId, Acquaintance)>, reform: Reform)
    requires
        block_sound(block, peers),
    ensures
        block_sound(reform.applied(block), peers),
{
    let rerouted = Block { entries: block.entries.map_values(reform.entry_change()), ..block };
    assert forall|k: int| 0 <= k < rerouted.entries.len() implies entry_sound(
        rerouted.knowledge,
        #[trigger] rerouted.entries[k],
    ) by {
        assert(entry_sound(block.knowledge, block.entries[k]));
        assert forall|j: int| 0 <= j < rerouted.entries[k].approvals.len() implies has_message(
            rerouted.knowledge,
            PendingMessage::Approval(#[trigger] rerouted.entries[k].approvals[j]),
        ) by {
            assert(has_message(block.knowledge, PendingMessage::Approval(block.entries[k].approvals[j])));
        }
    }
    lemma_same_distinct(block.entries, rerouted.entries);
    assert(same_but_memories(rerouted, rerouted.unsent()));
    lemma_memories_sound(rerouted, rerouted.unsent(), peers);
}

/// Whether none of some entries is about the same as an assignment.
pub open spec fn is_new_to(entries: Seq<Entry>, assignment: Assignment) -> bool {
    forall|k: int|
        0 <= k < entries.len() ==> assignment_subject((#[trigger] entries[k]).assignment) != assignment_subject(
            assignment,
        )
}

/// An assignment that the node does not have is new to its entries.
proof fn lemma_unknown_is_new(block: Block, peers: Seq<(PeerId, Acquaintance)>, assignment: Assignment)
    requires
        block_sound(block, peers),
        !has_message(block.knowledge, PendingMessage::Assignment(assignment)),
    ensures
        is_new_to(block.entries, assignment),
{
    assert forall|k: int| 0 <= k < block.entries.len() implies assignment_subject(
        (#[trigger] block.entries[k]).assignment,
    ) != assignment_subject(assignment) by {
        assert(entry_sound(block.knowledge, block.entries[k]));
    }
}

proof fn lemma_circulated_assignment_sound(
    block: Block,
    peers: Seq<(PeerId, Acquaintance)>,
    source: Option<PeerId>,
    assignment: Assignment,
    topology: Option<Outlook>,
    n_peers_total: nat,
    luck: Luck,
)
    requires
        block_sound(block, peers),
        has_message(block.knowledge, PendingMessage::Assignment(assignment)),
        is_new_to(block.entries, assignment),
    ensures
        block_sound(
            block.circulated_assignment(source, assignment, topology, n_peers_total, luck).block,
            peers,
        ),
{
    let passed = block.circulated_assignment(source, assignment, topology, n_peers_total, luck);
    let sent = block.after_sent(passed.receivers, assignment_subject(assignment), MessageKind::Assignment);
    let next = passed.block;
    assert(same_but_memories(block, sent));
    lemma_memories_sound(block, sent, peers);
    few_peers_are_chosen(
        block.peers(),
        eligible(source, topology, next.entries.last().routing),
        n_peers_total,
        luck,
    );
    assert forall|k: int| 0 <= k < next.entries.len() implies entry_sound(
        next.knowledge,
        #[trigger] next.entries[k],
    ) by {
        if k < block.entries.len() {
            assert(next.entries[k] == block.entries[k]);
        }
    }
    assert forall|a: int, b: int| 0 <= a < b < next.entries.len() implies assignment_subject(
        (#[trigger] next.entries[a]).assignment,
    ) != assignment_subject((#[trigger] next.entries[b]).assignment) by {
        assert(next.entries[a] == block.entries[a]);
        if b < block.entries.len() {
            assert(next.entries[b] == block.entries[b]);
        }
    }
}

proof fn lemma_circulated_approval_sound(
    block: Block,
    peers: Seq<(PeerId, Acquaintance)>,
    source: Option<PeerId>,
    vote: IndirectSignedApprovalVoteV2,
    topology: Option<Outlook>,
)
    requires
        block_sound(block, peers),
        has_message(block.knowledge, PendingMessage::Approval(vote)),
    ensures
        block_sound(block.circulated_approval(source, vote, topology).0, peers),
{
    let (next, receivers) = block.circulated_approval(source, vote, topology);
    let sent = block.after_sent(receivers, approval_subject(vote), MessageKind::Approval);
    assert(same_but_memories(block, sent));
    lemma_memories_sound(block, sent, peers);
    assert forall|k: int| 0 <= k < next.entries.len() implies entry_sound(
        next.knowledge,
        #[trigger] next.entries[k],
    ) by {
        let entry = block.entries[k];
        assert(entry_sound(block.knowledge, entry));
        assert(next.entries[k] == with_vote(vote)(entry));
        assert forall|j: int| 0 <= j < next.entries[k].approvals.len() implies has_message(
            next.knowledge,
            PendingMessage::Approval(#[trigger] next.entries[k].approvals[j]),
        ) by {
            if j < entry.approvals.len() {
                assert(has_message(block.knowledge, PendingMessage::Approval(entry.approvals[j])));
            }
        }
    }
    lemma_same_distinct(block.entries, next.entries);
}

/// Choosing entries for a peer keeps them sound.
proof fn lemma_selected_sound(
    known: Known,
    entries: Seq<Entry>,
    peer: PeerId,
    topology: Option<Outlook>,
    n_peers_total: nat,
    luck: Luck,
)
    requires
        forall|k: int| 0 <= k < entries.len() ==> entry_sound(known, #[trigger] entries[k]),
    ensures
        ({
            let selected = select_entries(entries, peer, topology, n_peers_total, luck).entries;
            &&& same_assignments(entries, selected)
            &&& forall|k: int| 0 <= k < selected.len() ==> entry_sound(known, #[trigger] selected[k])
        }),
    decreases entries.len(),
{
    if entries.len() > 0 {
        let short = entries.drop_last();
        assert forall|k: int| 0 <= k < short.len() implies entry_sound(known, #[trigger] short[k]) by {
            assert(entry_sound(known, entries[k]));
        }
        lemma_selected_sound(known, short, peer, topology, n_peers_total, luck);
        let rest = select_entries(short, peer, topology, n_peers_total, luck).entries;
        let selected = select_entries(entries, peer, topology, n_peers_total, luck).entries;
        let last = entries.len() - 1;
        assert(entry_sound(known, entries[last]));
        assert forall|k: int| 0 <= k < entries.len() implies (#[trigger] selected[k]).assignment
            == entries[k].assignment by {
            if k < last {
                assert(selected[k] == rest[k]);
                assert(rest[k].assignment == short[k].assignment);
            }
        }
        assert forall|k: int| 0 <= k < selected.len() implies entry_sound(known, #[trigger] selected[k]) by {
            if k < last {
                assert(selected[k] == rest[k]);
            } else {
                let entry = selected[last];
                assert(entry.approvals == entries[last].approvals);
                assert forall|j: int| 0 <= j < entry.approvals.len() implies has_message(
                    known,
                    PendingMessage::Approval(#[trigger] entry.approvals[j]),
                ) by {
                    assert(has_message(known, PendingMessage::Approval(entries[last].approvals[j])));
                }
            }
        }
    }
}

proof fn lemma_greeted_sound(
    block: Block,
    peers: Seq<(PeerId, Acquaintance)>,
    peer: PeerId,
    topology: Option<Outlook>,
    n_peers_total: nat,
    luck: Luck,
)
    requires
        block_sound(block, peers),
        !block.aware(peer),
        dict::has_key(peers, peer),
    ensures
        block_sound(block.greeted(peer, topology, n_peers_total, luck).block, peers),
{
    let next = block.greeted(peer, topology, n_peers_total, luck).block;
    lemma_selected_sound(block.knowledge, block.entries, peer, topology, n_peers_total, luck);
    lemma_same_distinct(block.entries, next.entries);
    let memory = next.known_by.last().1;
    dict::lemma_dict_push(block.known_by, peer, memory);
    assert(next.known_by =~= block.known_by.push((peer, memory)));
    assert forall|i: int| 0 <= i < next.known_by.len() implies dict::has_key(
        peers,
        (#[trigger] next.known_by[i]).0,
    ) by {
        if i < block.known_by.len() {
            assert(next.known_by[i] == block.known_by[i]);
        }
    }
}

proof fn lemma_without_sound(
    block: Block,
    peers: Seq<(PeerId, Acquaintance)>,
    peer: PeerId,
    others: Seq<(PeerId, Acquaintance)>,
)
    requires
        block_sound(block, peers),
        forall|p: PeerId| p != peer && dict::has_key(peers, p) ==> #[trigger] dict::has_key(others, p),
    ensures
        block_sound(block.without(peer), others),
{
    let next = block.without(peer);
    if block.aware(peer) {
        let at = dict::index_of_key(block.known_by, peer);
        assert(block.known_by[at].0 == peer);
        dict::lemma_dict_remove(block.known_by, at);
        assert forall|i: int| 0 <= i < next.known_by.len() implies dict::has_key(
            others,
            (#[trigger] next.known_by[i]).0,
        ) by {
            let j = if i < at { i } else { i + 1 };
            assert(next.known_by[i] == block.known_by[j]);
            if j < at {
                assert(block.known_by[j].0 != block.known_by[at].0);
            } else {
                assert(block.known_by[at].0 != block.known_by[j].0);
            }
            assert(dict::has_key(peers, block.known_by[j].0));
        }
    } else {
        assert forall|i: int| 0 <= i < next.known_by.len() implies dict::has_key(
            others,
            (#[trigger] next.known_by[i]).0,
        ) by {
            assert(block.known_by[i].0 != peer);
            assert(dict::has_key(peers, block.known_by[i].0));
        }
    }
}

// Lists of blocks.

/// Changing a block keeps the others.
pub proof fn lemma_with_block_coherent(node: Node, hash: BlockHash, block: Block)
    requires
        node.sound(),
        node.has_block(hash),
        block_sound(block, node.peers),
    ensures
        node.with_block(hash, block).sound(),
        node.coherent() ==> node.with_block(hash, block).coherent(),
        node.with_block(hash, block).has_block(hash),
        node.with_block(hash, block).block(hash) == block,
        forall|h: BlockHash| #[trigger] node.with_block(hash, block).has_block(h) <==> node.has_block(h),
{
    let i = dict::index_of_key(node.blocks, hash);
    assert(node.blocks[i].0 == hash);
    let next = node.with_block(hash, block);
    dict::lemma_dict_update(node.blocks, i, block);
    assert(next.blocks =~= node.blocks.update(i, (node.blocks[i].0, block)));
    assert(next.blocks[i].0 == hash);
    dict::lemma_dict_at(next.blocks, i);
    assert forall|h: BlockHash| #[trigger] next.has_block(h) <==> node.has_block(h) by {
        if next.has_block(h) {
            let j = dict::index_of_key(next.blocks, h);
            assert(node.blocks[j].0 == h);
        }
        if node.has_block(h) {
            let j = dict::index_of_key(node.blocks, h);
            assert(next.blocks[j].0 == h);
        }
    }
}

/// A known block is sound.
pub proof fn lemma_block_sound(node: Node, hash: BlockHash)
    requires
        node.sound(),
        node.has_block(hash),
    ensures
        block_sound(node.block(hash), node.peers),
{
    let i = dict::index_of_key(node.blocks, hash);
    assert(node.blocks[i].0 == hash);
}

/// Changes of reputation concern nothing else.
pub proof fn lemma_reported_all_frame(node: Node, peer: PeerId, reps: Seq<Rep>)
    ensures
        ({
            let end = node.reported_all(peer, reps);
            end == (Node { standing: end.standing, out: end.out, ..node })
        }),
    decreases reps.len(),
{
    if reps.len() > 0 {
        lemma_reported_all_frame(node, peer, reps.drop_last());
    }
}

proof fn lemma_assignment_circulated_coherent(node: Node, source: Option<PeerId>, assignment: Assignment)
    requires
        node.coherent(),
        node.has_block(assignment.cert.block_hash),
        has_message(
            node.block(assignment.cert.block_hash).knowledge,
            PendingMessage::Assignment(assignment),
        ),
        is_new_to(node.block(assignment.cert.block_hash).entries, assignment),
    ensures
        node.assignment_circulated(source, assignment).coherent(),
        node.assignment_circulated(source, assignment).awaiting == node.awaiting,
        node.assignment_circulated(source, assignment).tasks == node.tasks,
{
    let hash = assignment.cert.block_hash;
    let block = node.block(hash);
    lemma_block_sound(node, hash);
    lemma_circulated_assignment_sound(
        block,
        node.peers,
        source,
        assignment,
        node.topology_of(block.session),
        node.peers.len(),
        node.luck,
    );
    let passed = block.circulated_assignment(
        source,
        assignment,
        node.topology_of(block.session),
        node.peers.len(),
        node.luck,
    );
    lemma_with_block_coherent(node, hash, passed.block);
}

proof fn lemma_approval_circulated_coherent(node: Node, source: Option<PeerId>, vote: IndirectSignedApprovalVoteV2)
    requires
        node.coherent(),
        node.has_block(vote.block_hash),
        has_message(node.block(vote.block_hash).knowledge, PendingMessage::Approval(vote)),
    ensures
        node.approval_circulated(source, vote).coherent(),
        node.approval_circulated(source, vote).awaiting == node.awaiting,
        node.approval_circulated(source, vote).tasks == node.tasks,
{
    let hash = vote.block_hash;
    let block = node.block(hash);
    lemma_block_sound(node, hash);
    lemma_circulated_approval_sound(block, node.peers, source, vote, node.topology_of(block.session));
    let (passed, receivers) = block.circulated_approval(source, vote, node.topology_of(block.session));
    lemma_with_block_coherent(node, hash, passed);
}

/// Screening a message keeps a block sound.
proof fn lemma_screened_sound(
    block: Block,
    peers: Seq<(PeerId, Acquaintance)>,
    peer: PeerId,
    subject: MessageSubject,
    kind: MessageKind,
)
    requires
        block_sound(block, peers),
    ensures
        block_sound(block.screened(peer, subject, kind).block, peers),
{
    lemma_received_sound(block, peers, peer, subject, kind);
}

/// Receiving a message keeps the node's memory coherent.
proof fn lemma_received_coherent(node: Node, peer: PeerId, message: PendingMessage)
    requires
        node.coherent(),
    ensures
        node.performed(Task::Import(peer, message)).coherent(),
        node.performed(Task::Import(peer, message)).tasks == node.tasks,
        node.awaiting is None ==> node.performed(Task::Import(peer, message)).awaits_news(),
{
    let hash = message.about();
    if node.has_block(hash) {
        lemma_block_sound(node, hash);
        let (subject, kind) = match message {
            PendingMessage::Assignment(assignment) => (assignment_subject(assignment), MessageKind::Assignment),
            PendingMessage::Approval(vote) => (approval_subject(vote), MessageKind::Approval),
        };
        let screening = node.block(hash).screened(peer, subject, kind);
        lemma_screened_sound(node.block(hash), node.peers, peer, subject, kind);
        lemma_with_block_coherent(node, hash, screening.block);
        lemma_reported_all_frame(node.with_block(hash, screening.block), peer, screening.reports);
    }
}

/// The outcome of a check keeps the node's memory coherent.
proof fn lemma_assignment_judged_coherent(
    node: Node,
    peer: PeerId,
    assignment: Assignment,
    result: AssignmentCheckResult,
)
    requires
        node.coherent(),
        node.has_block(assignment.cert.block_hash) ==> !has_message(
            node.block(assignment.cert.block_hash).knowledge,
            PendingMessage::Assignment(assignment),
        ),
    ensures
        node.assignment_judged(peer, assignment, result).coherent(),
        node.assignment_judged(peer, assignment, result).awaiting == node.awaiting,
        node.assignment_judged(peer, assignment, result).tasks == node.tasks,
{
    let hash = assignment.cert.block_hash;
    let subject = assignment_subject(assignment);
    let kind = MessageKind::Assignment;
    if node.has_block(hash) {
        lemma_block_sound(node, hash);
        let block = node.block(hash);
        match result {
            AssignmentCheckResult::Accepted => {
                let scored = node.reported(peer, BENEFIT_VALID_MESSAGE_FIRST);
                lemma_unknown_is_new(block, node.peers, assignment);
                lemma_learned_sound(block, node.peers, subject, kind);
                let known = block.after_learned(subject, kind);
                lemma_received_sound(known, node.peers, peer, subject, kind);
                let next = known.after_received(peer, subject, kind);
                lemma_with_block_coherent(scored, hash, next);
                lemma_assignment_circulated_coherent(scored.with_block(hash, next), Some(peer), assignment);
            },
            AssignmentCheckResult::AcceptedDuplicate => {
                lemma_received_sound(block, node.peers, peer, subject, kind);
                lemma_with_block_coherent(node, hash, block.after_received(peer, subject, kind));
            },
            _ => {},
        }
    }
}

/// The outcome of a check keeps the node's memory coherent.
proof fn lemma_approval_judged_coherent(
    node: Node,
    peer: PeerId,
    vote: IndirectSignedApprovalVoteV2,
    result: ApprovalCheckResult,
)
    requires
        node.coherent(),
    ensures
        node.approval_judged(peer, vote, result).coherent(),
        node.approval_judged(peer, vote, result).awaiting == node.awaiting,
        node.approval_judged(peer, vote, result).tasks == node.tasks,
{
    let hash = vote.block_hash;
    let subject = approval_subject(vote);
    let kind = MessageKind::Approval;
    if node.has_block(hash) {
        lemma_block_sound(node, hash);
        let block = node.block(hash);
        if result is Accepted {
            let scored = node.reported(peer, BENEFIT_VALID_MESSAGE_FIRST);
            lemma_learned_sound(block, node.peers, subject, kind);
            let known = block.after_learned(subject, kind);
            lemma_received_sound(known, node.peers, peer, subject, kind);
            let next = known.after_received(peer, subject, kind);
            lemma_with_block_coherent(scored, hash, next);
            lemma_approval_circulated_coherent(scored.with_block(hash, next), Some(peer), vote);
        }
    }
}

/// The node's own assignments keep its memory coherent.
proof fn lemma_assignment_distributed_coherent(node: Node, assignment: Assignment)
    requires
        node.coherent(),
    ensures
        node.assignment_distributed(assignment).coherent(),
        node.assignment_distributed(assignment).awaiting == node.awaiting,
        node.assignment_distributed(assignment).tasks == node.tasks,
{
    let hash = assignment.cert.block_hash;
    let known = PendingMessage::Assignment(assignment);
    if node.has_block(hash) && !has_message(node.block(hash).knowledge, known) {
        let subject = assignment_subject(assignment);
        lemma_block_sound(node, hash);
        lemma_unknown_is_new(node.block(hash), node.peers, assignment);
        lemma_learned_sound(node.block(hash), node.peers, subject, MessageKind::Assignment);
        let next = node.block(hash).after_learned(subject, MessageKind::Assignment);
        lemma_with_block_coherent(node, hash, next);
        lemma_assignment_circulated_coherent(node.with_block(hash, next), None, assignment);
    }
}

/// The node's own votes keep its memory coherent.
proof fn lemma_approval_distributed_coherent(node: Node, vote: IndirectSignedApprovalVoteV2)
    requires
        node.coherent(),
    ensures
        node.approval_distributed(vote).coherent(),
        node.approval_distributed(vote).awaiting == node.awaiting,
        node.approval_distributed(vote).tasks == node.tasks,
{
    let hash = vote.block_hash;
    if node.has_block(hash) {
        let subject = approval_subject(vote);
        lemma_block_sound(node, hash);
        lemma_learned_sound(node.block(hash), node.peers, subject, MessageKind::Approval);
        let next = node.block(hash).after_learned(subject, MessageKind::Approval);
        lemma_with_block_coherent(node, hash, next);
        lemma_approval_circulated_coherent(node.with_block(hash, next), None, vote);
    }
}

// Groups of blocks.

/// Whether two lists of blocks are about the same blocks, and the second one is sound.
pub open spec fn kept_sound(
    was: Seq<(BlockHash, Block)>,
    now: Seq<(BlockHash, Block)>,
    peers: Seq<(PeerId, Acquaintance)>,
) -> bool {
    &&& now.len() == was.len()
    &&& forall|i: int|
        0 <= i < was.len() ==> (#[trigger] now[i]).0 == was[i].0 && block_sound(now[i].1, peers)
}

/// Changing blocks one by one keeps the node's memory coherent.
proof fn lemma_blocks_changed_coherent(node: Node, next: Node)
    requires
        node.coherent(),
        kept_sound(node.blocks, next.blocks, next.peers),
        dict::keys_unique(next.peers),
        next.pending == node.pending,
        next.topologies == node.topologies,
        next.awaiting == node.awaiting,
        next.outdated == node.outdated,
    ensures
        next.coherent(),
        forall|h: BlockHash| #[trigger] next.has_block(h) <==> node.has_block(h),
{
    assert forall|i: int, j: int| 0 <= i < j < next.blocks.len() implies #[trigger] next.blocks[i].0
        != #[trigger] next.blocks[j].0 by {
        assert(node.blocks[i].0 != node.blocks[j].0);
    }
    assert forall|h: BlockHash| #[trigger] next.has_block(h) <==> node.has_block(h) by {
        if next.has_block(h) {
            let j = dict::index_of_key(next.blocks, h);
            assert(next.blocks[j].0 == h);
            assert(node.blocks[j].0 == h);
        }
        if node.has_block(h) {
            let j = dict::index_of_key(node.blocks, h);
            assert(node.blocks[j].0 == h);
            assert(next.blocks[j].0 == h);
        }
    }
}

proof fn lemma_reformed_coherent(node: Node, scope: Scope, reform: Reform)
    requires
        node.coherent(),
    ensures
        node.reformed(scope, reform).coherent(),
        node.reformed(scope, reform).awaiting == node.awaiting,
        node.reformed(scope, reform).tasks == node.tasks,
{
    let changed = Node { blocks: node.blocks.map_values(reform.block_change(scope)), ..node };
    assert forall|i: int| 0 <= i < node.blocks.len() implies (#[trigger] changed.blocks[i]).0 == node.blocks[i].0
        && block_sound(changed.blocks[i].1, changed.peers) by {
        assert(block_sound(node.blocks[i].1, node.peers));
        lemma_reformed_sound(node.blocks[i].1, node.peers, reform);
    }
    lemma_blocks_changed_coherent(node, changed);
    let end = changed.propagated(scope);
    changed.lemma_propagated_at(scope);
    assert forall|i: int| 0 <= i < changed.blocks.len() implies (#[trigger] end.blocks[i]).0 == changed.blocks[i].0
        && block_sound(end.blocks[i].1, end.peers) by {
        assert(block_sound(changed.blocks[i].1, changed.peers));
        lemma_all_propagated_sound(
            changed.blocks[i].1,
            changed.peers,
            changed.peer_ids(),
            changed.topology_of(changed.blocks[i].1.session),
        );
    }
    lemma_blocks_changed_coherent(changed, end);
}

proof fn lemma_aggression_coherent(node: Node, resend: bool)
    requires
        node.coherent(),
    ensures
        node.aggression_enabled(resend).coherent(),
        node.aggression_enabled(resend).awaiting == node.awaiting,
        node.aggression_enabled(resend).tasks == node.tasks,
{
    if let Some(period) = node.config.resend_unfinalized_period {
        lemma_reformed_coherent(
            node,
            Scope::Aged { newest: aggression::newest(node.blocks), period },
            Reform::Resend,
        );
    }
    let middle = if resend {
        node.resent()
    } else {
        node
    };
    lemma_reformed_coherent(
        middle,
        Scope::Number(aggression::oldest(middle.blocks)),
        Reform::Escalate {
            own_to_all: aggression::reached(middle.config.l1_threshold, middle.lag),
            others_to_grid: aggression::reached(middle.config.l2_threshold, middle.lag),
        },
    );
}

proof fn lemma_topology_coherent(node: Node, session: SessionIndex, layout: Layout, local: Option<ValidatorIndex>)
    requires
        node.coherent(),
    ensures
        node.topology_learned(session, layout, local).coherent(),
        node.topology_learned(session, layout, local).awaiting == node.awaiting,
        node.topology_learned(session, layout, local).tasks == node.tasks,
{
    if let Some(validator) = local {
        let seen = if dict::has_key(node.topologies, session) {
            node
        } else {
            Node { topologies: node.topologies.push((session, layout.seen_by(validator))), ..node }
        };
        if !dict::has_key(node.topologies, session) {
            dict::lemma_dict_push(node.topologies, session, layout.seen_by(validator));
        }
        let grid = seen.topologies[dict::index_of_key(seen.topologies, session)].1.grid;
        lemma_reformed_coherent(seen, Scope::Session(session), Reform::Resolve(grid));
    }
}

// Peers.

proof fn lemma_walked_sound(tour: Tour, peer: PeerId, finalized_number: BlockNumber, from: BlockHash)
    requires
        tour.node.sound(),
        tour.node.has_peer(peer),
    ensures
        tour.walked(peer, finalized_number, from).node.sound(),
        tour.walked(peer, finalized_number, from).node.has_peer(peer),
    decreases unaware(tour.node.blocks, peer),
{
    if !tour.ends_at(peer, finalized_number, from) {
        tour.lemma_greeted(peer, finalized_number, from);
        let next = tour.greeted(peer, from);
        let block = tour.node.block(from);
        lemma_block_sound(tour.node, from);
        lemma_greeted_sound(
            block,
            tour.node.peers,
            peer,
            tour.node.topology_of(block.session),
            tour.node.peers.len(),
            tour.node.luck,
        );
        let greeting = block.greeted(
            peer,
            tour.node.topology_of(block.session),
            tour.node.peers.len(),
            tour.node.luck,
        );
        lemma_with_block_coherent(tour.node, from, greeting.block);
        lemma_walked_sound(next, peer, finalized_number, block.parent_hash);
    }
}

proof fn lemma_toured_sound(tour: Tour, peer: PeerId, finalized_number: BlockNumber, heads: Seq<BlockHash>)
    requires
        tour.node.sound(),
        tour.node.has_peer(peer),
    ensures
        tour.toured(peer, finalized_number, heads).node.sound(),
        tour.toured(peer, finalized_number, heads).node.has_peer(peer),
    decreases heads.len(),
{
    if heads.len() > 0 {
        lemma_toured_sound(tour, peer, finalized_number, heads.drop_last());
        lemma_walked_sound(
            tour.toured(peer, finalized_number, heads.drop_last()),
            peer,
            finalized_number,
            heads.last(),
        );
    }
}

proof fn lemma_unified_sound(node: Node, peer: PeerId, view: Horizon)
    requires
        node.sound(),
        node.has_peer(peer),
    ensures
        node.unified(peer, view).sound(),
        node.coherent() ==> node.unified(peer, view).coherent(),
        node.unified(peer, view).pending == node.pending,
        forall|h: BlockHash| #[trigger] node.unified(peer, view).has_block(h) <==> node.has_block(h),
        node.unified(peer, view).awaiting == node.awaiting,
        node.unified(peer, view).tasks == node.tasks,
        node.unified(peer, view).peers == node.peers,
{
    let tour = Tour { node, assignments: Seq::empty(), votes: Seq::empty() };
    lemma_toured_sound(tour, peer, view.finalized_number, view.heads);
    node.lemma_unified_frame(peer, view);
    let end = node.unified(peer, view);
    assert forall|h: BlockHash| #[trigger] end.has_block(h) <==> node.has_block(h) by {
        if end.has_block(h) {
            let j = dict::index_of_key(end.blocks, h);
            assert(node.blocks[j].0 == end.blocks[j].0);
        }
        if node.has_block(h) {
            let j = dict::index_of_key(node.blocks, h);
            assert(node.blocks[j].0 == end.blocks[j].0);
        }
    }
}

proof fn lemma_connected_coherent(node: Node, peer: PeerId, version: ValidationVersion)
    requires
        node.coherent(),
    ensures
        node.peer_connected(peer, version).coherent(),
{
    if !node.has_peer(peer) {
        let next = node.peer_connected(peer, version);
        dict::lemma_dict_push(node.peers, peer, next.peers.last().1);
        assert(next.peers =~= node.peers.push((peer, next.peers.last().1)));
        assert forall|i: int| 0 <= i < node.blocks.len() implies (#[trigger] next.blocks[i]).0 == node.blocks[i].0
            && block_sound(next.blocks[i].1, next.peers) by {
            let block = node.blocks[i].1;
            assert(block_sound(block, node.peers));
            assert forall|k: int| 0 <= k < block.known_by.len() implies dict::has_key(
                next.peers,
                (#[trigger] block.known_by[k]).0,
            ) by {
                let j = dict::index_of_key(node.peers, block.known_by[k].0);
                assert(node.peers[j].0 == block.known_by[k].0);
                assert(next.peers[j].0 == block.known_by[k].0);
            }
        }
        lemma_blocks_changed_coherent(node, next);
    }
}

proof fn lemma_blocks_without_sound(
    node: Node,
    peer: PeerId,
    from: BlockNumber,
    upto: BlockNumber,
    others: Seq<(PeerId, Acquaintance)>,
)
    requires
        node.coherent(),
        forall|p: PeerId| p != peer && node.has_peer(p) ==> #[trigger] dict::has_key(others, p),
        node.has_peer(peer) && !dict::has_key(others, peer) ==> from == 0 && upto == BlockNumber::MAX,
    ensures
        kept_sound(node.blocks, blocks_without(node.blocks, peer, from, upto), others),
{
    let next = blocks_without(node.blocks, peer, from, upto);
    assert forall|i: int| 0 <= i < node.blocks.len() implies (#[trigger] next[i]).0 == node.blocks[i].0
        && block_sound(next[i].1, others) by {
        let block = node.blocks[i].1;
        assert(block_sound(block, node.peers));
        assert forall|p: PeerId| p != peer && dict::has_key(node.peers, p) implies #[trigger] dict::has_key(
            others,
            p,
        ) by {
            assert(node.has_peer(p));
        }
        lemma_without_sound(block, node.peers, peer, others);
        if !(from <= block.number <= upto) {
            assert forall|k: int| 0 <= k < block.known_by.len() implies dict::has_key(
                others,
                (#[trigger] block.known_by[k]).0,
            ) by {
                assert(node.has_peer(block.known_by[k].0));
            }
        }
    }
}

proof fn lemma_disconnected_coherent(node: Node, peer: PeerId)
    requires
        node.coherent(),
    ensures
        node.peer_disconnected(peer).coherent(),
        !node.peer_disconnected(peer).has_peer(peer),
{
    let next = node.peer_disconnected(peer);
    if node.has_peer(peer) {
        let at = dict::index_of_key(node.peers, peer);
        assert(node.peers[at].0 == peer);
        dict::lemma_dict_remove(node.peers, at);
        assert forall|p: PeerId| p != peer && node.has_peer(p) implies #[trigger] dict::has_key(next.peers, p) by {
            assert(dict::dict(node.peers).remove(peer).contains_key(p));
        }
        assert(!dict::dict(node.peers).remove(peer).contains_key(peer));
        assert(!dict::has_key(next.peers, peer)) by {
            if dict::has_key(next.peers, peer) {
                assert(dict::dict(next.peers).contains_key(peer));
            }
        }
    }
    lemma_blocks_without_sound(node, peer, 0, BlockNumber::MAX, next.peers);
    lemma_blocks_changed_coherent(node, next);
}

proof fn lemma_view_changed_coherent(node: Node, peer: PeerId, view: Horizon)
    requires
        node.coherent(),
    ensures
        node.peer_view_changed(peer, view).coherent(),
        node.peer_view_changed(peer, view).awaiting == node.awaiting,
        node.peer_view_changed(peer, view).tasks == node.tasks,
{
    if node.has_peer(peer) {
        let was = node.peer(peer);
        let at = dict::index_of_key(node.peers, peer);
        assert(node.peers[at].0 == peer);
        let value = Acquaintance { view, ..was };
        dict::lemma_dict_update(node.peers, at, value);
        let next = Node {
            peers: node.peers.update(at, (peer, value)),
            blocks: blocks_without(node.blocks, peer, was.view.finalized_number, view.finalized_number),
            ..node
        };
        assert(next.peers =~= node.peers.update(at, (node.peers[at].0, value)));
        assert forall|p: PeerId| node.has_peer(p) implies #[trigger] dict::has_key(next.peers, p) by {
            let j = dict::index_of_key(node.peers, p);
            assert(next.peers[j].0 == p);
        }
        assert(node.has_peer(peer) && dict::has_key(next.peers, peer));
        lemma_blocks_without_sound(
            node,
            peer,
            was.view.finalized_number,
            view.finalized_number,
            next.peers,
        );
        lemma_blocks_changed_coherent(node, next);
        lemma_unified_sound(next, peer, view);
    }
}

// The chain.

/// A block that comes in is sound.
pub proof fn lemma_arrival_sound(node: Node, metas: Seq<BlockApprovalMeta>)
    requires
        node.sound(),
    ensures
        ({
            let end = node.arrival(metas).node;
            &&& end.sound()
            &&& end == (Node { blocks: end.blocks, ..node })
            &&& forall|h: BlockHash| node.has_block(h) ==> #[trigger] end.has_block(h)
        }),
    decreases metas.len(),
{
    if metas.len() > 0 {
        lemma_arrival_sound(node, metas.drop_last());
        let rest = node.arrival(metas.drop_last()).node;
        let meta = metas.last();
        if !rest.has_block(meta.hash) {
            let end = rest.with_new_block(meta);
            let block = end.blocks.last().1;
            dict::lemma_dict_push(rest.blocks, meta.hash, block);
            assert(end.blocks =~= rest.blocks.push((meta.hash, block)));
            assert forall|i: int| 0 <= i < end.blocks.len() implies block_sound(
                (#[trigger] end.blocks[i]).1,
                end.peers,
            ) by {
                if i < rest.blocks.len() {
                    assert(end.blocks[i] == rest.blocks[i]);
                }
            }
            assert forall|h: BlockHash| rest.has_block(h) implies #[trigger] end.has_block(h) by {
                let j = dict::index_of_key(rest.blocks, h);
                assert(end.blocks[j].0 == h);
            }
        }
    }
}

/// Bringing peers up to date keeps what the node remembers sound.
pub proof fn lemma_introduced_sound(node: Node, hashes: Seq<BlockHash>, peers: Seq<(PeerId, Acquaintance)>)
    requires
        node.sound(),
        forall|i: int| 0 <= i < peers.len() ==> node.has_peer((#[trigger] peers[i]).0),
    ensures
        ({
            let end = node.introduced(hashes, peers);
            &&& end.sound()
            &&& end.peers == node.peers
            &&& end.pending == node.pending
            &&& end.tasks == node.tasks
            &&& end.awaiting == node.awaiting
            &&& forall|h: BlockHash| #[trigger] end.has_block(h) <==> node.has_block(h)
        }),
    decreases peers.len(),
{
    if peers.len() > 0 {
        let short = peers.drop_last();
        assert forall|i: int| 0 <= i < short.len() implies node.has_peer((#[trigger] short[i]).0) by {
            assert(node.has_peer(peers[i].0));
        }
        lemma_introduced_sound(node, hashes, short);
        let (peer, known) = peers.last();
        assert(node.has_peer(peers[peers.len() - 1].0));
        lemma_unified_sound(
            node.introduced(hashes, short),
            peer,
            Horizon { heads: known.view.heads.filter(among(hashes)), ..known.view },
        );
    }
}

pub proof fn lemma_blocks_arrived_coherent(node: Node, metas: Seq<BlockApprovalMeta>)
    requires
        node.coherent(),
    ensures
        node.blocks_arrived(metas).coherent(),
        node.blocks_arrived(metas).awaiting == node.awaiting,
{
    lemma_arrival_sound(node, metas);
    let arrival = node.arrival(metas);
    assert forall|i: int| 0 <= i < node.peers.len() implies arrival.node.has_peer((#[trigger] node.peers[i]).0) by {}
    lemma_introduced_sound(arrival.node, arrival.hashes, node.peers);
    let introduced = arrival.node.introduced(arrival.hashes, node.peers);
    let keep = missing_from(introduced.blocks);
    dict::lemma_filter_keys(introduced.pending, keep);
    lists::lemma_filter_satisfies(introduced.pending, keep);
    let settled = introduced.pending_released();
    assert forall|i: int| 0 <= i < settled.pending.len() implies !settled.has_block(
        (#[trigger] settled.pending[i]).0,
    ) by {
        assert(keep(settled.pending[i]));
    }
}

proof fn lemma_heads_awaited_coherent(node: Node, heads: Seq<BlockHash>)
    requires
        node.coherent(),
    ensures
        node.heads_awaited(heads).coherent(),
        node.heads_awaited(heads) == (Node { pending: node.heads_awaited(heads).pending, ..node }),
    decreases heads.len(),
{
    if heads.len() > 0 {
        lemma_heads_awaited_coherent(node, heads.drop_last());
        let rest = node.heads_awaited(heads.drop_last());
        let end = rest.head_awaited(heads.last());
        if !(rest.has_block(heads.last()) || dict::has_key(rest.pending, heads.last())) {
            dict::lemma_dict_push(rest.pending, heads.last(), Seq::empty());
            assert forall|i: int| 0 <= i < end.pending.len() implies !end.has_block(
                (#[trigger] end.pending[i]).0,
            ) by {
                if i < rest.pending.len() {
                    assert(end.pending[i] == rest.pending[i]);
                }
            }
        }
    }
}

proof fn lemma_our_view_coherent(node: Node, heads: Seq<BlockHash>)
    requires
        node.coherent(),
    ensures
        node.our_view_changed(heads).coherent(),
        node.our_view_changed(heads).awaiting == node.awaiting,
        node.our_view_changed(heads).tasks == node.tasks,
{
    lemma_heads_awaited_coherent(node, heads);
    let awaited = node.heads_awaited(heads);
    let end = node.our_view_changed(heads);
    dict::lemma_filter_keys(awaited.pending, viewed(heads));
    lists::lemma_filter_satisfies(awaited.pending, viewed(heads));
    assert forall|i: int| 0 <= i < end.pending.len() implies !end.has_block((#[trigger] end.pending[i]).0) by {
        let j = choose|j: int| 0 <= j < awaited.pending.len() && awaited.pending[j] == end.pending[i];
        assert(!awaited.has_block(awaited.pending[j].0));
    }
}

proof fn lemma_outdated_bounded(
    outdated: Seq<BlockHash>,
    blocks: Seq<(BlockHash, Block)>,
    finalized_number: BlockNumber,
)
    requires
        outdated.len() <= MAX_RECENT_OUTDATED,
    ensures
        outdated_after(outdated, blocks, finalized_number).len() <= MAX_RECENT_OUTDATED,
    decreases blocks.len(),
{
    if blocks.len() > 0 {
        lemma_outdated_bounded(outdated, blocks.drop_last(), finalized_number);
    }
}

proof fn lemma_finalized_coherent(node: Node, finalized_number: BlockNumber)
    requires
        node.coherent(),
        node.awaiting is None,
    ensures
        node.block_finalized(finalized_number).coherent(),
        node.block_finalized(finalized_number).awaiting is None,
        node.block_finalized(finalized_number).tasks == node.tasks,
{
    let next = node.pruned(finalized_number);
    let keep = above(finalized_number);
    dict::lemma_filter_keys(node.blocks, keep);
    lists::lemma_filter_satisfies(node.blocks, keep);
    lemma_outdated_bounded(node.outdated, node.blocks, finalized_number);
    assert forall|i: int| 0 <= i < next.blocks.len() implies block_sound((#[trigger] next.blocks[i]).1, next.peers) by {
        let j = choose|j: int| 0 <= j < node.blocks.len() && node.blocks[j] == next.blocks[i];
        assert(block_sound(node.blocks[j].1, node.peers));
    }
    assert forall|i: int| 0 <= i < next.pending.len() implies !next.has_block((#[trigger] next.pending[i]).0) by {
        assert(!node.has_block(node.pending[i].0));
    }
    lemma_aggression_coherent(next, false);
}

// Events.

proof fn lemma_stored_coherent(node: Node, peer: PeerId, list: Seq<PendingMessage>)
    requires
        node.coherent(),
    ensures
        node.messages_stored(peer, list).coherent(),
        node.messages_stored(peer, list).awaiting == node.awaiting,
    decreases list.len(),
{
    if list.len() > 0 {
        lemma_stored_coherent(node, peer, list.drop_last());
        let rest = node.messages_stored(peer, list.drop_last());
        let message = list.last();
        let hash = message.about();
        if dict::has_key(rest.pending, hash) {
            let i = dict::index_of_key(rest.pending, hash);
            assert(rest.pending[i].0 == hash);
            let value = rest.pending[i].1.push((peer, message));
            dict::lemma_dict_update(rest.pending, i, value);
            let end = rest.message_stored(peer, message);
            assert(end.pending =~= rest.pending.update(i, (rest.pending[i].0, value)));
            assert forall|j: int| 0 <= j < end.pending.len() implies !end.has_block(
                (#[trigger] end.pending[j]).0,
            ) by {
                assert(!rest.has_block(rest.pending[j].0));
            }
        }
    }
}

proof fn lemma_advanced_coherent(node: Node, tasks: Seq<Task>)
    requires
        node.coherent(),
        node.awaits_news(),
    ensures
        node.advanced(tasks).coherent(),
        node.advanced(tasks).quiet(),
    decreases tasks.len(),
{
    if tasks.len() > 0 && node.awaiting is None {
        let task = tasks[0];
        match task {
            Task::Import(peer, message) => {
                lemma_received_coherent(node, peer, message);
            },
            Task::EnableAggression => {
                lemma_aggression_coherent(node, true);
            },
        }
        lemma_advanced_coherent(node.performed(task), tasks.drop_first());
    }
}

/// Every event keeps the node's memory coherent and leaves nothing undone but what waits for a check.
pub proof fn events_keep_the_node_coherent(node: Node, event: Event)
    requires
        node.coherent(),
        node.awaiting is None,
    ensures
        node.handled(event).coherent(),
        node.handled(event).quiet(),
{
    let next = node.digested(event);
    match event {
        Event::PeerConnected(peer, version) => lemma_connected_coherent(node, peer, version),
        Event::PeerDisconnected(peer) => lemma_disconnected_coherent(node, peer),
        Event::PeerViewChange(peer, view) => lemma_view_changed_coherent(node, peer, view@),
        Event::OurViewChange(view) => lemma_our_view_coherent(node, view@.heads),
        Event::NewGossipTopology(new) => lemma_topology_coherent(
            node,
            new.session,
            new.topology@,
            new.local_index,
        ),
        Event::PeerMessage(peer, message) => {
            let costs = unpacking_costs(message@);
            lemma_reported_all_frame(node, peer, costs);
            lemma_stored_coherent(
                node.reported_all(peer, costs),
                peer,
                unpacked(message@),
            );
        },
        Event::NewBlocks(metas) => lemma_blocks_arrived_coherent(node, metas@),
        Event::DistributeAssignment(assignment) => {
            lemma_assignment_distributed_coherent(node, assignment);
        },
        Event::DistributeApproval(vote) => {
            lemma_approval_distributed_coherent(node, vote);
        },
        Event::ApprovalCheckingLagUpdate(_) => {},
        Event::BlockFinalized(number) => lemma_finalized_coherent(node, number),
        Event::ReputationTick => {},
    }
    assert(next.coherent() && next.awaiting is None);
    lemma_advanced_coherent(Node { tasks: Seq::empty(), ..next }, next.tasks);
}

/// Every check keeps the node's memory coherent and leaves nothing undone but what waits for the next
/// one.
pub proof fn checks_keep_the_node_coherent(
    node: Node,
    assignment_result: AssignmentCheckResult,
    approval_result: ApprovalCheckResult,
)
    requires
        node.coherent(),
        node.quiet(),
    ensures
        node.assignment_checked(assignment_result).coherent(),
        node.assignment_checked(assignment_result).quiet(),
        node.approval_checked(approval_result).coherent(),
        node.approval_checked(approval_result).quiet(),
{
    let idle = Node { awaiting: None, ..node };
    assert(idle.coherent()) by {
        assert forall|i: int| 0 <= i < idle.pending.len() implies !idle.has_block(
            (#[trigger] idle.pending[i]).0,
        ) by {
            assert(!node.has_block(node.pending[i].0));
        }
    }
    match node.awaiting {
        Some((peer, PendingMessage::Assignment(assignment))) => {
            lemma_assignment_judged_coherent(idle, peer, assignment, assignment_result);
            let next = idle.assignment_judged(peer, assignment, assignment_result);
            lemma_advanced_coherent(Node { tasks: Seq::empty(), ..next }, next.tasks);
        },
        Some((peer, PendingMessage::Approval(vote))) => {
            lemma_approval_judged_coherent(idle, peer, vote, approval_result);
            let next = idle.approval_judged(peer, vote, approval_result);
            lemma_advanced_coherent(Node { tasks: Seq::empty(), ..next }, next.tasks);
        },
        None => {},
    }
}

/// A node that remembers nothing is coherent.
pub proof fn fresh_nodes_are_coherent(config: aggression::AggressionConfig, immediate: bool, luck: Luck)
    ensures
        Node::fresh(config, immediate, luck).coherent(),
        Node::fresh(config, immediate, luck).quiet(),
{
}

/// No block is aware of a peer that has disconnected.
pub proof fn disconnected_peers_are_forgotten(node: Node, peer: PeerId, i: int)
    requires
        node.coherent(),
        0 <= i < node.blocks.len(),
    ensures
        !node.peer_disconnected(peer).has_peer(peer),
        node.peer_disconnected(peer).blocks[i].0 == node.blocks[i].0,
        !node.peer_disconnected(peer).blocks[i].1.aware(peer),
{
    let next = node.peer_disconnected(peer);
    lemma_disconnected_coherent(node, peer);
    assert(block_sound(next.blocks[i].1, next.peers));
    if next.blocks[i].1.aware(peer) {
        let k = dict::index_of_key(next.blocks[i].1.known_by, peer);
        assert(next.blocks[i].1.known_by[k].0 == peer);
    }
}

} // verus!
