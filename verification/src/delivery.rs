//! That messages get where they have to, and not more than once.
use crate::aggression::{oldest, reached};
use crate::block::{Block, Entry};
use crate::circulation::routed;
use crate::dict;
use crate::knowledge::{
    approval_subject, assignment_subject, knows, learning_adds_one_message, Known, MessageKind,
    MessageSubject, PeerMemory,
};
use crate::messages::{Assignment, IndirectSignedApprovalVoteV2};
use crate::offers::{routed_entries, Offer};
use crate::primitives::{BlockHash, PeerId, SessionIndex, ValidatorIndex};
use crate::propagation::{parcel, Reform, Scope};
use crate::state::{lookup_topology, Node};
use crate::topology::{Layout, Outlook, RequiredRouting};
use vstd::prelude::*;

verus! {

/// Whether somebody who has all that the first memory holds has all that the second one holds, too, and
/// the second one goes back to the same messages received.
pub open spec fn grown(was: PeerMemory, now: PeerMemory) -> bool {
    &&& now.received == was.received
    &&& forall|subject: MessageSubject, kind: MessageKind|
        was.has(subject, kind) ==> #[trigger] now.has(subject, kind)
}

/// Whether a peer has an assignment and all votes that follow from it.
pub open spec fn has_entry(memory: PeerMemory, entry: Entry) -> bool {
    &&& memory.has(assignment_subject(entry.assignment), MessageKind::Assignment)
    &&& forall|k: int|
        0 <= k < entry.approvals.len() ==> #[trigger] memory.has(
            approval_subject(entry.approvals[k]),
            MessageKind::Approval,
        )
}

proof fn lemma_after_sent(memory: PeerMemory, subject: MessageSubject, kind: MessageKind)
    ensures
        grown(memory, memory.after_sent(subject, kind)),
        memory.after_sent(subject, kind).has(subject, kind),
{
    assert forall|s: MessageSubject, k: MessageKind| memory.has(s, k) implies #[trigger] memory.after_sent(
        subject,
        kind,
    ).has(s, k) by {
        learning_adds_one_message(memory.sent, subject, kind, s, k);
    }
    learning_adds_one_message(memory.sent, subject, kind, subject, kind);
}

proof fn lemma_votes_offered(offer: Offer, votes: Seq<IndirectSignedApprovalVoteV2>)
    ensures
        grown(offer.memory, offer.with_votes(votes).memory),
        offer.with_votes(votes).assignments == offer.assignments,
        forall|k: int|
            0 <= k < votes.len() ==> #[trigger] offer.with_votes(votes).memory.has(
                approval_subject(votes[k]),
                MessageKind::Approval,
            ),
    decreases votes.len(),
{
    if votes.len() > 0 {
        let rest = offer.with_votes(votes.drop_last());
        let end = offer.with_votes(votes);
        let subject = approval_subject(votes.last());
        lemma_votes_offered(offer, votes.drop_last());
        lemma_after_sent(rest.memory, subject, MessageKind::Approval);
        assert(grown(rest.memory, end.memory));
        assert forall|k: int| 0 <= k < votes.len() implies #[trigger] end.memory.has(
            approval_subject(votes[k]),
            MessageKind::Approval,
        ) by {
            if k < votes.len() - 1 {
                assert(votes[k] == votes.drop_last()[k]);
                assert(rest.memory.has(approval_subject(votes.drop_last()[k]), MessageKind::Approval));
            }
        }
    }
}

proof fn lemma_entry_offered(offer: Offer, entry: Entry)
    ensures
        grown(offer.memory, offer.with_entry(entry).memory),
        has_entry(offer.with_entry(entry).memory, entry),
{
    let subject = assignment_subject(entry.assignment);
    let middle = offer.with_assignment(entry.assignment);
    lemma_after_sent(offer.memory, subject, MessageKind::Assignment);
    lemma_votes_offered(middle, entry.approvals);
}

/// Whether messages that are offered do not repeat each other and are new to a peer.
pub open spec fn fresh_assignments(was: PeerMemory, offer: Offer) -> bool {
    &&& forall|i: int|
        0 <= i < offer.assignments.len() ==> {
            &&& !was.has(assignment_subject(#[trigger] offer.assignments[i]), MessageKind::Assignment)
            &&& offer.memory.has(assignment_subject(offer.assignments[i]), MessageKind::Assignment)
        }
    &&& forall|i: int, j: int|
        0 <= i < j < offer.assignments.len() ==> assignment_subject(#[trigger] offer.assignments[i])
            != assignment_subject(#[trigger] offer.assignments[j])
}

/// What offering the messages of some entries comes to: the peer has all of them afterwards and
/// forgets nothing, and every assignment that is sent belongs to one of the entries, is new to the peer
/// and is sent once.
pub proof fn lemma_entries_offered(memory: PeerMemory, entries: Seq<Entry>, picked: Seq<bool>)
    ensures
        ({
            let offer = Offer::nothing(memory).with_entries(entries, picked);
            &&& grown(memory, offer.memory)
            &&& forall|k: int|
                0 <= k < entries.len() && picked[k] ==> has_entry(offer.memory, #[trigger] entries[k])
            &&& fresh_assignments(memory, offer)
            &&& forall|i: int|
                0 <= i < offer.assignments.len() ==> exists|k: int|
                    0 <= k < entries.len() && picked[k] && (#[trigger] entries[k]).assignment
                        == #[trigger] offer.assignments[i]
        }),
    decreases entries.len(),
{
    if entries.len() > 0 {
        let short = entries.drop_last();
        let last = entries.len() - 1;
        let rest = Offer::nothing(memory).with_entries(short, picked);
        let offer = Offer::nothing(memory).with_entries(entries, picked);
        let entry = entries.last();
        lemma_entries_offered(memory, short, picked);
        if picked[last] {
            lemma_entry_offered(rest, entry);
            let middle = rest.with_assignment(entry.assignment);
            lemma_votes_offered(middle, entry.approvals);
            lemma_after_sent(rest.memory, assignment_subject(entry.assignment), MessageKind::Assignment);
            assert(offer.assignments == middle.assignments);
        }
        assert forall|k: int| 0 <= k < entries.len() && picked[k] implies has_entry(
            offer.memory,
            #[trigger] entries[k],
        ) by {
            if k < last {
                assert(entries[k] == short[k]);
                assert(has_entry(rest.memory, short[k]));
            }
        }
        assert forall|i: int| 0 <= i < offer.assignments.len() implies {
            &&& !memory.has(assignment_subject(#[trigger] offer.assignments[i]), MessageKind::Assignment)
            &&& offer.memory.has(assignment_subject(offer.assignments[i]), MessageKind::Assignment)
            &&& exists|k: int|
                0 <= k < entries.len() && picked[k] && (#[trigger] entries[k]).assignment == offer.assignments[i]
        } by {
            if i < rest.assignments.len() {
                assert(offer.assignments[i] == rest.assignments[i]);
                let k = choose|k: int|
                    0 <= k < short.len() && picked[k] && (#[trigger] short[k]).assignment == rest.assignments[i];
                assert(entries[k] == short[k]);
            } else {
                assert(offer.assignments[i] == entry.assignment);
                assert(entries[last].assignment == entry.assignment);
            }
        }
        assert forall|i: int, j: int| 0 <= i < j < offer.assignments.len() implies assignment_subject(
            #[trigger] offer.assignments[i],
        ) != assignment_subject(#[trigger] offer.assignments[j]) by {
            assert(offer.assignments[i] == rest.assignments[i]);
            if j < rest.assignments.len() {
                assert(offer.assignments[j] == rest.assignments[j]);
            }
        }
    }
}

proof fn lemma_votes_in_vain(offer: Offer, votes: Seq<IndirectSignedApprovalVoteV2>)
    requires
        forall|k: int|
            0 <= k < votes.len() ==> #[trigger] offer.memory.has(approval_subject(votes[k]), MessageKind::Approval),
    ensures
        offer.with_votes(votes) == offer,
    decreases votes.len(),
{
    if votes.len() > 0 {
        assert forall|k: int| 0 <= k < votes.drop_last().len() implies #[trigger] offer.memory.has(
            approval_subject(votes.drop_last()[k]),
            MessageKind::Approval,
        ) by {
            assert(offer.memory.has(approval_subject(votes[k]), MessageKind::Approval));
        }
        lemma_votes_in_vain(offer, votes.drop_last());
        assert(offer.memory.has(approval_subject(votes[votes.len() - 1]), MessageKind::Approval));
    }
}

/// Offering messages to a peer that has them comes to nothing.
pub proof fn lemma_entries_in_vain(memory: PeerMemory, entries: Seq<Entry>, picked: Seq<bool>)
    requires
        forall|k: int| 0 <= k < entries.len() && picked[k] ==> has_entry(memory, #[trigger] entries[k]),
    ensures
        Offer::nothing(memory).with_entries(entries, picked) == Offer::nothing(memory),
    decreases entries.len(),
{
    if entries.len() > 0 {
        let short = entries.drop_last();
        assert forall|k: int| 0 <= k < short.len() && picked[k] implies has_entry(memory, #[trigger] short[k]) by {
            assert(has_entry(memory, entries[k]));
        }
        lemma_entries_in_vain(memory, short, picked);
        if picked[entries.len() - 1] {
            assert(has_entry(memory, entries[entries.len() - 1]));
            lemma_votes_in_vain(Offer::nothing(memory), entries.last().approvals);
        }
    }
}

/// What is left of a block when only the memories of peers change.
pub open spec fn same_but_memories(was: Block, now: Block) -> bool {
    &&& now == (Block { known_by: now.known_by, ..was })
    &&& now.known_by.len() == was.known_by.len()
    &&& forall|i: int| 0 <= i < was.known_by.len() ==> #[trigger] was.known_by[i].0 == #[trigger] now.known_by[i].0
}

/// Who is aware of a block does not depend on the memories.
proof fn lemma_same_aware(was: Block, now: Block, peer: PeerId)
    requires
        same_but_memories(was, now),
    ensures
        was.aware(peer) <==> now.aware(peer),
        dict::keys_unique(was.known_by) ==> dict::keys_unique(now.known_by),
{
    if was.aware(peer) {
        let i = dict::index_of_key(was.known_by, peer);
        assert(was.known_by[i].0 == peer);
        assert(now.known_by[i].0 == peer);
    }
    if now.aware(peer) {
        let i = dict::index_of_key(now.known_by, peer);
        assert(now.known_by[i].0 == peer);
        assert(was.known_by[i].0 == peer);
    }
    if dict::keys_unique(was.known_by) {
        assert forall|i: int, j: int| 0 <= i < j < now.known_by.len() implies #[trigger] now.known_by[i].0
            != #[trigger] now.known_by[j].0 by {
            assert(was.known_by[i].0 != was.known_by[j].0);
        }
    }
}

/// Sending a peer the messages about a block that it is owed: afterwards it has all of them, its memory
/// has only grown, and nobody else's has changed.  Each assignment that is sent is one that the topology
/// demands, is new to the peer, and is sent once.
pub proof fn propagation_brings_what_is_owed(block: Block, peer: PeerId, topology: Option<Outlook>)
    requires
        dict::keys_unique(block.known_by),
        block.aware(peer),
    ensures
        ({
            let (next, assignments, votes) = block.propagated(peer, topology);
            &&& same_but_memories(block, next)
            &&& grown(block.memory(peer), next.memory(peer))
            &&& forall|k: int|
                0 <= k < block.entries.len() && routed(topology, (#[trigger] block.entries[k]).routing, peer)
                    ==> has_entry(next.memory(peer), block.entries[k])
            &&& forall|other: PeerId| other != peer && block.aware(other) ==> #[trigger] next.memory(other)
                == block.memory(other)
            &&& forall|i: int|
                0 <= i < assignments.len() ==> {
                    &&& !block.memory(peer).has(
                        assignment_subject(#[trigger] assignments[i]),
                        MessageKind::Assignment,
                    )
                    &&& exists|k: int|
                        0 <= k < block.entries.len() && (#[trigger] block.entries[k]).assignment == assignments[i]
                            && routed(topology, block.entries[k].routing, peer)
                }
            &&& forall|i: int, j: int|
                0 <= i < j < assignments.len() ==> assignment_subject(#[trigger] assignments[i])
                    != assignment_subject(#[trigger] assignments[j])
        }),
{
    let picked = routed_entries(block.entries, peer, topology);
    let memory = block.memory(peer);
    let offer = Offer::nothing(memory).with_entries(block.entries, picked);
    let (next, assignments, votes) = block.propagated(peer, topology);
    lemma_entries_offered(memory, block.entries, picked);
    let at = dict::index_of_key(block.known_by, peer);
    assert(block.known_by[at].0 == peer);
    dict::lemma_dict_update(block.known_by, at, offer.memory);
    assert(next.known_by =~= block.known_by.update(at, (block.known_by[at].0, offer.memory)));
    dict::lemma_dict_at(next.known_by, at);
    assert(next.memory(peer) == offer.memory);
    assert forall|other: PeerId| other != peer && block.aware(other) implies #[trigger] next.memory(other)
        == block.memory(other) by {
        let j = dict::index_of_key(block.known_by, other);
        assert(block.known_by[j].0 == other);
        assert(next.known_by[j].0 == other);
        dict::lemma_dict_at(next.known_by, j);
    }
    assert forall|k: int| 0 <= k < block.entries.len() && routed(
        topology,
        (#[trigger] block.entries[k]).routing,
        peer,
    ) implies has_entry(next.memory(peer), block.entries[k]) by {
        assert(picked[k]);
    }
    assert forall|i: int| 0 <= i < assignments.len() implies {
        &&& !block.memory(peer).has(assignment_subject(#[trigger] assignments[i]), MessageKind::Assignment)
        &&& exists|k: int|
            0 <= k < block.entries.len() && (#[trigger] block.entries[k]).assignment == assignments[i] && routed(
                topology,
                block.entries[k].routing,
                peer,
            )
    } by {
        let k = choose|k: int|
            0 <= k < block.entries.len() && picked[k] && (#[trigger] block.entries[k]).assignment
                == offer.assignments[i];
        assert(picked[k] == routed(topology, block.entries[k].routing, peer));
    }
}

/// Sending a peer what it is owed a second time comes to nothing.
pub proof fn propagating_twice_sends_nothing(block: Block, peer: PeerId, topology: Option<Outlook>)
    requires
        dict::keys_unique(block.known_by),
    ensures
        ({
            let next = block.propagated(peer, topology).0;
            next.propagated(peer, topology) == (
                next,
                Seq::<Assignment>::empty(),
                Seq::<IndirectSignedApprovalVoteV2>::empty(),
            )
        }),
{
    let next = block.propagated(peer, topology).0;
    if block.aware(peer) {
        propagation_brings_what_is_owed(block, peer, topology);
        lemma_same_aware(block, next, peer);
        let picked = routed_entries(next.entries, peer, topology);
        lemma_entries_in_vain(next.memory(peer), next.entries, picked);
        let at = dict::index_of_key(next.known_by, peer);
        assert(next.known_by[at].0 == peer);
        assert(next.propagated(peer, topology).0.known_by =~= next.known_by);
    }
}

/// A block after each of some peers has been sent what it is owed.
pub open spec fn all_propagated(block: Block, peers: Seq<PeerId>, topology: Option<Outlook>) -> Block
    decreases peers.len(),
{
    if peers.len() == 0 {
        block
    } else {
        all_propagated(block, peers.drop_last(), topology).propagated(peers.last(), topology).0
    }
}

pub proof fn lemma_all_propagated(block: Block, peers: Seq<PeerId>, topology: Option<Outlook>, peer: PeerId)
    requires
        dict::keys_unique(block.known_by),
        block.aware(peer),
    ensures
        ({
            let next = all_propagated(block, peers, topology);
            &&& same_but_memories(block, next)
            &&& dict::keys_unique(next.known_by)
            &&& next.aware(peer)
            &&& grown(block.memory(peer), next.memory(peer))
            &&& peers.contains(peer) ==> forall|k: int|
                0 <= k < block.entries.len() && routed(topology, (#[trigger] block.entries[k]).routing, peer)
                    ==> has_entry(next.memory(peer), block.entries[k])
        }),
    decreases peers.len(),
{
    if peers.len() > 0 {
        let short = peers.drop_last();
        let last = peers.last();
        lemma_all_propagated(block, short, topology, peer);
        let rest = all_propagated(block, short, topology);
        let next = all_propagated(block, peers, topology);
        if rest.aware(last) {
            propagation_brings_what_is_owed(rest, last, topology);
        }
        assert(same_but_memories(rest, next));
        assert forall|i: int| 0 <= i < block.known_by.len() implies #[trigger] block.known_by[i].0
            == #[trigger] next.known_by[i].0 by {
            assert(block.known_by[i].0 == rest.known_by[i].0);
        }
        lemma_same_aware(rest, next, peer);
        assert(grown(rest.memory(peer), next.memory(peer)));
        if peers.contains(peer) {
            if peer == last {
                assert forall|k: int| 0 <= k < block.entries.len() && routed(
                    topology,
                    (#[trigger] block.entries[k]).routing,
                    peer,
                ) implies has_entry(next.memory(peer), block.entries[k]) by {
                    assert(rest.entries[k] == block.entries[k]);
                }
            } else {
                let j = choose|j: int| 0 <= j < peers.len() && peers[j] == peer;
                assert(short[j] == peer);
                assert forall|k: int| 0 <= k < block.entries.len() && routed(
                    topology,
                    (#[trigger] block.entries[k]).routing,
                    peer,
                ) implies has_entry(next.memory(peer), block.entries[k]) by {
                    assert(has_entry(rest.memory(peer), block.entries[k]));
                }
            }
        }
    }
}

/// A parcel treats every block for itself.
proof fn lemma_parcel_at(
    blocks: Seq<(BlockHash, Block)>,
    scope: Scope,
    peer: PeerId,
    topologies: Seq<(SessionIndex, Outlook)>,
)
    ensures
        ({
            let found = parcel(blocks, scope, peer, topologies).blocks;
            &&& found.len() == blocks.len()
            &&& forall|i: int|
                0 <= i < blocks.len() ==> #[trigger] found[i] == if scope.covers(blocks[i].1) {
                    (
                        blocks[i].0,
                        blocks[i].1.propagated(peer, lookup_topology(topologies, blocks[i].1.session)).0,
                    )
                } else {
                    blocks[i]
                }
        }),
    decreases blocks.len(),
{
    if blocks.len() > 0 {
        lemma_parcel_at(blocks.drop_last(), scope, peer, topologies);
    }
}

/// Sending messages leaves the number, the session and the entries of a block.
pub proof fn lemma_all_propagated_shape(block: Block, peers: Seq<PeerId>, topology: Option<Outlook>)
    ensures
        ({
            let next = all_propagated(block, peers, topology);
            next.session == block.session && next.number == block.number && next.entries == block.entries
        }),
    decreases peers.len(),
{
    if peers.len() > 0 {
        lemma_all_propagated_shape(block, peers.drop_last(), topology);
    }
}

impl Node {
    /// A wave treats every block for itself, and changes nothing but blocks and what is sent.
    pub proof fn lemma_wave_at(self, scope: Scope, peers: Seq<PeerId>)
        ensures
            ({
                let end = self.wave(scope, peers).node;
                &&& end == (Node { blocks: end.blocks, out: end.out, ..self })
                &&& end.blocks.len() == self.blocks.len()
                &&& forall|i: int|
                    0 <= i < self.blocks.len() ==> #[trigger] end.blocks[i] == if scope.covers(self.blocks[i].1) {
                        (
                            self.blocks[i].0,
                            all_propagated(
                                self.blocks[i].1,
                                peers,
                                self.topology_of(self.blocks[i].1.session),
                            ),
                        )
                    } else {
                        self.blocks[i]
                    }
            }),
        decreases peers.len(),
    {
        if peers.len() > 0 {
            self.lemma_wave_at(scope, peers.drop_last());
            let rest = self.wave(scope, peers.drop_last()).node;
            let end = self.wave(scope, peers).node;
            lemma_parcel_at(rest.blocks, scope, peers.last(), rest.topologies);
            assert forall|i: int| 0 <= i < self.blocks.len() implies #[trigger] end.blocks[i] == if scope.covers(
                self.blocks[i].1,
            ) {
                (
                    self.blocks[i].0,
                    all_propagated(self.blocks[i].1, peers, self.topology_of(self.blocks[i].1.session)),
                )
            } else {
                self.blocks[i]
            } by {
                assert(rest.blocks[i].0 == self.blocks[i].0);
                if scope.covers(self.blocks[i].1) {
                    lemma_all_propagated_shape(
                        self.blocks[i].1,
                        peers.drop_last(),
                        self.topology_of(self.blocks[i].1.session),
                    );
                    assert(scope.covers(rest.blocks[i].1));
                }
            }
        }
    }

    /// Sending packets of votes changes nothing but what is sent.
    pub proof fn lemma_packets_frame(self, packets: Seq<(PeerId, Seq<IndirectSignedApprovalVoteV2>)>)
        ensures
            ({
                let end = self.packets_sent(packets);
                end == (Node { out: end.out, ..self })
            }),
        decreases packets.len(),
    {
        if packets.len() > 0 {
            self.lemma_packets_frame(packets.drop_last());
        }
    }

    /// Sending the messages about a group of blocks treats every block for itself, and changes nothing
    /// but blocks and what is sent.
    pub proof fn lemma_propagated_at(self, scope: Scope)
        ensures
            ({
                let end = self.propagated(scope);
                &&& end == (Node { blocks: end.blocks, out: end.out, ..self })
                &&& end.blocks.len() == self.blocks.len()
                &&& forall|i: int|
                    0 <= i < self.blocks.len() ==> #[trigger] end.blocks[i] == if scope.covers(self.blocks[i].1) {
                        (
                            self.blocks[i].0,
                            all_propagated(
                                self.blocks[i].1,
                                self.peer_ids(),
                                self.topology_of(self.blocks[i].1.session),
                            ),
                        )
                    } else {
                        self.blocks[i]
                    }
            }),
    {
        self.lemma_wave_at(scope, self.peer_ids());
        let wave = self.wave(scope, self.peer_ids());
        wave.node.lemma_packets_frame(wave.votes);
    }

    /// The connected peers are in the list of them.
    pub proof fn lemma_peer_ids(self, peer: PeerId)
        ensures
            self.peer_ids().contains(peer) <==> self.has_peer(peer),
    {
        if self.peer_ids().contains(peer) {
            let i = choose|i: int| 0 <= i < self.peer_ids().len() && self.peer_ids()[i] == peer;
            assert(self.peers[i].0 == peer);
        }
        if self.has_peer(peer) {
            let i = dict::index_of_key(self.peers, peer);
            assert(self.peer_ids()[i] == peer);
        }
    }
}

/// When the messages about a group of blocks are sent, every connected peer that is aware of a block of
/// the group has, afterwards, all messages about it that the topology demands.
pub proof fn propagation_reaches_every_peer(node: Node, scope: Scope, i: int, peer: PeerId, k: int)
    requires
        0 <= i < node.blocks.len(),
        scope.covers(node.blocks[i].1),
        dict::keys_unique(node.blocks[i].1.known_by),
        node.has_peer(peer),
        node.blocks[i].1.aware(peer),
        0 <= k < node.blocks[i].1.entries.len(),
        routed(
            node.topology_of(node.blocks[i].1.session),
            node.blocks[i].1.entries[k].routing,
            peer,
        ),
    ensures
        node.propagated(scope).blocks[i].0 == node.blocks[i].0,
        has_entry(node.propagated(scope).blocks[i].1.memory(peer), node.blocks[i].1.entries[k]),
{
    node.lemma_propagated_at(scope);
    node.lemma_peer_ids(peer);
    let block = node.blocks[i].1;
    lemma_all_propagated(block, node.peer_ids(), node.topology_of(block.session), peer);
}

/// Having the messages of an entry does not depend on where they have to go.
proof fn lemma_has_rerouted(memory: PeerMemory, changed: Entry, entry: Entry)
    requires
        has_entry(memory, changed),
        changed.assignment == entry.assignment,
        changed.approvals == entry.approvals,
    ensures
        has_entry(memory, entry),
{
    assert forall|k: int| 0 <= k < entry.approvals.len() implies #[trigger] memory.has(
        approval_subject(entry.approvals[k]),
        MessageKind::Approval,
    ) by {
        assert(memory.has(approval_subject(changed.approvals[k]), MessageKind::Approval));
    }
}

/// When the lag of approval checking has reached the first threshold, every connected peer that is aware
/// of the oldest block gets the node's own messages about it, as far as the topology is known.
pub proof fn lagging_nodes_send_their_messages_to_all(node: Node, i: int, peer: PeerId, k: int)
    requires
        0 <= i < node.blocks.len(),
        node.blocks[i].1.number == oldest(node.blocks),
        reached(node.config.l1_threshold, node.lag),
        dict::keys_unique(node.blocks[i].1.known_by),
        node.has_peer(peer),
        node.blocks[i].1.aware(peer),
        node.topology_of(node.blocks[i].1.session) is Some,
        0 <= k < node.blocks[i].1.entries.len(),
        node.blocks[i].1.entries[k].local,
        node.blocks[i].1.entries[k].routing != RequiredRouting::PendingTopology,
    ensures
        node.escalated().blocks[i].0 == node.blocks[i].0,
        has_entry(node.escalated().blocks[i].1.memory(peer), node.blocks[i].1.entries[k]),
{
    let scope = Scope::Number(oldest(node.blocks));
    let reform = Reform::Escalate {
        own_to_all: reached(node.config.l1_threshold, node.lag),
        others_to_grid: reached(node.config.l2_threshold, node.lag),
    };
    let changed = Node { blocks: node.blocks.map_values(reform.block_change(scope)), ..node };
    let entry = node.blocks[i].1.entries[k];
    assert(changed.blocks[i].1.entries[k] == (Entry { routing: RequiredRouting::All, ..entry }));
    assert(changed.blocks[i].1.known_by == node.blocks[i].1.known_by);
    propagation_reaches_every_peer(changed, scope, i, peer, k);
    lemma_has_rerouted(node.escalated().blocks[i].1.memory(peer), changed.blocks[i].1.entries[k], entry);
}

/// When the lag has reached the second threshold, the neighbors in both dimensions get the messages of
/// others, too.
pub proof fn lagging_nodes_send_along_both_dimensions(node: Node, i: int, peer: PeerId, k: int)
    requires
        0 <= i < node.blocks.len(),
        node.blocks[i].1.number == oldest(node.blocks),
        reached(node.config.l2_threshold, node.lag),
        dict::keys_unique(node.blocks[i].1.known_by),
        node.has_peer(peer),
        node.blocks[i].1.aware(peer),
        routed(node.topology_of(node.blocks[i].1.session), RequiredRouting::GridXY, peer),
        0 <= k < node.blocks[i].1.entries.len(),
        !node.blocks[i].1.entries[k].local,
        node.blocks[i].1.entries[k].routing != RequiredRouting::PendingTopology,
    ensures
        node.escalated().blocks[i].0 == node.blocks[i].0,
        has_entry(node.escalated().blocks[i].1.memory(peer), node.blocks[i].1.entries[k]),
{
    let scope = Scope::Number(oldest(node.blocks));
    let reform = Reform::Escalate {
        own_to_all: reached(node.config.l1_threshold, node.lag),
        others_to_grid: reached(node.config.l2_threshold, node.lag),
    };
    let changed = Node { blocks: node.blocks.map_values(reform.block_change(scope)), ..node };
    let entry = node.blocks[i].1.entries[k];
    assert(changed.blocks[i].1.entries[k] == (Entry { routing: RequiredRouting::GridXY, ..entry }));
    assert(changed.blocks[i].1.known_by == node.blocks[i].1.known_by);
    propagation_reaches_every_peer(changed, scope, i, peer, k);
    lemma_has_rerouted(node.escalated().blocks[i].1.memory(peer), changed.blocks[i].1.entries[k], entry);
}

/// Whether none of some entries' votes has a subject.
pub open spec fn no_vote_about(entries: Seq<Entry>, subject: MessageSubject) -> bool {
    forall|k: int, j: int|
        0 <= k < entries.len() && 0 <= j < entries[k].approvals.len() ==> approval_subject(
            #[trigger] entries[k].approvals[j],
        ) != subject
}

/// Whether neither another assignment nor an earlier vote about exactly the same candidates stands in for
/// the assignment of an entry.
pub open spec fn stands_alone(block: Block, k: int) -> bool {
    let subject = assignment_subject(block.entries[k].assignment);
    &&& no_vote_about(block.entries.take(k), subject)
    &&& forall|m: int|
        0 <= m < block.entries.len() && m != k ==> assignment_subject((#[trigger] block.entries[m]).assignment)
            != subject
}

/// Whether an assignment with a subject is in a list.
pub open spec fn sends_about(assignments: Seq<Assignment>, subject: MessageSubject) -> bool {
    exists|i: int| 0 <= i < assignments.len() && assignment_subject(#[trigger] assignments[i]) == subject
}

proof fn lemma_votes_elsewhere(offer: Offer, votes: Seq<IndirectSignedApprovalVoteV2>, subject: MessageSubject)
    requires
        forall|j: int| 0 <= j < votes.len() ==> approval_subject(#[trigger] votes[j]) != subject,
    ensures
        offer.with_votes(votes).memory.has(subject, MessageKind::Assignment) <==> offer.memory.has(
            subject,
            MessageKind::Assignment,
        ),
        offer.with_votes(votes).assignments == offer.assignments,
    decreases votes.len(),
{
    if votes.len() > 0 {
        assert forall|j: int| 0 <= j < votes.drop_last().len() implies approval_subject(
            #[trigger] votes.drop_last()[j],
        ) != subject by {
            assert(votes.drop_last()[j] == votes[j]);
        }
        lemma_votes_elsewhere(offer, votes.drop_last(), subject);
        assert(approval_subject(votes[votes.len() - 1]) != subject);
    }
}

/// A peer that comes to have an assignment without a vote about it has been sent it.
proof fn lemma_offered_or_unknown(memory: PeerMemory, entries: Seq<Entry>, picked: Seq<bool>, subject: MessageSubject)
    requires
        !memory.has(subject, MessageKind::Assignment),
        no_vote_about(entries, subject),
    ensures
        ({
            let offer = Offer::nothing(memory).with_entries(entries, picked);
            offer.memory.has(subject, MessageKind::Assignment) ==> sends_about(offer.assignments, subject)
        }),
    decreases entries.len(),
{
    if entries.len() > 0 {
        let short = entries.drop_last();
        let entry = entries.last();
        assert forall|k: int, j: int| 0 <= k < short.len() && 0 <= j < short[k].approvals.len() implies
            approval_subject(#[trigger] short[k].approvals[j]) != subject by {
            assert(entries[k] == short[k]);
            assert(approval_subject(entries[k].approvals[j]) != subject);
        }
        lemma_offered_or_unknown(memory, short, picked, subject);
        let rest = Offer::nothing(memory).with_entries(short, picked);
        if picked[entries.len() - 1] {
            let middle = rest.with_assignment(entry.assignment);
            assert forall|j: int| 0 <= j < entry.approvals.len() implies approval_subject(
                #[trigger] entry.approvals[j],
            ) != subject by {
                assert(approval_subject(entries[entries.len() - 1].approvals[j]) != subject);
            }
            lemma_votes_elsewhere(middle, entry.approvals, subject);
            if middle.memory.has(subject, MessageKind::Assignment) {
                if rest.memory.has(subject, MessageKind::Assignment) {
                    let i = choose|i: int|
                        0 <= i < rest.assignments.len() && assignment_subject(#[trigger] rest.assignments[i])
                            == subject;
                    assert(middle.assignments[i] == rest.assignments[i]);
                } else {
                    assert(assignment_subject(entry.assignment) == subject);
                    assert(middle.assignments[rest.assignments.len() as int] == entry.assignment);
                }
            }
        }
    }
}

/// An assignment of a picked entry that a peer lacks is offered to it, unless a vote about the same
/// candidates comes before it.
pub proof fn lemma_new_is_offered(memory: PeerMemory, entries: Seq<Entry>, picked: Seq<bool>, k: int)
    requires
        0 <= k < entries.len(),
        picked[k],
        !memory.has(assignment_subject(entries[k].assignment), MessageKind::Assignment),
        no_vote_about(entries.take(k), assignment_subject(entries[k].assignment)),
    ensures
        sends_about(
            Offer::nothing(memory).with_entries(entries, picked).assignments,
            assignment_subject(entries[k].assignment),
        ),
    decreases entries.len(),
{
    let subject = assignment_subject(entries[k].assignment);
    let last = entries.len() - 1;
    let short = entries.drop_last();
    let rest = Offer::nothing(memory).with_entries(short, picked);
    let offer = Offer::nothing(memory).with_entries(entries, picked);
    let entry = entries.last();
    if k == last {
        assert(entries.take(k) =~= short);
        lemma_offered_or_unknown(memory, short, picked, subject);
    } else {
        assert(short.take(k) =~= entries.take(k));
        assert(short[k] == entries[k]);
        lemma_new_is_offered(memory, short, picked, k);
    }
    if picked[last] {
        let middle = rest.with_assignment(entry.assignment);
        lemma_votes_offered(middle, entry.approvals);
        assert(offer.assignments == middle.assignments);
        if sends_about(rest.assignments, subject) {
            let i = choose|i: int|
                0 <= i < rest.assignments.len() && assignment_subject(#[trigger] rest.assignments[i]) == subject;
            assert(middle.assignments[i] == rest.assignments[i]);
        } else {
            assert(middle.assignments[rest.assignments.len() as int] == entry.assignment);
        }
    }
}

/// An assignment that the topology demands to go to a peer, and that the peer lacks, is offered to it.  A
/// vote of the same validator about exactly the same candidates that follows from an earlier assignment
/// stands in for it.
pub proof fn lacking_messages_are_offered(block: Block, peer: PeerId, topology: Option<Outlook>, k: int)
    requires
        block.aware(peer),
        0 <= k < block.entries.len(),
        routed(topology, block.entries[k].routing, peer),
        !block.memory(peer).has(assignment_subject(block.entries[k].assignment), MessageKind::Assignment),
        no_vote_about(block.entries.take(k), assignment_subject(block.entries[k].assignment)),
    ensures
        sends_about(block.propagated(peer, topology).1, assignment_subject(block.entries[k].assignment)),
{
    let picked = routed_entries(block.entries, peer, topology);
    assert(picked[k]);
    lemma_new_is_offered(block.memory(peer), block.entries, picked, k);
}

/// Whether a vote with a subject is in a list.
pub open spec fn sends_vote_about(votes: Seq<IndirectSignedApprovalVoteV2>, subject: MessageSubject) -> bool {
    exists|i: int| 0 <= i < votes.len() && approval_subject(#[trigger] votes[i]) == subject
}

/// A peer that comes to have a vote among those that are offered has been offered one about the same.
proof fn lemma_votes_offered_or_unknown(offer: Offer, list: Seq<IndirectSignedApprovalVoteV2>, subject: MessageSubject)
    requires
        offer.memory.has(subject, MessageKind::Approval) ==> sends_vote_about(offer.votes, subject),
    ensures
        offer.with_votes(list).memory.has(subject, MessageKind::Approval) ==> sends_vote_about(
            offer.with_votes(list).votes,
            subject,
        ),
    decreases list.len(),
{
    if list.len() > 0 {
        lemma_votes_offered_or_unknown(offer, list.drop_last(), subject);
        let rest = offer.with_votes(list.drop_last());
        let end = offer.with_votes(list);
        if sends_vote_about(rest.votes, subject) {
            let i = choose|i: int| 0 <= i < rest.votes.len() && approval_subject(#[trigger] rest.votes[i]) == subject;
            assert(end.votes[i] == rest.votes[i]);
        } else if end.memory.has(subject, MessageKind::Approval) {
            assert(end.votes[rest.votes.len() as int] == list.last());
        }
    }
}

/// A peer that comes to have a vote has been offered one about the same.
pub proof fn lemma_vote_offered_or_unknown(
    memory: PeerMemory,
    entries: Seq<Entry>,
    picked: Seq<bool>,
    subject: MessageSubject,
)
    requires
        !memory.has(subject, MessageKind::Approval),
    ensures
        ({
            let offer = Offer::nothing(memory).with_entries(entries, picked);
            offer.memory.has(subject, MessageKind::Approval) ==> sends_vote_about(offer.votes, subject)
        }),
    decreases entries.len(),
{
    if entries.len() > 0 {
        let short = entries.drop_last();
        lemma_vote_offered_or_unknown(memory, short, picked, subject);
        let rest = Offer::nothing(memory).with_entries(short, picked);
        if picked[entries.len() - 1] {
            let middle = rest.with_assignment(entries.last().assignment);
            lemma_votes_offered_or_unknown(middle, entries.last().approvals, subject);
        }
    }
}

/// A vote that follows from an assignment whose messages the topology demands to go to a peer, and that
/// the peer lacks, is offered to it.
pub proof fn lacking_votes_are_offered(block: Block, peer: PeerId, topology: Option<Outlook>, k: int, j: int)
    requires
        block.aware(peer),
        0 <= k < block.entries.len(),
        routed(topology, block.entries[k].routing, peer),
        0 <= j < block.entries[k].approvals.len(),
        !block.memory(peer).has(approval_subject(block.entries[k].approvals[j]), MessageKind::Approval),
    ensures
        sends_vote_about(
            block.propagated(peer, topology).2,
            approval_subject(block.entries[k].approvals[j]),
        ),
{
    let picked = routed_entries(block.entries, peer, topology);
    let memory = block.memory(peer);
    let subject = approval_subject(block.entries[k].approvals[j]);
    assert(picked[k]);
    lemma_entries_offered(memory, block.entries, picked);
    let offer = Offer::nothing(memory).with_entries(block.entries, picked);
    assert(has_entry(offer.memory, block.entries[k]));
    assert(offer.memory.has(subject, MessageKind::Approval));
    lemma_vote_offered_or_unknown(memory, block.entries, picked, subject);
}

/// When what was sent has been forgotten, a peer has only what it has sent itself.
pub proof fn lemma_unsent_memory(block: Block, peer: PeerId)
    requires
        dict::keys_unique(block.known_by),
        block.aware(peer),
    ensures
        dict::keys_unique(block.unsent().known_by),
        block.unsent().aware(peer),
        block.unsent().memory(peer) == (PeerMemory { sent: Known::empty(), ..block.memory(peer) }),
{
    let bare = block.unsent();
    let at = dict::index_of_key(block.known_by, peer);
    assert(block.known_by[at].0 == peer);
    assert(bare.known_by[at].0 == peer);
    assert(same_but_memories(block, bare));
    lemma_same_aware(block, bare, peer);
    dict::lemma_dict_at(bare.known_by, at);
}

/// What is sent again: after a block's sent messages have been forgotten, an assignment that the
/// topology demands to go to a peer, and that the peer has not sent itself, is offered to it.  A vote of
/// the same validator about exactly the same candidates that follows from an earlier assignment stands
/// in for it.
pub proof fn forgotten_messages_are_sent_again(block: Block, peer: PeerId, topology: Option<Outlook>, k: int)
    requires
        dict::keys_unique(block.known_by),
        block.aware(peer),
        0 <= k < block.entries.len(),
        routed(topology, block.entries[k].routing, peer),
        !knows(
            block.memory(peer).received,
            assignment_subject(block.entries[k].assignment),
            MessageKind::Assignment,
        ),
        no_vote_about(block.entries.take(k), assignment_subject(block.entries[k].assignment)),
    ensures
        sends_about(
            block.unsent().propagated(peer, topology).1,
            assignment_subject(block.entries[k].assignment),
        ),
{
    lemma_unsent_memory(block, peer);
    lacking_messages_are_offered(block.unsent(), peer, topology, k);
}

/// Sending messages to others leaves the memory of a peer as it is.
pub proof fn lemma_all_propagated_to_others(block: Block, peers: Seq<PeerId>, topology: Option<Outlook>, peer: PeerId)
    requires
        dict::keys_unique(block.known_by),
        block.aware(peer),
        !peers.contains(peer),
    ensures
        all_propagated(block, peers, topology).aware(peer),
        all_propagated(block, peers, topology).memory(peer) == block.memory(peer),
        all_propagated(block, peers, topology).entries == block.entries,
        dict::keys_unique(all_propagated(block, peers, topology).known_by),
    decreases peers.len(),
{
    if peers.len() > 0 {
        let short = peers.drop_last();
        let last = peers.last();
        assert(last != peer) by {
            assert(peers[peers.len() - 1] == last);
        }
        assert(!short.contains(peer)) by {
            if short.contains(peer) {
                let j = choose|j: int| 0 <= j < short.len() && short[j] == peer;
                assert(peers[j] == peer);
            }
        }
        lemma_all_propagated_to_others(block, short, topology, peer);
        let rest = all_propagated(block, short, topology);
        if rest.aware(last) {
            propagation_brings_what_is_owed(rest, last, topology);
            lemma_same_aware(rest, rest.propagated(last, topology).0, peer);
        }
    }
}

/// When the topology of a session becomes known, every connected peer that is aware of a block of the
/// session gets those messages about it that waited for the topology, as far as it demands.
pub proof fn late_topologies_release_messages(
    node: Node,
    session: SessionIndex,
    layout: Layout,
    local: ValidatorIndex,
    i: int,
    peer: PeerId,
    k: int,
)
    requires
        !dict::has_key(node.topologies, session),
        dict::keys_unique(node.topologies),
        0 <= i < node.blocks.len(),
        node.blocks[i].1.session == session,
        dict::keys_unique(node.blocks[i].1.known_by),
        node.has_peer(peer),
        node.blocks[i].1.aware(peer),
        0 <= k < node.blocks[i].1.entries.len(),
        node.blocks[i].1.entries[k].routing == RequiredRouting::PendingTopology,
        ({
            let entry = node.blocks[i].1.entries[k];
            let grid = layout.seen_by(local).grid;
            grid.routes(grid.required_routing(entry.assignment.cert.validator, entry.local), peer)
        }),
    ensures
        node.topology_learned(session, layout, Some(local)).blocks[i].0 == node.blocks[i].0,
        has_entry(
            node.topology_learned(session, layout, Some(local)).blocks[i].1.memory(peer),
            node.blocks[i].1.entries[k],
        ),
{
    let seen = Node { topologies: node.topologies.push((session, layout.seen_by(local))), ..node };
    dict::lemma_dict_push(node.topologies, session, layout.seen_by(local));
    dict::lemma_dict_at(seen.topologies, node.topologies.len() as int);
    assert(seen.topologies[node.topologies.len() as int].0 == session);
    let grid = layout.seen_by(local).grid;
    let scope = Scope::Session(session);
    let changed = Node {
        blocks: seen.blocks.map_values(Reform::Resolve(grid).block_change(scope)),
        ..seen
    };
    let entry = node.blocks[i].1.entries[k];
    let routing = grid.required_routing(entry.assignment.cert.validator, entry.local);
    assert(changed.blocks[i].1.entries[k] == (Entry { routing, ..entry }));
    assert(changed.blocks[i].1.known_by == node.blocks[i].1.known_by);
    propagation_reaches_every_peer(changed, scope, i, peer, k);
    lemma_has_rerouted(
        node.topology_learned(session, layout, Some(local)).blocks[i].1.memory(peer),
        changed.blocks[i].1.entries[k],
        entry,
    );
}

/// Below the second threshold the lag does not change where the messages of others have to go.
pub proof fn others_messages_keep_to_their_dimension(node: Node, i: int, k: int)
    requires
        0 <= i < node.blocks.len(),
        !reached(node.config.l2_threshold, node.lag),
        0 <= k < node.blocks[i].1.entries.len(),
        !node.blocks[i].1.entries[k].local,
    ensures
        node.escalated().blocks[i].0 == node.blocks[i].0,
        node.escalated().blocks[i].1.entries[k] == node.blocks[i].1.entries[k],
{
    let scope = Scope::Number(oldest(node.blocks));
    let reform = Reform::Escalate {
        own_to_all: reached(node.config.l1_threshold, node.lag),
        others_to_grid: reached(node.config.l2_threshold, node.lag),
    };
    let changed = Node { blocks: node.blocks.map_values(reform.block_change(scope)), ..node };
    changed.lemma_propagated_at(scope);
    let block = changed.blocks[i].1;
    lemma_all_propagated_shape(block, changed.peer_ids(), changed.topology_of(block.session));
}

} // verus!
