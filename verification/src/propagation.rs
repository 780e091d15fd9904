//! Sending the messages about whole groups of blocks to the peers that lack them.
use crate::batching::{send_approvals_batched, send_assignments_batched};
use crate::block::{Block, BlockEntry, Entry};
use crate::dict;
use crate::import::lemma_block_changed;
use crate::messages::{Assignment, IndirectSignedApprovalVoteV2};
use crate::primitives::{BlockHash, BlockNumber, PeerId, SessionIndex, ValidatorIndex};
use crate::state::{blocks_in, find_topology, lookup_topology, Acquaintance, Node, State};
use crate::topology::{
    GridNeighbors, Layout, Neighborhood, Outlook, RequiredRouting, SessionGridTopology,
};
use vstd::prelude::*;

verus! {

/// A group of blocks.
#[derive(Clone, Copy, Debug)]
pub enum Scope {
    /// The blocks of a session.
    Session(SessionIndex),
    /// The blocks with a number.
    Number(BlockNumber),
    /// The blocks that are a multiple of a period older than the newest one.
    Aged { newest: BlockNumber, period: BlockNumber },
}

impl Scope {
    /// Whether a block belongs to the group.
    pub open spec fn covers(self, block: Block) -> bool {
        match self {
            Scope::Session(session) => block.session == session,
            Scope::Number(number) => block.number == number,
            Scope::Aged { newest, period } => {
                &&& period > 0
                &&& block.number < newest
                &&& (newest - block.number) % (period as int) == 0
            },
        }
    }

    /// Whether a block belongs to the group.
    pub fn includes(&self, block: &BlockEntry) -> (answer: bool)
        ensures
            answer == self.covers(block@),
    {
        match *self {
            Scope::Session(session) => block.session == session,
            Scope::Number(number) => block.number == number,
            Scope::Aged { newest, period } => period > 0 && block.number < newest && (newest - block.number) % period
                == 0,
        }
    }
}

/// A change of the way that the messages about a block are sent.
#[derive(Debug)]
pub enum Change<'a> {
    /// Decide what was left open for want of a topology.
    Resolve(&'a GridNeighbors),
    /// Send everything again.
    Resend,
    /// Send the node's own messages to all peers, or those of others along both dimensions.
    Escalate { own_to_all: bool, others_to_grid: bool },
}

/// What a [`Change`] says.
#[verifier::ext_equal]
pub ghost enum Reform {
    Resolve(Neighborhood),
    Resend,
    Escalate { own_to_all: bool, others_to_grid: bool },
}

impl<'a> View for Change<'a> {
    type V = Reform;

    open spec fn view(&self) -> Reform {
        match *self {
            Change::Resolve(grid) => Reform::Resolve(grid@),
            Change::Resend => Reform::Resend,
            Change::Escalate { own_to_all, others_to_grid } => Reform::Escalate { own_to_all, others_to_grid },
        }
    }
}

impl Reform {
    /// Where the messages of an entry have to go after the change.
    pub open spec fn routing(self, entry: Entry) -> RequiredRouting {
        match self {
            Reform::Resolve(grid) => if entry.routing == RequiredRouting::PendingTopology {
                grid.required_routing(entry.assignment.cert.validator, entry.local)
            } else {
                entry.routing
            },
            Reform::Resend => entry.routing,
            Reform::Escalate { own_to_all, others_to_grid } => if entry.routing == RequiredRouting::PendingTopology {
                entry.routing
            } else if entry.local && own_to_all {
                RequiredRouting::All
            } else if !entry.local && others_to_grid {
                RequiredRouting::GridXY
            } else {
                entry.routing
            },
        }
    }

    /// The entry after the change.
    pub open spec fn entry_change(self) -> spec_fn(Entry) -> Entry {
        |entry: Entry| Entry { routing: self.routing(entry), ..entry }
    }

    /// The block after the change.
    pub open spec fn applied(self, block: Block) -> Block {
        let rerouted = Block { entries: block.entries.map_values(self.entry_change()), ..block };
        if self == Reform::Resend {
            rerouted.unsent()
        } else {
            rerouted
        }
    }

    /// The change of the blocks of a group.
    pub open spec fn block_change(self, scope: Scope) -> spec_fn((BlockHash, Block)) -> (BlockHash, Block) {
        |block: (BlockHash, Block)|
            if scope.covers(block.1) {
                (block.0, self.applied(block.1))
            } else {
                block
            }
    }
}

impl<'a> Change<'a> {
    /// Where the messages of a validator have to go after the change.
    fn new_routing(&self, routing: RequiredRouting, local: bool, validator: ValidatorIndex) -> (changed:
        RequiredRouting)
        ensures
            forall|entry: Entry|
                entry.routing == routing && entry.local == local && entry.assignment.cert.validator == validator
                    ==> changed == #[trigger] self@.routing(entry),
    {
        match self {
            Change::Resolve(grid) => if routing == RequiredRouting::PendingTopology {
                grid.required_routing_by_index(validator, local)
            } else {
                routing
            },
            Change::Resend => routing,
            Change::Escalate { own_to_all, others_to_grid } => if routing == RequiredRouting::PendingTopology {
                routing
            } else if local && *own_to_all {
                RequiredRouting::All
            } else if !local && *others_to_grid {
                RequiredRouting::GridXY
            } else {
                routing
            },
        }
    }
}

impl BlockEntry {
    /// Changes the way that the messages about the block are sent.
    pub fn apply(&mut self, change: &Change)
        requires
            old(self).wf(),
        ensures
            final(self).wf(),
            final(self)@ == change@.applied(old(self)@),
    {
        let ghost start = self@;
        let ghost goal = start.entries.map_values(change@.entry_change());
        let mut k: usize = 0;
        assert(goal.take(0) + start.entries.skip(0) =~= start.entries);
        while k < self.approval_entries.len()
            invariant
                k <= self.approval_entries.len(),
                self.wf(),
                goal == start.entries.map_values(change@.entry_change()),
                start.entries.len() == self.approval_entries@.len(),
                self@ == (Block { entries: goal.take(k as int) + start.entries.skip(k as int), ..start }),
            decreases self.approval_entries.len() - k,
        {
            let ghost before = self@;
            let ghost next = goal.take(k + 1) + start.entries.skip(k + 1);
            assert(before.entries[k as int] == start.entries[k as int]);
            assert(self.approval_entries@[k as int]@ == start.entries[k as int]);
            let routing = change.new_routing(
                self.approval_entries[k].required_routing,
                self.approval_entries[k].local,
                self.approval_entries[k].assignment.cert.validator,
            );
            assert(routing == change@.routing(start.entries[k as int]));
            self.approval_entries[k].required_routing = routing;
            assert(self@.entries =~= before.entries.update(k as int, goal[k as int]));
            assert(self@.entries =~= next);
            k += 1;
        }
        assert(self@.entries =~= goal);
        if let Change::Resend = change {
            self.forget_sent();
        }
    }
}

/// Changes the way that the messages about the blocks of a group are sent.
pub(crate) fn change_blocks(blocks: &mut Vec<(BlockHash, BlockEntry)>, scope: Scope, change: &Change)
    requires
        dict::keys_unique(blocks_in(old(blocks)@)),
        forall|i: int| 0 <= i < old(blocks)@.len() ==> (#[trigger] old(blocks)@[i]).1.wf(),
    ensures
        dict::keys_unique(blocks_in(final(blocks)@)),
        forall|i: int| 0 <= i < final(blocks)@.len() ==> (#[trigger] final(blocks)@[i]).1.wf(),
        blocks_in(final(blocks)@) == blocks_in(old(blocks)@).map_values(change@.block_change(scope)),
{
    let ghost start = blocks_in(blocks@);
    let ghost goal = start.map_values(change@.block_change(scope));
    let mut i: usize = 0;
    assert(goal.take(0) + start.skip(0) =~= start);
    while i < blocks.len()
        invariant
            i <= blocks.len(),
            dict::keys_unique(blocks_in(blocks@)),
            forall|j: int| 0 <= j < blocks@.len() ==> (#[trigger] blocks@[j]).1.wf(),
            goal == start.map_values(change@.block_change(scope)),
            start.len() == blocks@.len(),
            blocks_in(blocks@) == goal.take(i as int) + start.skip(i as int),
        decreases blocks.len() - i,
    {
        let ghost list = blocks@;
        let ghost before = blocks_in(list);
        let ghost next = goal.take(i + 1) + start.skip(i + 1);
        assert(before[i as int] == start[i as int]);
        assert(before[i as int] == (list[i as int].0, list[i as int].1@));
        if scope.includes(&blocks[i].1) {
            blocks[i].1.apply(change);
            proof {
                lemma_block_changed(list, blocks@, i as int);
                assert(blocks_in(blocks@) =~= before.update(i as int, goal[i as int]));
                assert(blocks_in(blocks@) =~= next);
            }
        } else {
            assert(blocks_in(blocks@) =~= next);
        }
        i += 1;
    }
    assert(blocks_in(blocks@) =~= goal);
}

/// What one peer gets of the messages about a group of blocks.
#[verifier::ext_equal]
pub ghost struct Parcel {
    pub blocks: Seq<(BlockHash, Block)>,
    pub assignments: Seq<Assignment>,
    pub votes: Seq<IndirectSignedApprovalVoteV2>,
}

/// Collects what one peer gets of the messages about a group of blocks.
pub open spec fn parcel(
    blocks: Seq<(BlockHash, Block)>,
    scope: Scope,
    peer: PeerId,
    topologies: Seq<(SessionIndex, Outlook)>,
) -> Parcel
    decreases blocks.len(),
{
    if blocks.len() == 0 {
        Parcel { blocks, assignments: Seq::empty(), votes: Seq::empty() }
    } else {
        let rest = parcel(blocks.drop_last(), scope, peer, topologies);
        let (hash, block) = blocks.last();
        if scope.covers(block) {
            let (next, assignments, votes) = block.propagated(peer, lookup_topology(topologies, block.session));
            Parcel {
                blocks: rest.blocks.push((hash, next)),
                assignments: rest.assignments + assignments,
                votes: rest.votes + votes,
            }
        } else {
            Parcel { blocks: rest.blocks.push((hash, block)), ..rest }
        }
    }
}

/// What all peers get: the assignments are on their way, the votes follow.
#[verifier::ext_equal]
pub ghost struct Wave {
    pub node: Node,
    pub votes: Seq<(PeerId, Seq<IndirectSignedApprovalVoteV2>)>,
}

/// The votes that a list of packets holds.
pub open spec fn packets_in(list: Seq<(PeerId, Vec<IndirectSignedApprovalVoteV2>)>) -> Seq<
    (PeerId, Seq<IndirectSignedApprovalVoteV2>),
> {
    list.map_values(|packet: (PeerId, Vec<IndirectSignedApprovalVoteV2>)| (packet.0, packet.1@))
}

impl Node {
    /// The connected peers, in the order in which they connected.
    pub open spec fn peer_ids(self) -> Seq<PeerId> {
        self.peers.map_values(|peer: (PeerId, Acquaintance)| peer.0)
    }

    /// After each of some peers has been sent the assignments about a group of blocks that it lacks.
    pub open spec fn wave(self, scope: Scope, peers: Seq<PeerId>) -> Wave
        decreases peers.len(),
    {
        if peers.len() == 0 {
            Wave { node: self, votes: Seq::empty() }
        } else {
            let rest = self.wave(scope, peers.drop_last());
            let peer = peers.last();
            let found = parcel(rest.node.blocks, scope, peer, rest.node.topologies);
            Wave {
                node: Node { blocks: found.blocks, ..rest.node }.assignments_sent(found.assignments, seq![peer]),
                votes: rest.votes.push((peer, found.votes)),
            }
        }
    }

    /// After each packet of votes has been sent to its peer.
    pub open spec fn packets_sent(self, packets: Seq<(PeerId, Seq<IndirectSignedApprovalVoteV2>)>) -> Node
        decreases packets.len(),
    {
        if packets.len() == 0 {
            self
        } else {
            self.packets_sent(packets.drop_last()).approvals_sent(packets.last().1, seq![packets.last().0])
        }
    }

    /// After all peers have been sent the messages about a group of blocks that the topology demands
    /// and that they lack, all assignments before all votes.
    pub open spec fn propagated(self, scope: Scope) -> Node {
        let wave = self.wave(scope, self.peer_ids());
        wave.node.packets_sent(wave.votes)
    }

    /// After a change of the way that the messages about a group of blocks are sent, and what follows
    /// from it.
    pub open spec fn reformed(self, scope: Scope, reform: Reform) -> Node {
        Node { blocks: self.blocks.map_values(reform.block_change(scope)), ..self }.propagated(scope)
    }

    /// After the topology of a session has become known.  The first one counts, and one without a
    /// place for the node itself is of no use.
    pub open spec fn topology_learned(self, session: SessionIndex, layout: Layout, local: Option<ValidatorIndex>) -> Node {
        match local {
            None => self,
            Some(validator) => {
                let seen = if dict::has_key(self.topologies, session) {
                    self
                } else {
                    Node { topologies: self.topologies.push((session, layout.seen_by(validator))), ..self }
                };
                let grid = seen.topologies[dict::index_of_key(seen.topologies, session)].1.grid;
                seen.reformed(Scope::Session(session), Reform::Resolve(grid))
            },
        }
    }
}

impl State {
    /// Collects what one peer gets of the messages about a group of blocks.
    fn collect(&mut self, scope: Scope, peer: PeerId) -> (messages: (
        Vec<Assignment>,
        Vec<IndirectSignedApprovalVoteV2>,
    ))
        requires
            old(self).parts_wf(),
        ensures
            final(self).parts_wf(),
            ({
                let found = parcel(old(self)@.blocks, scope, peer, old(self)@.topologies);
                &&& final(self)@ == (Node { blocks: found.blocks, ..old(self)@ })
                &&& messages.0@ == found.assignments
                &&& messages.1@ == found.votes
            }),
    {
        let ghost start = self@;
        let mut assignments: Vec<Assignment> = Vec::new();
        let mut votes: Vec<IndirectSignedApprovalVoteV2> = Vec::new();
        let mut i: usize = 0;
        proof {
            assert(start.blocks.take(0) =~= Seq::empty());
            assert(self@.blocks.take(0) =~= Seq::empty());
        }
        while i < self.blocks.len()
            invariant
                i <= self.blocks.len(),
                self.parts_wf(),
                self@ == (Node { blocks: self@.blocks, ..start }),
                self@.blocks.len() == self.blocks@.len(),
                start.blocks.len() == self.blocks@.len(),
                self@.blocks.skip(i as int) == start.blocks.skip(i as int),
                (Parcel { blocks: self@.blocks.take(i as int), assignments: assignments@, votes: votes@ }) == parcel(
                    start.blocks.take(i as int),
                    scope,
                    peer,
                    start.topologies,
                ),
            decreases self.blocks.len() - i,
        {
            let ghost list = self.blocks@;
            let ghost before = self@.blocks;
            proof {
                assert(before.skip(i as int)[0] == start.blocks.skip(i as int)[0]);
                assert(before[i as int] == start.blocks[i as int]);
                assert(before[i as int] == (list[i as int].0, list[i as int].1@));
                assert(start.blocks.take(i + 1).drop_last() =~= start.blocks.take(i as int));
                assert(start.blocks.take(i + 1).last() == start.blocks[i as int]);
            }
            if scope.includes(&self.blocks[i].1) {
                let topology = find_topology(&self.topologies, self.blocks[i].1.session);
                self.blocks[i].1.propagate(peer, topology, &mut assignments, &mut votes);
                proof {
                    lemma_block_changed(list, self.blocks@, i as int);
                }
            }
            proof {
                assert(self@.blocks =~= before.update(i as int, self@.blocks[i as int]));
                assert(self@.blocks.skip(i + 1) =~= start.blocks.skip(i + 1)) by {
                    assert forall|j: int| i + 1 <= j < before.len() implies before[j] == start.blocks[j] by {
                        assert(before.skip(i as int)[j - i] == start.blocks.skip(i as int)[j - i]);
                    }
                }
                assert(self@.blocks.take(i + 1) =~= before.take(i as int).push(self@.blocks[i as int]));
            }
            i += 1;
        }
        proof {
            assert(start.blocks.take(i as int) =~= start.blocks);
            assert(self@.blocks.take(i as int) =~= self@.blocks);
        }
        (assignments, votes)
    }

    /// Sends all peers the messages about a group of blocks that the topology demands and that they
    /// lack.
    pub(crate) fn propagate(&mut self, scope: Scope)
        requires
            old(self).parts_wf(),
        ensures
            final(self).parts_wf(),
            final(self)@ == old(self)@.propagated(scope),
    {
        let ghost start = self@;
        let ghost peers = start.peer_ids();
        let mut packets: Vec<(PeerId, Vec<IndirectSignedApprovalVoteV2>)> = Vec::new();
        let mut i: usize = 0;
        proof {
            assert(peers.take(0) =~= Seq::empty());
            assert(packets_in(packets@) =~= Seq::empty());
        }
        while i < self.peer_views.len()
            invariant
                i <= self.peer_views.len(),
                self.parts_wf(),
                self@.peers == start.peers,
                peers == start.peer_ids(),
                peers.len() == self.peer_views@.len(),
                (Wave { node: self@, votes: packets_in(packets@) }) == start.wave(scope, peers.take(i as int)),
            decreases self.peer_views.len() - i,
        {
            let peer = self.peer_views[i].0;
            let ghost list = packets_in(packets@);
            proof {
                assert(start.peers[i as int].0 == peer) by {
                    assert(self@.peers[i as int].0 == peer);
                }
                assert(peers[i as int] == peer);
                assert(peers.take(i + 1).drop_last() =~= peers.take(i as int));
                assert(peers.take(i + 1).last() == peer);
            }
            let (assignments, votes) = self.collect(scope, peer);
            let mut receivers: Vec<PeerId> = Vec::new();
            receivers.push(peer);
            assert(receivers@ =~= seq![peer]);
            let versions = self.peer_versions(&receivers);
            send_assignments_batched(&mut self.outbox, &assignments, &versions);
            let ghost last = votes@;
            packets.push((peer, votes));
            assert(packets_in(packets@) =~= list.push((peer, last)));
            i += 1;
        }
        assert(peers.take(i as int) =~= peers);
        let ghost middle = self@;
        let ghost list = packets_in(packets@);
        let mut k: usize = 0;
        assert(list.take(0) =~= Seq::empty());
        while k < packets.len()
            invariant
                k <= packets.len(),
                self.parts_wf(),
                list == packets_in(packets@),
                list.len() == packets@.len(),
                self@ == middle.packets_sent(list.take(k as int)),
            decreases packets.len() - k,
        {
            let peer = packets[k].0;
            proof {
                assert(list[k as int] == (peer, packets@[k as int].1@));
                assert(list.take(k + 1).drop_last() =~= list.take(k as int));
                assert(list.take(k + 1).last() == list[k as int]);
            }
            let mut receivers: Vec<PeerId> = Vec::new();
            receivers.push(peer);
            assert(receivers@ =~= seq![peer]);
            let versions = self.peer_versions(&receivers);
            send_approvals_batched(&mut self.outbox, &packets[k].1, &versions);
            k += 1;
        }
        assert(list.take(k as int) =~= list);
    }

    /// Changes the way that the messages about a group of blocks are sent, and sends what follows from
    /// it.
    pub(crate) fn reform(&mut self, scope: Scope, change: &Change)
        requires
            old(self).parts_wf(),
        ensures
            final(self).parts_wf(),
            final(self)@ == old(self)@.reformed(scope, change@),
    {
        change_blocks(&mut self.blocks, scope, change);
        self.propagate(scope);
    }

    /// The position of a topology.
    fn topology_position(&self, session: SessionIndex) -> (position: Option<usize>)
        requires
            self.parts_wf(),
        ensures
            position is Some <==> dict::has_key(self@.topologies, session),
            position matches Some(i) ==> {
                &&& i < self.topologies@.len()
                &&& i == dict::index_of_key(self@.topologies, session)
            },
    {
        let ghost list = self@.topologies;
        let mut i: usize = 0;
        while i < self.topologies.len()
            invariant
                i <= self.topologies.len(),
                list == self@.topologies,
                dict::keys_unique(list),
                forall|j: int| 0 <= j < i ==> #[trigger] list[j].0 != session,
            decreases self.topologies.len() - i,
        {
            assert(list[i as int].0 == self.topologies@[i as int].0);
            if self.topologies[i].0 == session {
                proof {
                    dict::lemma_dict_at(list, i as int);
                }
                return Some(i);
            }
            i += 1;
        }
        None
    }

    /// Notes the topology of a session, and sends the messages that waited for it.
    pub fn learn_topology(
        &mut self,
        session: SessionIndex,
        topology: &SessionGridTopology,
        local_index: Option<ValidatorIndex>,
    )
        requires
            old(self).parts_wf(),
        ensures
            final(self).parts_wf(),
            final(self)@ == old(self)@.topology_learned(session, topology@, local_index),
    {
        let ghost start = self@;
        let local = match local_index {
            Some(validator) => validator,
            None => {
                return;
            },
        };
        let position = match self.topology_position(session) {
            Some(i) => i,
            None => {
                let seen = topology.seen_by(local);
                let ghost value = seen@;
                let end = self.topologies.len();
                self.topologies.push((session, seen));
                proof {
                    dict::lemma_dict_push(start.topologies, session, value);
                    assert(self@.topologies =~= start.topologies.push((session, value)));
                    dict::lemma_dict_at(self@.topologies, end as int);
                }
                end
            },
        };
        let scope = Scope::Session(session);
        let ghost grid = self@.topologies[position as int].1.grid;
        change_blocks(
            &mut self.blocks,
            scope,
            &Change::Resolve(&self.topologies[position].1.local_grid_neighbors),
        );
        self.propagate(scope);
    }
}

} // verus!
