//! Everything that the node remembers.
use crate::actions::{self, Action, Effect};
use crate::aggression::AggressionConfig;
use crate::batching;
use crate::block::{Block, BlockEntry};
use crate::circulation::outlook;
use crate::dict;
use crate::lists;
use crate::messages::{Assignment, IndirectSignedApprovalVoteV2};
use crate::primitives::{BlockHash, BlockNumber, PeerId, SessionIndex, ValidationVersion};
use crate::random::{Draws, Luck};
use crate::reputation::{self, Rep, ReputationAggregator, Standing};
use crate::topology::{Outlook, SessionTopology};
use vstd::prelude::*;

verus! {

/// The heads that somebody looks at, and the block up to which the chain is final for them.
#[derive(Debug)]
pub struct ChainView {
    pub heads: Vec<BlockHash>,
    pub finalized_number: BlockNumber,
}

/// What a [`ChainView`] holds.
#[verifier::ext_equal]
pub ghost struct Horizon {
    pub heads: Seq<BlockHash>,
    pub finalized_number: BlockNumber,
}

impl View for ChainView {
    type V = Horizon;

    open spec fn view(&self) -> Horizon {
        Horizon { heads: self.heads@, finalized_number: self.finalized_number }
    }
}

impl ChainView {
    /// A view of some heads.
    pub fn new(heads: Vec<BlockHash>, finalized_number: BlockNumber) -> (view: ChainView)
        ensures
            view@ == (Horizon { heads: heads@, finalized_number }),
    {
        ChainView { heads, finalized_number }
    }

    /// A view without any heads.
    pub fn with_finalized(finalized_number: BlockNumber) -> (view: ChainView)
        ensures
            view@ == (Horizon { heads: Seq::empty(), finalized_number }),
    {
        let view = ChainView { heads: Vec::new(), finalized_number };
        assert(view@.heads =~= Seq::empty());
        view
    }
}

/// A connected peer.
#[derive(Debug)]
pub struct PeerEntry {
    pub view: ChainView,
    pub version: ValidationVersion,
}

/// What a [`PeerEntry`] holds.
#[verifier::ext_equal]
pub ghost struct Acquaintance {
    pub view: Horizon,
    pub version: ValidationVersion,
}

impl View for PeerEntry {
    type V = Acquaintance;

    open spec fn view(&self) -> Acquaintance {
        Acquaintance { view: self.view@, version: self.version }
    }
}

/// A message that a peer sent.
#[derive(Clone, Copy, Debug, PartialEq, Eq)]
pub enum PendingMessage {
    Assignment(Assignment),
    Approval(IndirectSignedApprovalVoteV2),
}

impl PendingMessage {
    /// The block that the message is about.
    pub open spec fn about(self) -> BlockHash {
        match self {
            PendingMessage::Assignment(assignment) => assignment.cert.block_hash,
            PendingMessage::Approval(vote) => vote.block_hash,
        }
    }

    /// The block that the message is about.
    pub fn block_hash(&self) -> (hash: BlockHash)
        ensures
            hash == self.about(),
    {
        match self {
            PendingMessage::Assignment(assignment) => assignment.cert.block_hash,
            PendingMessage::Approval(vote) => vote.block_hash,
        }
    }
}

/// Something that is left to be done once the checks before it are through.
#[derive(Clone, Copy, Debug, PartialEq, Eq)]
pub enum Task {
    /// Import a message from a peer.
    Import(PeerId, PendingMessage),
    /// Send messages to more peers where finality lags.
    EnableAggression,
}

/// All that the node remembers.
#[derive(Debug)]
pub struct State {
    /// The connected peers.
    pub peer_views: Vec<(PeerId, PeerEntry)>,
    /// The blocks that are not final.
    pub blocks: Vec<(BlockHash, BlockEntry)>,
    /// The heads of the node's own view that are not among the blocks yet, with the messages about
    /// them.
    pub pending_known: Vec<(BlockHash, Vec<(PeerId, PendingMessage)>)>,
    pub topologies: Vec<(SessionIndex, SessionTopology)>,
    /// The blocks that became final last, of which messages may still be on the way.
    pub recent_outdated_blocks: Vec<BlockHash>,
    /// By how many blocks approval checking is behind.
    pub approval_checking_lag: BlockNumber,
    pub aggression_config: AggressionConfig,
    pub reputation: ReputationAggregator,
    pub draws: Draws,
    /// What is left to be done.
    pub tasks: Vec<Task>,
    /// The message whose check has been asked for.
    pub awaiting: Option<(PeerId, PendingMessage)>,
    /// What the node has been asked to do.
    pub outbox: Vec<Action>,
}

/// What a [`State`] holds.
#[verifier::ext_equal]
pub ghost struct Node {
    pub peers: Seq<(PeerId, Acquaintance)>,
    pub blocks: Seq<(BlockHash, Block)>,
    pub pending: Seq<(BlockHash, Seq<(PeerId, PendingMessage)>)>,
    pub topologies: Seq<(SessionIndex, Outlook)>,
    pub outdated: Seq<BlockHash>,
    pub lag: BlockNumber,
    pub config: AggressionConfig,
    pub standing: Standing,
    pub luck: Luck,
    pub tasks: Seq<Task>,
    pub awaiting: Option<(PeerId, PendingMessage)>,
    pub out: Seq<Effect>,
}

/// What a list of peers holds.
pub open spec fn peers_in(list: Seq<(PeerId, PeerEntry)>) -> Seq<(PeerId, Acquaintance)> {
    list.map_values(|peer: (PeerId, PeerEntry)| (peer.0, peer.1@))
}

/// What a list of blocks holds.
pub open spec fn blocks_in(list: Seq<(BlockHash, BlockEntry)>) -> Seq<(BlockHash, Block)> {
    list.map_values(|block: (BlockHash, BlockEntry)| (block.0, block.1@))
}

/// What a list of heads with messages holds.
pub open spec fn pending_in(list: Seq<(BlockHash, Vec<(PeerId, PendingMessage)>)>) -> Seq<
    (BlockHash, Seq<(PeerId, PendingMessage)>),
> {
    list.map_values(|head: (BlockHash, Vec<(PeerId, PendingMessage)>)| (head.0, head.1@))
}

/// What a list of topologies says.
pub open spec fn topologies_in(list: Seq<(SessionIndex, SessionTopology)>) -> Seq<(SessionIndex, Outlook)> {
    list.map_values(|topology: (SessionIndex, SessionTopology)| (topology.0, topology.1@))
}

impl View for State {
    type V = Node;

    open spec fn view(&self) -> Node {
        Node {
            peers: peers_in(self.peer_views@),
            blocks: blocks_in(self.blocks@),
            pending: pending_in(self.pending_known@),
            topologies: topologies_in(self.topologies@),
            outdated: self.recent_outdated_blocks@,
            lag: self.approval_checking_lag,
            config: self.aggression_config,
            standing: self.reputation@,
            luck: self.draws@,
            tasks: self.tasks@,
            awaiting: self.awaiting,
            out: actions::effects(self.outbox@),
        }
    }
}

impl State {
    /// Whether all parts are well-formed, and nothing is left to be done but what waits for a check.
    pub open spec fn wf(self) -> bool {
        &&& self.parts_wf()
        &&& self@.tasks.len() > 0 ==> self@.awaiting is Some
    }

    /// Whether no peer, block, head or session is noted twice and all parts are well-formed.
    pub open spec fn parts_wf(self) -> bool {
        &&& dict::keys_unique(self@.peers)
        &&& dict::keys_unique(self@.blocks)
        &&& dict::keys_unique(self@.pending)
        &&& dict::keys_unique(self@.topologies)
        &&& self.reputation.wf()
        &&& forall|i: int| 0 <= i < self.blocks@.len() ==> (#[trigger] self.blocks@[i]).1.wf()
    }
}

impl State {
    /// Whether the parts other than the heads that messages are kept for are well-formed.
    pub(crate) open spec fn blocks_wf(self) -> bool {
        &&& dict::keys_unique(self@.peers)
        &&& dict::keys_unique(self@.blocks)
        &&& dict::keys_unique(self@.topologies)
        &&& self.reputation.wf()
        &&& forall|i: int| 0 <= i < self.blocks@.len() ==> (#[trigger] self.blocks@[i]).1.wf()
    }

    /// Whether the parts other than the blocks are well-formed.
    pub(crate) open spec fn others_wf(self) -> bool {
        &&& dict::keys_unique(self@.peers)
        &&& dict::keys_unique(self@.pending)
        &&& dict::keys_unique(self@.topologies)
        &&& self.reputation.wf()
    }
}

impl Node {
    /// A node that remembers nothing.
    pub open spec fn fresh(config: AggressionConfig, immediate: bool, luck: Luck) -> Node {
        Node {
            peers: Seq::empty(),
            blocks: Seq::empty(),
            pending: Seq::empty(),
            topologies: Seq::empty(),
            outdated: Seq::empty(),
            lag: 0,
            config,
            standing: Standing { immediate, scores: Map::empty() },
            luck,
            tasks: Seq::empty(),
            awaiting: None,
            out: Seq::empty(),
        }
    }

    /// Whether the block is known.
    pub open spec fn has_block(self, hash: BlockHash) -> bool {
        dict::has_key(self.blocks, hash)
    }

    /// A block that is known.
    pub open spec fn block(self, hash: BlockHash) -> Block {
        self.blocks[dict::index_of_key(self.blocks, hash)].1
    }

    /// With another value of a block that is known.
    pub open spec fn with_block(self, hash: BlockHash, block: Block) -> Node {
        Node { blocks: self.blocks.update(dict::index_of_key(self.blocks, hash), (hash, block)), ..self }
    }

    /// Whether the peer is connected.
    pub open spec fn has_peer(self, peer: PeerId) -> bool {
        dict::has_key(self.peers, peer)
    }

    /// A peer that is connected.
    pub open spec fn peer(self, peer: PeerId) -> Acquaintance {
        self.peers[dict::index_of_key(self.peers, peer)].1
    }

    /// The topology of a session, if it is known.
    pub open spec fn topology_of(self, session: SessionIndex) -> Option<Outlook> {
        lookup_topology(self.topologies, session)
    }

    /// After a change of the reputation of a peer.
    pub open spec fn reported(self, peer: PeerId, rep: Rep) -> Node {
        Node {
            standing: reputation::standing_after(self.standing, peer, rep),
            out: self.out + reputation::report_effects(self.standing, peer, rep),
            ..self
        }
    }

    /// After several changes of the reputation of a peer.
    pub open spec fn reported_all(self, peer: PeerId, reps: Seq<Rep>) -> Node
        decreases reps.len(),
    {
        if reps.len() == 0 {
            self
        } else {
            self.reported_all(peer, reps.drop_last()).reported(peer, reps.last())
        }
    }

    /// The versions of the protocol that the connected peers among some speak.
    pub open spec fn versions_of(self, receivers: Seq<PeerId>) -> Seq<(PeerId, ValidationVersion)> {
        lists::filter_mapped(receivers, version_in(self.peers))
    }

    /// After assignments have been sent to some peers.
    pub open spec fn assignments_sent(self, assignments: Seq<Assignment>, receivers: Seq<PeerId>) -> Node {
        Node { out: self.out + batching::assignment_sends(assignments, self.versions_of(receivers)), ..self }
    }

    /// After votes have been sent to some peers.
    pub open spec fn approvals_sent(self, votes: Seq<IndirectSignedApprovalVoteV2>, receivers: Seq<PeerId>) -> Node {
        Node { out: self.out + batching::approval_sends(votes, self.versions_of(receivers)), ..self }
    }
}

/// Finds the topology of a session.
pub open spec fn lookup_topology(topologies: Seq<(SessionIndex, Outlook)>, session: SessionIndex) -> Option<Outlook> {
    if dict::has_key(topologies, session) {
        Some(topologies[dict::index_of_key(topologies, session)].1)
    } else {
        None
    }
}

/// Adds the version of the protocol that a peer speaks, if it is connected.
pub open spec fn version_in(peers: Seq<(PeerId, Acquaintance)>) -> spec_fn(PeerId) -> Option<
    (PeerId, ValidationVersion),
> {
    |peer: PeerId|
        if dict::has_key(peers, peer) {
            Some((peer, peers[dict::index_of_key(peers, peer)].1.version))
        } else {
            None
        }
}

/// Finds the topology of a session.
pub(crate) fn find_topology(topologies: &Vec<(SessionIndex, SessionTopology)>, session: SessionIndex) -> (found:
    Option<&SessionTopology>)
    requires
        dict::keys_unique(topologies_in(topologies@)),
    ensures
        outlook(found) == lookup_topology(topologies_in(topologies@), session),
{
    let ghost list = topologies_in(topologies@);
    let mut i: usize = 0;
    while i < topologies.len()
        invariant
            i <= topologies.len(),
            list == topologies_in(topologies@),
            dict::keys_unique(list),
            forall|j: int| 0 <= j < i ==> #[trigger] list[j].0 != session,
        decreases topologies.len() - i,
    {
        assert(list[i as int].0 == topologies@[i as int].0);
        if topologies[i].0 == session {
            proof {
                dict::lemma_dict_at(list, i as int);
            }
            return Some(&topologies[i].1);
        }
        i += 1;
    }
    None
}

impl State {
    /// The position of a block.
    pub(crate) fn block_position(&self, hash: BlockHash) -> (position: Option<usize>)
        requires
            dict::keys_unique(self@.blocks),
        ensures
            position is Some <==> self@.has_block(hash),
            position matches Some(i) ==> {
                &&& i < self.blocks@.len()
                &&& self.blocks@[i as int].0 == hash
                &&& i == dict::index_of_key(self@.blocks, hash)
                &&& self.blocks@[i as int].1@ == self@.block(hash)
            },
    {
        let ghost list = self@.blocks;
        let mut i: usize = 0;
        while i < self.blocks.len()
            invariant
                i <= self.blocks.len(),
                list == self@.blocks,
                dict::keys_unique(list),
                forall|j: int| 0 <= j < i ==> #[trigger] list[j].0 != hash,
            decreases self.blocks.len() - i,
        {
            assert(list[i as int].0 == self.blocks@[i as int].0);
            if self.blocks[i].0 == hash {
                proof {
                    dict::lemma_dict_at(list, i as int);
                }
                return Some(i);
            }
            i += 1;
        }
        None
    }

    /// The position of a connected peer.
    pub(crate) fn peer_position(&self, peer: PeerId) -> (position: Option<usize>)
        requires
            self.parts_wf(),
        ensures
            position is Some <==> self@.has_peer(peer),
            position matches Some(i) ==> {
                &&& i < self.peer_views@.len()
                &&& self.peer_views@[i as int].0 == peer
                &&& i == dict::index_of_key(self@.peers, peer)
                &&& self.peer_views@[i as int].1@ == self@.peer(peer)
            },
    {
        let ghost list = self@.peers;
        let mut i: usize = 0;
        while i < self.peer_views.len()
            invariant
                i <= self.peer_views.len(),
                list == self@.peers,
                dict::keys_unique(list),
                forall|j: int| 0 <= j < i ==> #[trigger] list[j].0 != peer,
            decreases self.peer_views.len() - i,
        {
            assert(list[i as int].0 == self.peer_views@[i as int].0);
            if self.peer_views[i].0 == peer {
                proof {
                    dict::lemma_dict_at(list, i as int);
                }
                return Some(i);
            }
            i += 1;
        }
        None
    }

    /// The position of a head that messages are kept for.
    pub(crate) fn pending_position(&self, hash: BlockHash) -> (position: Option<usize>)
        requires
            self.parts_wf(),
        ensures
            position is Some <==> dict::has_key(self@.pending, hash),
            position matches Some(i) ==> {
                &&& i < self.pending_known@.len()
                &&& self.pending_known@[i as int].0 == hash
                &&& i == dict::index_of_key(self@.pending, hash)
            },
    {
        let ghost list = self@.pending;
        let mut i: usize = 0;
        while i < self.pending_known.len()
            invariant
                i <= self.pending_known.len(),
                list == self@.pending,
                dict::keys_unique(list),
                forall|j: int| 0 <= j < i ==> #[trigger] list[j].0 != hash,
            decreases self.pending_known.len() - i,
        {
            assert(list[i as int].0 == self.pending_known@[i as int].0);
            if self.pending_known[i].0 == hash {
                proof {
                    dict::lemma_dict_at(list, i as int);
                }
                return Some(i);
            }
            i += 1;
        }
        None
    }

    /// Notes a change of the reputation of a peer.
    pub(crate) fn modify_reputation(&mut self, peer: PeerId, rep: Rep)
        requires
            old(self).parts_wf(),
        ensures
            final(self).parts_wf(),
            final(self)@ == old(self)@.reported(peer, rep),
    {
        self.reputation.modify(&mut self.outbox, peer, rep);
    }

    /// Notes several changes of the reputation of a peer.
    pub(crate) fn modify_reputations(&mut self, peer: PeerId, reps: &Vec<Rep>)
        requires
            old(self).parts_wf(),
        ensures
            final(self).parts_wf(),
            final(self)@ == old(self)@.reported_all(peer, reps@),
    {
        let ghost start = self@;
        let mut i: usize = 0;
        while i < reps.len()
            invariant
                i <= reps.len(),
                self.parts_wf(),
                self@ == start.reported_all(peer, reps@.take(i as int)),
            decreases reps.len() - i,
        {
            proof {
                assert(reps@.take(i + 1).drop_last() =~= reps@.take(i as int));
                assert(reps@.take(i + 1).last() == reps@[i as int]);
            }
            self.modify_reputation(peer, reps[i]);
            i += 1;
        }
        assert(reps@.take(i as int) =~= reps@);
    }

    /// The versions of the protocol that the connected peers among some speak.
    pub(crate) fn peer_versions(&self, receivers: &Vec<PeerId>) -> (versions: Vec<(PeerId, ValidationVersion)>)
        requires
            self.parts_wf(),
        ensures
            versions@ == self@.versions_of(receivers@),
    {
        let mut versions: Vec<(PeerId, ValidationVersion)> = Vec::new();
        let mut i: usize = 0;
        while i < receivers.len()
            invariant
                i <= receivers.len(),
                self.parts_wf(),
                versions@ == lists::filter_mapped(receivers@.take(i as int), version_in(self@.peers)),
            decreases receivers.len() - i,
        {
            proof {
                lists::lemma_filter_mapped_step(receivers@, i as int, version_in(self@.peers));
            }
            if let Some(p) = self.peer_position(receivers[i]) {
                versions.push((receivers[i], self.peer_views[p].1.version));
            }
            i += 1;
        }
        assert(receivers@.take(i as int) =~= receivers@);
        versions
    }
}

} // verus!
