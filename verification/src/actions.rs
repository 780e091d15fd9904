//! What the node is asked to do on behalf of approval distribution.
use crate::batching::{Notification, Versioned};
use crate::dict;
use crate::messages::{Assignment, IndirectSignedApprovalVoteV2};
use crate::primitives::PeerId;
use crate::reputation::Rep;
use vstd::prelude::*;

verus! {

/// A request to another part of the node.
#[derive(Debug, PartialEq, Eq)]
pub enum Action {
    /// Report one change of a peer's reputation.
    ReportPeer(PeerId, Rep),
    /// Report the accumulated changes of the reputation of several peers.
    ReportPeers(Vec<(PeerId, i32)>),
    /// Ask approval voting to check and import an assignment.
    CheckAndImportAssignment(Assignment),
    /// Ask approval voting to check and import an approval vote.
    CheckAndImportApproval(IndirectSignedApprovalVoteV2),
    /// Send a message to a list of peers.
    SendValidationMessage(Vec<PeerId>, Versioned),
}

/// What an [`Action`] asks for.
#[verifier::ext_equal]
pub ghost enum Effect {
    Report(PeerId, Rep),
    /// The sum of each peer, and whether no peer is named twice.
    ReportAll { sums: Map<PeerId, i32>, once_each: bool },
    CheckAssignment(Assignment),
    CheckApproval(IndirectSignedApprovalVoteV2),
    Send(Seq<PeerId>, Notification),
}

impl View for Action {
    type V = Effect;

    open spec fn view(&self) -> Effect {
        match *self {
            Action::ReportPeer(peer, rep) => Effect::Report(peer, rep),
            Action::ReportPeers(list) => Effect::ReportAll {
                sums: dict::dict(list@),
                once_each: dict::keys_unique(list@),
            },
            Action::CheckAndImportAssignment(assignment) => Effect::CheckAssignment(assignment),
            Action::CheckAndImportApproval(vote) => Effect::CheckApproval(vote),
            Action::SendValidationMessage(peers, message) => Effect::Send(peers@, message@),
        }
    }
}

/// What a list of actions asks for.
pub open spec fn effects(actions: Seq<Action>) -> Seq<Effect> {
    actions.map_values(|action: Action| action@)
}

/// Appending an action appends what it asks for.
pub proof fn lemma_effects_push(actions: Seq<Action>, action: Action)
    ensures
        effects(actions.push(action)) == effects(actions).push(action@),
{
    assert(effects(actions.push(action)) =~= effects(actions).push(action@));
}

} // verus!
