//! Packing messages into network notifications, per protocol version and of bounded size.
use crate::actions::{self, Action, Effect};
use crate::lists::{self, chunked, copied};
use crate::messages::{
    self, Assignment, AssignmentV1, IndirectSignedApprovalVote, IndirectSignedApprovalVoteV2,
};
use crate::primitives::{PeerId, ValidationVersion};
use vstd::prelude::*;

verus! {

/// The largest notification that the network takes, in bytes.
pub const MAX_NOTIFICATION_SIZE: usize = 102400;

/// The number of bytes of an assignment, with the certificate's kind at its largest.
pub const ASSIGNMENT_SIZE: usize = 264;

/// The number of bytes of an approval vote.
pub const APPROVAL_SIZE: usize = 164;

/// The largest number of assignments in one notification: a third of what fits into it.
pub const MAX_ASSIGNMENT_BATCH_SIZE: usize = MAX_NOTIFICATION_SIZE / ASSIGNMENT_SIZE / 3;

/// The largest number of approval votes in one notification: a third of what fits into it.
pub const MAX_APPROVAL_BATCH_SIZE: usize = MAX_NOTIFICATION_SIZE / APPROVAL_SIZE / 3;

/// Hands a batch size on, which must not be zero.
pub fn ensure_size_not_zero(size: usize) -> (same: usize)
    requires
        size != 0,
    ensures
        same == size,
{
    size
}

/// The batch sizes are fit to cut a list by.
pub proof fn batch_sizes_are_not_zero()
    ensures
        MAX_ASSIGNMENT_BATCH_SIZE != 0,
        MAX_APPROVAL_BATCH_SIZE != 0,
{
}

/// A message of the first form, which two protocol versions share.
#[derive(Clone, Debug, PartialEq, Eq)]
pub enum ApprovalDistributionMessageV1 {
    Assignments(Vec<AssignmentV1>),
    Approvals(Vec<IndirectSignedApprovalVote>),
}

/// A message of the second form.
#[derive(Clone, Debug, PartialEq, Eq)]
pub enum ApprovalDistributionMessageV3 {
    Assignments(Vec<Assignment>),
    Approvals(Vec<IndirectSignedApprovalVoteV2>),
}

/// A message with the protocol version that it is written in.
#[derive(Clone, Debug, PartialEq, Eq)]
pub enum Versioned {
    V1(ApprovalDistributionMessageV1),
    V2(ApprovalDistributionMessageV1),
    V3(ApprovalDistributionMessageV3),
}

/// What a [`Versioned`] message says.
#[verifier::ext_equal]
pub ghost enum Notification {
    OldAssignments(ValidationVersion, Seq<AssignmentV1>),
    OldApprovals(ValidationVersion, Seq<IndirectSignedApprovalVote>),
    NewAssignments(Seq<Assignment>),
    NewApprovals(Seq<IndirectSignedApprovalVoteV2>),
}

impl View for Versioned {
    type V = Notification;

    open spec fn view(&self) -> Notification {
        match *self {
            Versioned::V1(ApprovalDistributionMessageV1::Assignments(list)) => Notification::OldAssignments(
                ValidationVersion::V1,
                list@,
            ),
            Versioned::V1(ApprovalDistributionMessageV1::Approvals(list)) => Notification::OldApprovals(
                ValidationVersion::V1,
                list@,
            ),
            Versioned::V2(ApprovalDistributionMessageV1::Assignments(list)) => Notification::OldAssignments(
                ValidationVersion::V2,
                list@,
            ),
            Versioned::V2(ApprovalDistributionMessageV1::Approvals(list)) => Notification::OldApprovals(
                ValidationVersion::V2,
                list@,
            ),
            Versioned::V3(ApprovalDistributionMessageV3::Assignments(list)) => Notification::NewAssignments(list@),
            Versioned::V3(ApprovalDistributionMessageV3::Approvals(list)) => Notification::NewApprovals(list@),
        }
    }
}

/// Picks a peer if it speaks a version of the protocol.
pub open spec fn speaker_of(version: ValidationVersion) -> spec_fn((PeerId, ValidationVersion)) -> Option<PeerId> {
    |peer: (PeerId, ValidationVersion)|
        if peer.1 == version {
            Some(peer.0)
        } else {
            None
        }
}

/// Puts an assignment in the first form.
pub open spec fn in_old_form() -> spec_fn(Assignment) -> Option<AssignmentV1> {
    |assignment: Assignment| messages::downgraded_assignment(assignment)
}

/// Puts a vote in the first form.
pub open spec fn vote_in_old_form() -> spec_fn(IndirectSignedApprovalVoteV2) -> Option<IndirectSignedApprovalVote> {
    |vote: IndirectSignedApprovalVoteV2| messages::downgraded_vote(vote)
}

/// The peers among those in a list that speak a version of the protocol.
pub open spec fn peers_of(peers: Seq<(PeerId, ValidationVersion)>, version: ValidationVersion) -> Seq<PeerId> {
    lists::filter_mapped(peers, speaker_of(version))
}

/// Sending each of some messages to the same peers; nothing is sent where there are no peers.
pub open spec fn sends(peers: Seq<PeerId>, messages: Seq<Notification>) -> Seq<Effect> {
    if peers.len() == 0 {
        Seq::empty()
    } else {
        messages.map_values(|message: Notification| Effect::Send(peers, message))
    }
}

/// The notifications that bring assignments to peers of one version: peers of the first two
/// versions get those that can be put in the first form, and nothing of the others.
pub open spec fn assignment_notifications(assignments: Seq<Assignment>, version: ValidationVersion) -> Seq<
    Notification,
> {
    if version == ValidationVersion::V3 {
        lists::pieces(assignments, MAX_ASSIGNMENT_BATCH_SIZE as int).map_values(
            |batch: Seq<Assignment>| Notification::NewAssignments(batch),
        )
    } else {
        lists::pieces(
            lists::filter_mapped(assignments, in_old_form()),
            MAX_ASSIGNMENT_BATCH_SIZE as int,
        ).map_values(|batch: Seq<AssignmentV1>| Notification::OldAssignments(version, batch))
    }
}

/// The notifications that bring votes to peers of one version: peers of the first two versions get
/// those that approve a single candidate, and nothing of the others.
pub open spec fn approval_notifications(votes: Seq<IndirectSignedApprovalVoteV2>, version: ValidationVersion) -> Seq<
    Notification,
> {
    if version == ValidationVersion::V3 {
        lists::pieces(votes, MAX_APPROVAL_BATCH_SIZE as int).map_values(
            |batch: Seq<IndirectSignedApprovalVoteV2>| Notification::NewApprovals(batch),
        )
    } else {
        lists::pieces(
            lists::filter_mapped(votes, vote_in_old_form()),
            MAX_APPROVAL_BATCH_SIZE as int,
        ).map_values(|batch: Seq<IndirectSignedApprovalVote>| Notification::OldApprovals(version, batch))
    }
}

/// How assignments get to peers: version after version, in batches of bounded size.
pub open spec fn assignment_sends(
    assignments: Seq<Assignment>,
    peers: Seq<(PeerId, ValidationVersion)>,
) -> Seq<Effect> {
    sends(peers_of(peers, ValidationVersion::V1), assignment_notifications(assignments, ValidationVersion::V1))
        + sends(peers_of(peers, ValidationVersion::V2), assignment_notifications(assignments, ValidationVersion::V2))
        + sends(peers_of(peers, ValidationVersion::V3), assignment_notifications(assignments, ValidationVersion::V3))
}

/// How votes get to peers: version after version, in batches of bounded size.
pub open spec fn approval_sends(
    votes: Seq<IndirectSignedApprovalVoteV2>,
    peers: Seq<(PeerId, ValidationVersion)>,
) -> Seq<Effect> {
    sends(peers_of(peers, ValidationVersion::V1), approval_notifications(votes, ValidationVersion::V1))
        + sends(peers_of(peers, ValidationVersion::V2), approval_notifications(votes, ValidationVersion::V2))
        + sends(peers_of(peers, ValidationVersion::V3), approval_notifications(votes, ValidationVersion::V3))
}

/// The peers among those in a list that speak a version of the protocol.
pub fn filter_by_peer_version(peers: &Vec<(PeerId, ValidationVersion)>, version: ValidationVersion) -> (
    speakers: Vec<PeerId>)
    ensures
        speakers@ == peers_of(peers@, version),
{
    let mut speakers: Vec<PeerId> = Vec::new();
    let mut i: usize = 0;
    while i < peers.len()
        invariant
            i <= peers.len(),
            speakers@ == lists::filter_mapped(peers@.take(i as int), speaker_of(version)),
        decreases peers.len() - i,
    {
        proof {
            lists::lemma_filter_mapped_step(peers@, i as int, speaker_of(version));
        }
        if peers[i].1 == version {
            speakers.push(peers[i].0);
        }
        i += 1;
    }
    assert(peers@.take(peers@.len() as int) =~= peers@);
    speakers
}

/// The assignments that can be put in the first form, in that form.
fn downgraded_assignments(assignments: &Vec<Assignment>) -> (old_form: Vec<AssignmentV1>)
    ensures
        old_form@ == lists::filter_mapped(assignments@, in_old_form()),
{
    let mut old_form: Vec<AssignmentV1> = Vec::new();
    let mut i: usize = 0;
    while i < assignments.len()
        invariant
            i <= assignments.len(),
            old_form@ == lists::filter_mapped(assignments@.take(i as int), in_old_form()),
        decreases assignments.len() - i,
    {
        proof {
            lists::lemma_filter_mapped_step(assignments@, i as int, in_old_form());
        }
        if let Some(old) = assignments[i].downgrade() {
            old_form.push(old);
        }
        i += 1;
    }
    assert(assignments@.take(assignments@.len() as int) =~= assignments@);
    old_form
}

/// The votes that can be put in the first form, in that form.
fn downgraded_votes(votes: &Vec<IndirectSignedApprovalVoteV2>) -> (old_form: Vec<IndirectSignedApprovalVote>)
    ensures
        old_form@ == lists::filter_mapped(votes@, vote_in_old_form()),
{
    let mut old_form: Vec<IndirectSignedApprovalVote> = Vec::new();
    let mut i: usize = 0;
    while i < votes.len()
        invariant
            i <= votes.len(),
            old_form@ == lists::filter_mapped(votes@.take(i as int), vote_in_old_form()),
        decreases votes.len() - i,
    {
        proof {
            lists::lemma_filter_mapped_step(votes@, i as int, vote_in_old_form());
        }
        if let Some(old) = votes[i].downgrade() {
            old_form.push(old);
        }
        i += 1;
    }
    assert(votes@.take(votes@.len() as int) =~= votes@);
    old_form
}

/// Sends a message to some peers.
fn send_one(out: &mut Vec<Action>, peers: &Vec<PeerId>, message: Versioned)
    ensures
        actions::effects(final(out)@) == actions::effects(old(out)@).push(Effect::Send(peers@, message@)),
{
    let action = Action::SendValidationMessage(copied(peers), message);
    proof {
        actions::lemma_effects_push(out@, action);
    }
    out.push(action);
}

/// Sends one more message of a sequence of messages.
proof fn lemma_sends_step(peers: Seq<PeerId>, messages: Seq<Notification>, i: int)
    requires
        0 <= i < messages.len(),
        peers.len() > 0,
    ensures
        sends(peers, messages.take(i + 1)) == sends(peers, messages.take(i)).push(
            Effect::Send(peers, messages[i]),
        ),
{
    assert(sends(peers, messages.take(i + 1)) =~= sends(peers, messages.take(i)).push(
        Effect::Send(peers, messages[i]),
    ));
}

/// Sends assignments to the peers that speak one version of the protocol.
fn send_assignments_to_version(
    out: &mut Vec<Action>,
    assignments: &Vec<Assignment>,
    peers: &Vec<(PeerId, ValidationVersion)>,
    version: ValidationVersion,
)
    ensures
        actions::effects(final(out)@) == actions::effects(old(out)@) + sends(
            peers_of(peers@, version),
            assignment_notifications(assignments@, version),
        ),
{
    let receivers = filter_by_peer_version(peers, version);
    let ghost notes = assignment_notifications(assignments@, version);
    let ghost start = actions::effects(out@);
    if receivers.len() == 0 {
        assert(start + sends(receivers@, notes) =~= start);
        return;
    }
    let mut i: usize = 0;
    assert(start + sends(receivers@, notes.take(0)) =~= start);
    if version == ValidationVersion::V3 {
        let batches = chunked(assignments, MAX_ASSIGNMENT_BATCH_SIZE);
        while i < batches.len()
            invariant
                i <= batches.len(),
                receivers@.len() > 0,
                version == ValidationVersion::V3,
                notes == assignment_notifications(assignments@, version),
                lists::nested(batches@) == lists::pieces(assignments@, MAX_ASSIGNMENT_BATCH_SIZE as int),
                actions::effects(out@) == start + sends(receivers@, notes.take(i as int)),
            decreases batches.len() - i,
        {
            let batch = copied(&batches[i]);
            proof {
                assert(lists::nested(batches@)[i as int] == batch@);
                assert(notes[i as int] == Notification::NewAssignments(batch@));
                lemma_sends_step(receivers@, notes, i as int);
            }
            send_one(out, &receivers, Versioned::V3(ApprovalDistributionMessageV3::Assignments(batch)));
            i += 1;
        }
        assert(notes.len() == batches@.len()) by {
            assert(lists::nested(batches@).len() == batches@.len());
        }
    } else {
        let old_form = downgraded_assignments(assignments);
        let batches = chunked(&old_form, MAX_ASSIGNMENT_BATCH_SIZE);
        while i < batches.len()
            invariant
                i <= batches.len(),
                receivers@.len() > 0,
                version != ValidationVersion::V3,
                notes == assignment_notifications(assignments@, version),
                old_form@ == lists::filter_mapped(assignments@, in_old_form()),
                lists::nested(batches@) == lists::pieces(old_form@, MAX_ASSIGNMENT_BATCH_SIZE as int),
                actions::effects(out@) == start + sends(receivers@, notes.take(i as int)),
            decreases batches.len() - i,
        {
            let batch = copied(&batches[i]);
            proof {
                assert(lists::nested(batches@)[i as int] == batch@);
                assert(notes[i as int] == Notification::OldAssignments(version, batch@));
                lemma_sends_step(receivers@, notes, i as int);
            }
            let message = ApprovalDistributionMessageV1::Assignments(batch);
            if version == ValidationVersion::V1 {
                send_one(out, &receivers, Versioned::V1(message));
            } else {
                send_one(out, &receivers, Versioned::V2(message));
            }
            i += 1;
        }
        assert(notes.len() == batches@.len()) by {
            assert(lists::nested(batches@).len() == batches@.len());
        }
    }
    assert(notes.take(i as int) =~= notes);
}

/// Sends votes to the peers that speak one version of the protocol.
fn send_approvals_to_version(
    out: &mut Vec<Action>,
    votes: &Vec<IndirectSignedApprovalVoteV2>,
    peers: &Vec<(PeerId, ValidationVersion)>,
    version: ValidationVersion,
)
    ensures
        actions::effects(final(out)@) == actions::effects(old(out)@) + sends(
            peers_of(peers@, version),
            approval_notifications(votes@, version),
        ),
{
    let receivers = filter_by_peer_version(peers, version);
    let ghost notes = approval_notifications(votes@, version);
    let ghost start = actions::effects(out@);
    if receivers.len() == 0 {
        assert(start + sends(receivers@, notes) =~= start);
        return;
    }
    let mut i: usize = 0;
    assert(start + sends(receivers@, notes.take(0)) =~= start);
    if version == ValidationVersion::V3 {
        let batches = chunked(votes, MAX_APPROVAL_BATCH_SIZE);
        while i < batches.len()
            invariant
                i <= batches.len(),
                receivers@.len() > 0,
                version == ValidationVersion::V3,
                notes == approval_notifications(votes@, version),
                lists::nested(batches@) == lists::pieces(votes@, MAX_APPROVAL_BATCH_SIZE as int),
                actions::effects(out@) == start + sends(receivers@, notes.take(i as int)),
            decreases batches.len() - i,
        {
            let batch = copied(&batches[i]);
            proof {
                assert(lists::nested(batches@)[i as int] == batch@);
                assert(notes[i as int] == Notification::NewApprovals(batch@));
                lemma_sends_step(receivers@, notes, i as int);
            }
            send_one(out, &receivers, Versioned::V3(ApprovalDistributionMessageV3::Approvals(batch)));
            i += 1;
        }
        assert(notes.len() == batches@.len()) by {
            assert(lists::nested(batches@).len() == batches@.len());
        }
    } else {
        let old_form = downgraded_votes(votes);
        let batches = chunked(&old_form, MAX_APPROVAL_BATCH_SIZE);
        while i < batches.len()
            invariant
                i <= batches.len(),
                receivers@.len() > 0,
                version != ValidationVersion::V3,
                notes == approval_notifications(votes@, version),
                old_form@ == lists::filter_mapped(votes@, vote_in_old_form()),
                lists::nested(batches@) == lists::pieces(old_form@, MAX_APPROVAL_BATCH_SIZE as int),
                actions::effects(out@) == start + sends(receivers@, notes.take(i as int)),
            decreases batches.len() - i,
        {
            let batch = copied(&batches[i]);
            proof {
                assert(lists::nested(batches@)[i as int] == batch@);
                assert(notes[i as int] == Notification::OldApprovals(version, batch@));
                lemma_sends_step(receivers@, notes, i as int);
            }
            let message = ApprovalDistributionMessageV1::Approvals(batch);
            if version == ValidationVersion::V1 {
                send_one(out, &receivers, Versioned::V1(message));
            } else {
                send_one(out, &receivers, Versioned::V2(message));
            }
            i += 1;
        }
        assert(notes.len() == batches@.len()) by {
            assert(lists::nested(batches@).len() == batches@.len());
        }
    }
    assert(notes.take(i as int) =~= notes);
}

/// Sends assignments to peers, in the form that each of them understands and in batches of bounded
/// size.
pub fn send_assignments_batched(
    out: &mut Vec<Action>,
    assignments: &Vec<Assignment>,
    peers: &Vec<(PeerId, ValidationVersion)>,
)
    ensures
        actions::effects(final(out)@) == actions::effects(old(out)@) + assignment_sends(
            assignments@,
            peers@,
        ),
{
    send_assignments_to_version(out, assignments, peers, ValidationVersion::V1);
    send_assignments_to_version(out, assignments, peers, ValidationVersion::V2);
    send_assignments_to_version(out, assignments, peers, ValidationVersion::V3);
    assert(actions::effects(out@) =~= actions::effects(old(out)@) + assignment_sends(assignments@, peers@));
}

/// Sends votes to peers, in the form that each of them understands and in batches of bounded size.
pub fn send_approvals_batched(
    out: &mut Vec<Action>,
    votes: &Vec<IndirectSignedApprovalVoteV2>,
    peers: &Vec<(PeerId, ValidationVersion)>,
)
    ensures
        actions::effects(final(out)@) == actions::effects(old(out)@) + approval_sends(votes@, peers@),
{
    send_approvals_to_version(out, votes, peers, ValidationVersion::V1);
    send_approvals_to_version(out, votes, peers, ValidationVersion::V2);
    send_approvals_to_version(out, votes, peers, ValidationVersion::V3);
    assert(actions::effects(out@) =~= actions::effects(old(out)@) + approval_sends(votes@, peers@));
}

/// A full batch takes no more than a third of a notification.
pub proof fn batches_fit_into_notifications()
    ensures
        3 * MAX_ASSIGNMENT_BATCH_SIZE * ASSIGNMENT_SIZE <= MAX_NOTIFICATION_SIZE,
        3 * MAX_APPROVAL_BATCH_SIZE * APPROVAL_SIZE <= MAX_NOTIFICATION_SIZE,
{
}

/// A batch is as large as it can be for that: three of the next size would not fit.
pub proof fn larger_batches_would_not_fit()
    ensures
        3 * (MAX_ASSIGNMENT_BATCH_SIZE + 1) * ASSIGNMENT_SIZE > MAX_NOTIFICATION_SIZE,
        3 * (MAX_APPROVAL_BATCH_SIZE + 1) * APPROVAL_SIZE > MAX_NOTIFICATION_SIZE,
{
}

impl Notification {
    /// The version of the protocol that the message is written in.
    pub open spec fn version(self) -> ValidationVersion {
        match self {
            Notification::OldAssignments(version, _) => version,
            Notification::OldApprovals(version, _) => version,
            Notification::NewAssignments(_) => ValidationVersion::V3,
            Notification::NewApprovals(_) => ValidationVersion::V3,
        }
    }

    /// The number of messages in the notification.
    pub open spec fn size(self) -> nat {
        match self {
            Notification::OldAssignments(_, list) => list.len(),
            Notification::OldApprovals(_, list) => list.len(),
            Notification::NewAssignments(list) => list.len(),
            Notification::NewApprovals(list) => list.len(),
        }
    }
}

/// Whether an effect sends a message that is neither empty nor too large to peers that all speak its
/// version of the protocol.
pub open spec fn well_addressed(effect: Effect, peers: Seq<(PeerId, ValidationVersion)>, limit: nat) -> bool {
    effect matches Effect::Send(receivers, note) && {
        &&& receivers.len() > 0
        &&& 0 < note.size() <= limit
        &&& forall|i: int|
            0 <= i < receivers.len() ==> peers.contains((#[trigger] receivers[i], note.version()))
    }
}

/// The speakers of a version are among the peers, with that version.
proof fn lemma_speakers(peers: Seq<(PeerId, ValidationVersion)>, version: ValidationVersion)
    ensures
        forall|i: int|
            0 <= i < peers_of(peers, version).len() ==> peers.contains(
                (#[trigger] peers_of(peers, version)[i], version),
            ),
    decreases peers.len(),
{
    if peers.len() > 0 {
        let short = peers.drop_last();
        lemma_speakers(short, version);
        assert forall|i: int| 0 <= i < peers_of(peers, version).len() implies peers.contains(
            (#[trigger] peers_of(peers, version)[i], version),
        ) by {
            if i < peers_of(short, version).len() {
                let peer = peers_of(short, version)[i];
                assert(short.contains((peer, version)));
                let j = choose|j: int| 0 <= j < short.len() && short[j] == (peer, version);
                assert(peers[j] == (peer, version));
            } else {
                assert(peers[peers.len() - 1] == (peers.last().0, version));
            }
        }
    }
}

/// Notifications of one version are well addressed if they are sent to its speakers.
proof fn lemma_sends_well_addressed(
    peers: Seq<(PeerId, ValidationVersion)>,
    version: ValidationVersion,
    notes: Seq<Notification>,
    limit: nat,
)
    requires
        forall|i: int| 0 <= i < notes.len() ==> (#[trigger] notes[i]).version() == version && 0 < notes[i].size() <= limit,
    ensures
        forall|i: int|
            0 <= i < sends(peers_of(peers, version), notes).len() ==> well_addressed(
                #[trigger] sends(peers_of(peers, version), notes)[i],
                peers,
                limit,
            ),
{
    lemma_speakers(peers, version);
    let receivers = peers_of(peers, version);
    let all = sends(receivers, notes);
    assert forall|i: int| 0 <= i < all.len() implies well_addressed(#[trigger] all[i], peers, limit) by {
        assert(all[i] == Effect::Send(receivers, notes[i]));
        assert(notes[i].version() == version);
    }
}

/// Everything that is well addressed in two lists is so in both of them together.
proof fn lemma_addressed_together(
    a: Seq<Effect>,
    b: Seq<Effect>,
    peers: Seq<(PeerId, ValidationVersion)>,
    limit: nat,
)
    requires
        forall|i: int| 0 <= i < a.len() ==> well_addressed(#[trigger] a[i], peers, limit),
        forall|i: int| 0 <= i < b.len() ==> well_addressed(#[trigger] b[i], peers, limit),
    ensures
        forall|i: int| 0 <= i < (a + b).len() ==> well_addressed(#[trigger] (a + b)[i], peers, limit),
{
    assert forall|i: int| 0 <= i < (a + b).len() implies well_addressed(#[trigger] (a + b)[i], peers, limit) by {
        if i < a.len() {
            assert((a + b)[i] == a[i]);
        } else {
            assert((a + b)[i] == b[i - a.len()]);
        }
    }
}

/// Whatever is sent, every peer gets messages of the version that it speaks alone, and no notification
/// is empty or holds more than a batch.
pub proof fn peers_get_their_own_version(
    assignments: Seq<Assignment>,
    votes: Seq<IndirectSignedApprovalVoteV2>,
    peers: Seq<(PeerId, ValidationVersion)>,
)
    ensures
        forall|i: int|
            0 <= i < assignment_sends(assignments, peers).len() ==> well_addressed(
                #[trigger] assignment_sends(assignments, peers)[i],
                peers,
                MAX_ASSIGNMENT_BATCH_SIZE as nat,
            ),
        forall|i: int|
            0 <= i < approval_sends(votes, peers).len() ==> well_addressed(
                #[trigger] approval_sends(votes, peers)[i],
                peers,
                MAX_APPROVAL_BATCH_SIZE as nat,
            ),
{
    let v1 = ValidationVersion::V1;
    let v2 = ValidationVersion::V2;
    let v3 = ValidationVersion::V3;
    lemma_assignment_notes(assignments, v1);
    lemma_assignment_notes(assignments, v2);
    lemma_assignment_notes(assignments, v3);
    let limit = MAX_ASSIGNMENT_BATCH_SIZE as nat;
    lemma_sends_well_addressed(peers, v1, assignment_notifications(assignments, v1), limit);
    lemma_sends_well_addressed(peers, v2, assignment_notifications(assignments, v2), limit);
    lemma_sends_well_addressed(peers, v3, assignment_notifications(assignments, v3), limit);
    let a = sends(peers_of(peers, v1), assignment_notifications(assignments, v1));
    let b = sends(peers_of(peers, v2), assignment_notifications(assignments, v2));
    let c = sends(peers_of(peers, v3), assignment_notifications(assignments, v3));
    lemma_addressed_together(a, b, peers, limit);
    lemma_addressed_together(a + b, c, peers, limit);
    lemma_approval_notes(votes, v1);
    lemma_approval_notes(votes, v2);
    lemma_approval_notes(votes, v3);
    let limit = MAX_APPROVAL_BATCH_SIZE as nat;
    lemma_sends_well_addressed(peers, v1, approval_notifications(votes, v1), limit);
    lemma_sends_well_addressed(peers, v2, approval_notifications(votes, v2), limit);
    lemma_sends_well_addressed(peers, v3, approval_notifications(votes, v3), limit);
    let a = sends(peers_of(peers, v1), approval_notifications(votes, v1));
    let b = sends(peers_of(peers, v2), approval_notifications(votes, v2));
    let c = sends(peers_of(peers, v3), approval_notifications(votes, v3));
    lemma_addressed_together(a, b, peers, limit);
    lemma_addressed_together(a + b, c, peers, limit);
}

proof fn lemma_assignment_notes(assignments: Seq<Assignment>, version: ValidationVersion)
    ensures
        forall|i: int|
            0 <= i < assignment_notifications(assignments, version).len() ==> {
                &&& (#[trigger] assignment_notifications(assignments, version)[i]).version() == version
                &&& 0 < assignment_notifications(assignments, version)[i].size() <= MAX_ASSIGNMENT_BATCH_SIZE
            },
{
    let size = MAX_ASSIGNMENT_BATCH_SIZE as int;
    let old = lists::filter_mapped(assignments, in_old_form());
    lists::pieces_cover_the_items(assignments, size);
    lists::pieces_cover_the_items(old, size);
    let notes = assignment_notifications(assignments, version);
    assert forall|i: int| 0 <= i < notes.len() implies (#[trigger] notes[i]).version() == version && 0
        < notes[i].size() <= MAX_ASSIGNMENT_BATCH_SIZE by {
        if version == ValidationVersion::V3 {
            assert(notes[i].size() == lists::pieces(assignments, size)[i].len());
        } else {
            assert(notes[i].size() == lists::pieces(old, size)[i].len());
        }
    }
}

proof fn lemma_approval_notes(votes: Seq<IndirectSignedApprovalVoteV2>, version: ValidationVersion)
    ensures
        forall|i: int|
            0 <= i < approval_notifications(votes, version).len() ==> {
                &&& (#[trigger] approval_notifications(votes, version)[i]).version() == version
                &&& 0 < approval_notifications(votes, version)[i].size() <= MAX_APPROVAL_BATCH_SIZE
            },
{
    let size = MAX_APPROVAL_BATCH_SIZE as int;
    let old = lists::filter_mapped(votes, vote_in_old_form());
    lists::pieces_cover_the_items(votes, size);
    lists::pieces_cover_the_items(old, size);
    let notes = approval_notifications(votes, version);
    assert forall|i: int| 0 <= i < notes.len() implies (#[trigger] notes[i]).version() == version && 0
        < notes[i].size() <= MAX_APPROVAL_BATCH_SIZE by {
        if version == ValidationVersion::V3 {
            assert(notes[i].size() == lists::pieces(votes, size)[i].len());
        } else {
            assert(notes[i].size() == lists::pieces(old, size)[i].len());
        }
    }
}

impl Notification {
    /// Whether the message at a position says the same as an assignment.
    pub open spec fn brings_assignment(self, j: int, assignment: Assignment) -> bool {
        match self {
            Notification::OldAssignments(_, list) => Some(list[j]) == messages::downgraded_assignment(assignment),
            Notification::NewAssignments(list) => list[j] == assignment,
            _ => false,
        }
    }

    /// Whether the message at a position says the same as a vote.
    pub open spec fn brings_vote(self, j: int, vote: IndirectSignedApprovalVoteV2) -> bool {
        match self {
            Notification::OldApprovals(_, list) => Some(list[j]) == messages::downgraded_vote(vote),
            Notification::NewApprovals(list) => list[j] == vote,
            _ => false,
        }
    }
}

/// How assignments come to a peer that understands all of them: one after the other in their order, in
/// batches that are full but for the last one, which holds all that are left.
pub proof fn assignments_are_batched_in_order(
    assignments: Seq<Assignment>,
    peer: PeerId,
    version: ValidationVersion,
    k: int,
    j: int,
)
    requires
        version == ValidationVersion::V3 || forall|i: int|
            0 <= i < assignments.len() ==> messages::downgraded_assignment(#[trigger] assignments[i]) is Some,
        0 <= k < assignment_sends(assignments, seq![(peer, version)]).len(),
    ensures
        ({
            let all = assignment_sends(assignments, seq![(peer, version)]);
            all[k] matches Effect::Send(receivers, note) && {
                &&& receivers == seq![peer]
                &&& note.version() == version
                &&& note.size() == if k == all.len() - 1 {
                    assignments.len() - k * MAX_ASSIGNMENT_BATCH_SIZE
                } else {
                    MAX_ASSIGNMENT_BATCH_SIZE as int
                }
                &&& 0 <= j < note.size() ==> k * MAX_ASSIGNMENT_BATCH_SIZE + j < assignments.len()
                    && note.brings_assignment(j, assignments[k * MAX_ASSIGNMENT_BATCH_SIZE + j])
            }
        }),
{
    let size = MAX_ASSIGNMENT_BATCH_SIZE as int;
    let all = assignment_sends(assignments, seq![(peer, version)]);
    let notes = assignment_notifications(assignments, version);
    lemma_one_speaker(peer, version);
    assert(all =~= sends(seq![peer], notes));
    if version == ValidationVersion::V3 {
        lists::pieces_cover_the_items(assignments, size);
        lists::pieces_are_consecutive(assignments, size, k, 0);
        if 0 <= j < notes[k].size() {
            lists::pieces_are_consecutive(assignments, size, k, j);
        }
    } else {
        let old = lists::filter_mapped(assignments, in_old_form());
        assert forall|i: int| 0 <= i < assignments.len() implies in_old_form()(#[trigger] assignments[i]) is Some by {}
        lists::lemma_filter_mapped_all(assignments, in_old_form());
        lists::pieces_cover_the_items(old, size);
        lists::pieces_are_consecutive(old, size, k, 0);
        if 0 <= j < notes[k].size() {
            lists::pieces_are_consecutive(old, size, k, j);
        }
    }
}

/// How votes come to a peer that understands all of them: one after the other in their order, in
/// batches that are full but for the last one, which holds all that are left.
pub proof fn votes_are_batched_in_order(
    votes: Seq<IndirectSignedApprovalVoteV2>,
    peer: PeerId,
    version: ValidationVersion,
    k: int,
    j: int,
)
    requires
        version == ValidationVersion::V3 || forall|i: int|
            0 <= i < votes.len() ==> messages::downgraded_vote(#[trigger] votes[i]) is Some,
        0 <= k < approval_sends(votes, seq![(peer, version)]).len(),
    ensures
        ({
            let all = approval_sends(votes, seq![(peer, version)]);
            all[k] matches Effect::Send(receivers, note) && {
                &&& receivers == seq![peer]
                &&& note.version() == version
                &&& note.size() == if k == all.len() - 1 {
                    votes.len() - k * MAX_APPROVAL_BATCH_SIZE
                } else {
                    MAX_APPROVAL_BATCH_SIZE as int
                }
                &&& 0 <= j < note.size() ==> k * MAX_APPROVAL_BATCH_SIZE + j < votes.len() && note.brings_vote(
                    j,
                    votes[k * MAX_APPROVAL_BATCH_SIZE + j],
                )
            }
        }),
{
    let size = MAX_APPROVAL_BATCH_SIZE as int;
    let all = approval_sends(votes, seq![(peer, version)]);
    let notes = approval_notifications(votes, version);
    lemma_one_speaker(peer, version);
    assert(all =~= sends(seq![peer], notes));
    if version == ValidationVersion::V3 {
        lists::pieces_cover_the_items(votes, size);
        lists::pieces_are_consecutive(votes, size, k, 0);
        if 0 <= j < notes[k].size() {
            lists::pieces_are_consecutive(votes, size, k, j);
        }
    } else {
        let old = lists::filter_mapped(votes, vote_in_old_form());
        assert forall|i: int| 0 <= i < votes.len() implies vote_in_old_form()(#[trigger] votes[i]) is Some by {}
        lists::lemma_filter_mapped_all(votes, vote_in_old_form());
        lists::pieces_cover_the_items(old, size);
        lists::pieces_are_consecutive(old, size, k, 0);
        if 0 <= j < notes[k].size() {
            lists::pieces_are_consecutive(old, size, k, j);
        }
    }
}

/// A single peer speaks its version alone.
proof fn lemma_one_speaker(peer: PeerId, version: ValidationVersion)
    ensures
        peers_of(seq![(peer, version)], version) == seq![peer],
        forall|other: ValidationVersion| other != version ==> #[trigger] peers_of(seq![(peer, version)], other).len()
            == 0,
{
    reveal_with_fuel(lists::filter_mapped, 2);
    let peers = seq![(peer, version)];
    assert(peers.drop_last() =~= Seq::empty());
    assert(peers_of(peers, version) =~= seq![peer]);
}

} // verus!
