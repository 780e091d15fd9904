//! Scoring of peers.
use crate::actions::{self, Action, Effect};
use crate::dict;
use crate::lists::copied;
use crate::primitives::PeerId;
use vstd::prelude::*;

verus! {

/// Something that a peer is punished or rewarded for.
#[derive(Clone, Copy, Debug, PartialEq, Eq, Structural)]
pub enum Rep {
    /// The peer sent an out-of-view assignment or approval.
    UnexpectedMessage,
    /// The peer sent the same message again.
    DuplicateMessage,
    /// The peer sent a valid assignment that is too far in the future.
    AssignmentTooFarInTheFuture,
    /// The peer sent a message that is not valid.
    InvalidMessage,
    /// The peer sent a candidate index that no block can have.
    OversizedBitfield,
    /// The peer sent a valid message that was known.
    ValidMessage,
    /// The peer was the first to send a valid message.
    ValidMessageFirst,
}

pub const COST_UNEXPECTED_MESSAGE: Rep = Rep::UnexpectedMessage;

pub const COST_DUPLICATE_MESSAGE: Rep = Rep::DuplicateMessage;

pub const COST_ASSIGNMENT_TOO_FAR_IN_THE_FUTURE: Rep = Rep::AssignmentTooFarInTheFuture;

pub const COST_INVALID_MESSAGE: Rep = Rep::InvalidMessage;

pub const COST_OVERSIZED_BITFIELD: Rep = Rep::OversizedBitfield;

pub const BENEFIT_VALID_MESSAGE: Rep = Rep::ValidMessage;

pub const BENEFIT_VALID_MESSAGE_FIRST: Rep = Rep::ValidMessageFirst;

impl Rep {
    /// By how much the change moves the score of a peer.
    pub open spec fn value(self) -> int {
        match self {
            Rep::UnexpectedMessage => -100_000,
            Rep::DuplicateMessage => -200_000,
            Rep::AssignmentTooFarInTheFuture => -100_000,
            Rep::InvalidMessage => -300_000,
            Rep::OversizedBitfield => -300_000,
            Rep::ValidMessage => 10_000,
            Rep::ValidMessageFirst => 15_000,
        }
    }

    /// By how much the change moves the score of a peer.
    pub fn cost_or_benefit(&self) -> (value: i32)
        ensures
            value == self.value(),
    {
        match self {
            Rep::UnexpectedMessage => -100_000,
            Rep::DuplicateMessage => -200_000,
            Rep::AssignmentTooFarInTheFuture => -100_000,
            Rep::InvalidMessage => -300_000,
            Rep::OversizedBitfield => -300_000,
            Rep::ValidMessage => 10_000,
            Rep::ValidMessageFirst => 15_000,
        }
    }
}

/// A sum that stays within the range of a 32-bit number.
pub open spec fn saturated(value: int) -> int {
    if value > i32::MAX {
        i32::MAX as int
    } else if value < i32::MIN {
        i32::MIN as int
    } else {
        value
    }
}

/// The sum of two numbers, within the range of a 32-bit number.
fn saturating_sum(a: i32, b: i32) -> (sum: i32)
    ensures
        sum == saturated(a + b),
{
    let wide: i64 = a as i64 + b as i64;
    if wide > i32::MAX as i64 {
        i32::MAX
    } else if wide < i32::MIN as i64 {
        i32::MIN
    } else {
        wide as i32
    }
}

/// The scores after one more change.
pub open spec fn scored(scores: Map<PeerId, i32>, peer: PeerId, rep: Rep) -> Map<PeerId, i32> {
    if scores.contains_key(peer) {
        scores.insert(peer, saturated(scores[peer] + rep.value()) as i32)
    } else {
        scores.insert(peer, rep.value() as i32)
    }
}

/// The position of a peer in a list of scores.
fn score_position(list: &Vec<(PeerId, i32)>, peer: PeerId) -> (position: Option<usize>)
    ensures
        position matches Some(i) ==> i < list@.len() && list@[i as int].0 == peer,
        position is None ==> !dict::has_key(list@, peer),
{
    let mut i: usize = 0;
    while i < list.len()
        invariant
            i <= list.len(),
            forall|j: int| 0 <= j < i ==> #[trigger] list@[j].0 != peer,
        decreases list.len() - i,
    {
        if list[i].0 == peer {
            return Some(i);
        }
        i += 1;
    }
    None
}

/// Adds a change of reputation to the sums that are kept per peer.
pub fn add_reputation(acc: &mut Vec<(PeerId, i32)>, peer: PeerId, rep: Rep)
    requires
        dict::keys_unique(old(acc)@),
    ensures
        dict::keys_unique(final(acc)@),
        dict::dict(final(acc)@) == scored(dict::dict(old(acc)@), peer, rep),
{
    let value: i32 = rep.cost_or_benefit();
    match score_position(acc, peer) {
        Some(i) => {
            let sum: i32 = saturating_sum(acc[i].1, value);
            proof {
                dict::lemma_dict_at(acc@, i as int);
                dict::lemma_dict_update(acc@, i as int, sum);
            }
            acc.set(i, (peer, sum));
        },
        None => {
            proof {
                dict::lemma_dict_push(acc@, peer, value);
            }
            acc.push((peer, value));
        },
    }
}

/// Reports changes of reputation, at once or summed up per peer until they are asked for.
#[derive(Debug)]
pub struct ReputationAggregator {
    send_immediately: bool,
    by_peer: Vec<(PeerId, i32)>,
}

/// The state of a [`ReputationAggregator`].
#[verifier::ext_equal]
pub ghost struct Standing {
    /// Whether each change is reported as soon as it happens.
    pub immediate: bool,
    /// The sums that are still to be reported.
    pub scores: Map<PeerId, i32>,
}

impl View for ReputationAggregator {
    type V = Standing;

    closed spec fn view(&self) -> Standing {
        Standing { immediate: self.send_immediately, scores: dict::dict(self.by_peer@) }
    }
}

/// The standing after a change of the reputation of a peer.
pub open spec fn standing_after(standing: Standing, peer: PeerId, rep: Rep) -> Standing {
    if standing.immediate {
        standing
    } else {
        Standing { scores: scored(standing.scores, peer, rep), ..standing }
    }
}

/// What a change of the reputation of a peer makes the node report at once.
pub open spec fn report_effects(standing: Standing, peer: PeerId, rep: Rep) -> Seq<Effect> {
    if standing.immediate {
        seq![Effect::Report(peer, rep)]
    } else {
        Seq::empty()
    }
}

impl ReputationAggregator {
    /// Whether each peer has at most one sum.
    pub closed spec fn wf(self) -> bool {
        dict::keys_unique(self.by_peer@)
    }

    /// An aggregator without any sums.
    pub fn new(send_immediately: bool) -> (aggregator: ReputationAggregator)
        ensures
            aggregator.wf(),
            aggregator@ == (Standing { immediate: send_immediately, scores: Map::empty() }),
    {
        let aggregator = ReputationAggregator { send_immediately, by_peer: Vec::new() };
        assert(dict::dict(aggregator.by_peer@) =~= Map::empty());
        aggregator
    }

    /// Reports a change of the reputation of a peer, or keeps it for later.
    pub fn modify(&mut self, out: &mut Vec<Action>, peer: PeerId, rep: Rep)
        requires
            old(self).wf(),
        ensures
            final(self).wf(),
            final(self)@ == standing_after(old(self)@, peer, rep),
            actions::effects(final(out)@) == actions::effects(old(out)@) + report_effects(
                old(self)@,
                peer,
                rep,
            ),
    {
        if self.send_immediately {
            let action = Action::ReportPeer(peer, rep);
            proof {
                actions::lemma_effects_push(out@, action);
            }
            out.push(action);
        } else {
            add_reputation(&mut self.by_peer, peer, rep);
        }
        assert(actions::effects(out@) =~= actions::effects(old(out)@) + report_effects(old(self)@, peer, rep));
    }

    /// Reports all sums and starts anew; nothing is reported where there are none.
    pub fn send(&mut self, out: &mut Vec<Action>)
        requires
            old(self).wf(),
        ensures
            final(self).wf(),
            final(self)@ == (Standing { scores: Map::empty(), ..old(self)@ }),
            actions::effects(final(out)@) == if old(self)@.scores == Map::<PeerId, i32>::empty() {
                actions::effects(old(out)@)
            } else {
                actions::effects(old(out)@).push(Effect::ReportAll { sums: old(self)@.scores, once_each: true })
            },
    {
        if self.by_peer.len() == 0 {
            assert(dict::dict(self.by_peer@) =~= Map::empty());
            return;
        }
        let sums = copied(&self.by_peer);
        proof {
            dict::lemma_dict_at(self.by_peer@, 0);
            actions::lemma_effects_push(out@, Action::ReportPeers(sums));
        }
        out.push(Action::ReportPeers(sums));
        self.by_peer = Vec::new();
        assert(dict::dict(self.by_peer@) =~= Map::empty());
    }
}

/// A peer that sends a valid message out of view loses more than it gains, whether or not it is the
/// first to send it.
pub proof fn out_of_view_messages_do_not_pay()
    ensures
        COST_UNEXPECTED_MESSAGE.value() + BENEFIT_VALID_MESSAGE.value() < 0,
        COST_UNEXPECTED_MESSAGE.value() + BENEFIT_VALID_MESSAGE_FIRST.value() < 0,
{
}

/// The sum of several changes.
pub open spec fn total(reps: Seq<Rep>) -> int
    decreases reps.len(),
{
    if reps.len() == 0 {
        0
    } else {
        total(reps.drop_last()) + reps.last().value()
    }
}

/// The scores after several changes of the reputation of a peer.
pub open spec fn scored_all(scores: Map<PeerId, i32>, peer: PeerId, reps: Seq<Rep>) -> Map<PeerId, i32>
    decreases reps.len(),
{
    if reps.len() == 0 {
        scores
    } else {
        scored(scored_all(scores, peer, reps.drop_last()), peer, reps.last())
    }
}

/// Changes that are kept for later add up: as long as no sum on the way leaves the range of a 32-bit
/// number, the score of a peer is the sum of its changes, and no other score is touched.
pub proof fn delayed_changes_add_up(scores: Map<PeerId, i32>, peer: PeerId, reps: Seq<Rep>, other: PeerId)
    requires
        !scores.contains_key(peer),
        reps.len() > 0,
        forall|n: int| 0 <= n <= reps.len() ==> i32::MIN <= #[trigger] total(reps.take(n)) <= i32::MAX,
    ensures
        scored_all(scores, peer, reps).contains_key(peer),
        scored_all(scores, peer, reps)[peer] == total(reps),
        other != peer ==> (scored_all(scores, peer, reps).contains_key(other) <==> scores.contains_key(other)),
        other != peer && scores.contains_key(other) ==> scored_all(scores, peer, reps)[other] == scores[other],
    decreases reps.len(),
{
    let short = reps.drop_last();
    assert(reps.take(reps.len() as int) =~= reps);
    assert(i32::MIN <= total(reps) <= i32::MAX);
    if short.len() == 0 {
        assert(scored_all(scores, peer, short) == scores);
        assert(total(short) == 0);
    } else {
        assert forall|n: int| 0 <= n <= short.len() implies i32::MIN <= #[trigger] total(short.take(n)) <= i32::MAX by {
            assert(short.take(n) =~= reps.take(n));
        }
        delayed_changes_add_up(scores, peer, short, other);
    }
}

/// A change is added to the sum of its peer, as far as that does not leave the range of the sums; then the sum stays at
/// the end of the range.  The sums of other peers stay as they are.
pub proof fn sums_stay_in_range(scores: Map<PeerId, i32>, peer: PeerId, rep: Rep, other: PeerId)
    ensures
        ({
            let next = scored(scores, peer, rep);
            let was = if scores.contains_key(peer) {
                scores[peer] as int
            } else {
                0
            };
            &&& next.contains_key(peer)
            &&& i32::MIN <= was + rep.value() <= i32::MAX ==> next[peer] == was + rep.value()
            &&& was + rep.value() > i32::MAX ==> next[peer] == i32::MAX
            &&& was + rep.value() < i32::MIN ==> next[peer] == i32::MIN
            &&& other != peer ==> (next.contains_key(other) <==> scores.contains_key(other))
            &&& other != peer ==> next[other] == scores[other]
        }),
{
}

/// A change is either reported at once, for its peer and as it is, or added to the sums, never both.
pub proof fn changes_are_reported_or_kept(standing: Standing, peer: PeerId, rep: Rep)
    ensures
        standing.immediate ==> {
            &&& standing_after(standing, peer, rep) == standing
            &&& report_effects(standing, peer, rep) == seq![Effect::Report(peer, rep)]
        },
        !standing.immediate ==> {
            &&& standing_after(standing, peer, rep) == (Standing {
                immediate: false,
                scores: scored(standing.scores, peer, rep),
            })
            &&& report_effects(standing, peer, rep).len() == 0
        },
{
}

/// What messages are worth: good ones something, a new one more than one that is known; of the bad ones an invalid
/// one costs most, a repeated one less, an unexpected one least, and each more than any good one is worth.
pub proof fn changes_are_ordered()
    ensures
        0 < Rep::ValidMessage.value() < Rep::ValidMessageFirst.value(),
        Rep::InvalidMessage.value() < Rep::DuplicateMessage.value() < Rep::UnexpectedMessage.value() < 0,
        Rep::AssignmentTooFarInTheFuture.value() == Rep::UnexpectedMessage.value(),
        Rep::OversizedBitfield.value() == Rep::InvalidMessage.value(),
        Rep::UnexpectedMessage.value() + Rep::ValidMessageFirst.value() < 0,
{
}

} // verus!
