//! Sending messages to more peers, and again, where finality lags.
use crate::block::Block;
use crate::primitives::{BlockHash, BlockNumber};
use crate::propagation::{Change, Reform, Scope};
use crate::state::{Node, State};
use vstd::prelude::*;

verus! {

/// When the node sends messages beyond what the topology demands.
#[derive(Clone, Copy, Debug, PartialEq, Eq)]
pub struct AggressionConfig {
    /// The lag from which on the node sends its own messages to all peers.
    pub l1_threshold: Option<BlockNumber>,
    /// The lag from which on the node sends the messages of others along both dimensions.
    pub l2_threshold: Option<BlockNumber>,
    /// The number of blocks after which messages about a block that is not final are sent again; zero
    /// means never.
    pub resend_unfinalized_period: Option<BlockNumber>,
}

/// Whether a lag has reached a threshold, if there is one.
pub open spec fn reached(threshold: Option<BlockNumber>, lag: BlockNumber) -> bool {
    match threshold {
        Some(bound) => lag >= bound,
        None => false,
    }
}

fn has_reached(threshold: Option<BlockNumber>, lag: BlockNumber) -> (answer: bool)
    ensures
        answer == reached(threshold, lag),
{
    match threshold {
        Some(bound) => lag >= bound,
        None => false,
    }
}

impl Default for AggressionConfig {
    fn default() -> (config: AggressionConfig)
        ensures
            config == (AggressionConfig {
                l1_threshold: Some(16),
                l2_threshold: Some(64),
                resend_unfinalized_period: Some(8),
            }),
    {
        AggressionConfig { l1_threshold: Some(16), l2_threshold: Some(64), resend_unfinalized_period: Some(8) }
    }
}

impl AggressionConfig {
    /// Whether the lag of approval checking calls for more messages: it has reached the first
    /// threshold or, where there is none, it is a multiple of the period.
    pub open spec fn triggers(self, lag: BlockNumber) -> bool {
        match self.l1_threshold {
            Some(threshold) => lag >= threshold,
            None => match self.resend_unfinalized_period {
                Some(period) => period > 0 && lag > 0 && lag % period == 0,
                None => false,
            },
        }
    }

    /// Whether the lag of approval checking calls for more messages.
    pub fn should_trigger_aggression(&self, approval_checking_lag: BlockNumber) -> (answer: bool)
        ensures
            answer == self.triggers(approval_checking_lag),
    {
        match self.l1_threshold {
            Some(threshold) => approval_checking_lag >= threshold,
            None => match self.resend_unfinalized_period {
                Some(period) => period > 0 && approval_checking_lag > 0 && approval_checking_lag % period == 0,
                None => false,
            },
        }
    }
}

/// The smallest number of some blocks.
pub open spec fn oldest(blocks: Seq<(BlockHash, Block)>) -> BlockNumber
    decreases blocks.len(),
{
    if blocks.len() == 0 {
        BlockNumber::MAX
    } else {
        let rest = oldest(blocks.drop_last());
        if blocks.last().1.number < rest {
            blocks.last().1.number
        } else {
            rest
        }
    }
}

/// The largest number of some blocks.
pub open spec fn newest(blocks: Seq<(BlockHash, Block)>) -> BlockNumber
    decreases blocks.len(),
{
    if blocks.len() == 0 {
        0
    } else {
        let rest = newest(blocks.drop_last());
        if blocks.last().1.number > rest {
            blocks.last().1.number
        } else {
            rest
        }
    }
}

impl Node {
    /// After messages have been sent again, if the time has come for it.
    pub open spec fn resent(self) -> Node {
        match self.config.resend_unfinalized_period {
            Some(period) => self.reformed(Scope::Aged { newest: newest(self.blocks), period }, Reform::Resend),
            None => self,
        }
    }

    /// After the messages about the oldest blocks have been sent to more peers, by the lag.
    pub open spec fn escalated(self) -> Node {
        self.reformed(
            Scope::Number(oldest(self.blocks)),
            Reform::Escalate {
                own_to_all: reached(self.config.l1_threshold, self.lag),
                others_to_grid: reached(self.config.l2_threshold, self.lag),
            },
        )
    }

    /// After finality has been looked at: where it lags, messages are sent again, if that is wanted,
    /// and to more peers.
    pub open spec fn aggression_enabled(self, resend: bool) -> Node {
        if !self.config.triggers(self.lag) {
            self
        } else if resend {
            self.resent().escalated()
        } else {
            self.escalated()
        }
    }
}

impl State {
    /// The smallest and the largest number of the blocks.
    fn age_range(&self) -> (range: (BlockNumber, BlockNumber))
        ensures
            range == (oldest(self@.blocks), newest(self@.blocks)),
    {
        let ghost list = self@.blocks;
        let mut low = BlockNumber::MAX;
        let mut high: BlockNumber = 0;
        let mut i: usize = 0;
        assert(list.take(0) =~= Seq::empty());
        while i < self.blocks.len()
            invariant
                i <= self.blocks.len(),
                list == self@.blocks,
                low == oldest(list.take(i as int)),
                high == newest(list.take(i as int)),
            decreases self.blocks.len() - i,
        {
            let number = self.blocks[i].1.number;
            proof {
                assert(list[i as int].1.number == number);
                assert(list.take(i + 1).drop_last() =~= list.take(i as int));
                assert(list.take(i + 1).last() == list[i as int]);
            }
            if number < low {
                low = number;
            }
            if number > high {
                high = number;
            }
            i += 1;
        }
        assert(list.take(i as int) =~= list);
        (low, high)
    }

    /// Sends messages again, if that is wanted, and to more peers where finality lags.
    pub fn enable_aggression(&mut self, resend: bool)
        requires
            old(self).parts_wf(),
        ensures
            final(self).parts_wf(),
            final(self)@ == old(self)@.aggression_enabled(resend),
    {
        let lag = self.approval_checking_lag;
        if !self.aggression_config.should_trigger_aggression(lag) {
            return;
        }
        if resend {
            if let Some(period) = self.aggression_config.resend_unfinalized_period {
                let (_, high) = self.age_range();
                self.reform(Scope::Aged { newest: high, period }, &Change::Resend);
            }
        }
        let (low, _) = self.age_range();
        let own_to_all = has_reached(self.aggression_config.l1_threshold, self.approval_checking_lag);
        let others_to_grid = has_reached(self.aggression_config.l2_threshold, self.approval_checking_lag);
        self.reform(Scope::Number(low), &Change::Escalate { own_to_all, others_to_grid });
    }
}

} // verus!
