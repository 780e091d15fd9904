//! Random choice of the peers that get a message outside of the grid.
use rand::{Rng, SeedableRng};
use vstd::prelude::*;

verus! {

/// The number of randomly chosen peers that every message is sent to.
pub const RANDOM_CIRCULATION: usize = 4;

/// The number of peers that would be chosen on average if [`RANDOM_CIRCULATION`] did not bound it.
pub const RANDOM_SAMPLE_RATE: u32 = 25;

/// What `gen_ratio` of the `rand` crate gives for a ratio, when it is called on the ChaCha generator
/// with twelve rounds that `seed_from_u64` makes of the seed, set to a position in its output, and the
/// position that the generator is at afterwards.
pub uninterp spec fn ratio_draw(seed: u64, word_pos: u128, numerator: u32, denominator: u32) -> (bool, u128);

/// Calls `gen_ratio` of the `rand` crate on a `ChaCha12Rng` made by `seed_from_u64` and moved by
/// `set_word_pos`, and asks for its position by `get_word_pos`.
///
/// The contract claims that the outcome and the position are determined by the seed, the position
/// before and the ratio, and that the outcome is `true` where the ratio is one and `false` where it is
/// zero.
#[verifier::external_body]
fn gen_ratio(seed: u64, word_pos: u128, numerator: u32, denominator: u32) -> (drawn: (bool, u128))
    requires
        denominator != 0,
        numerator <= denominator,
    ensures
        drawn == ratio_draw(seed, word_pos, numerator, denominator),
        numerator == denominator ==> drawn.0,
        numerator == 0 ==> !drawn.0,
{
    let mut rng = rand_chacha::ChaCha12Rng::seed_from_u64(seed);
    rng.set_word_pos(word_pos);
    let hit = rng.gen_ratio(numerator, denominator);
    (hit, rng.get_word_pos())
}

/// Where the outcomes of random draws come from.
#[derive(Debug)]
pub enum Draws {
    /// A generator that is determined by its seed, at a position in its output.
    Seeded { seed: u64, word_pos: u128 },
    /// Outcomes that were fixed beforehand; a draw beyond the last of them misses.
    Scripted { outcomes: Vec<bool>, used: usize },
}

/// The draws that a [`Draws`] still has to give.
#[verifier::ext_equal]
pub ghost enum Luck {
    Seeded { seed: u64, word_pos: u128 },
    Scripted { outcomes: Seq<bool> },
}

impl View for Draws {
    type V = Luck;

    open spec fn view(&self) -> Luck {
        match *self {
            Draws::Seeded { seed, word_pos } => Luck::Seeded { seed, word_pos },
            Draws::Scripted { outcomes, used } => Luck::Scripted {
                outcomes: if used <= outcomes@.len() {
                    outcomes@.skip(used as int)
                } else {
                    Seq::empty()
                },
            },
        }
    }
}

impl Luck {
    /// The outcome of the next draw, which hits with the given ratio.
    pub open spec fn outcome(self, numerator: u32, denominator: u32) -> bool {
        match self {
            Luck::Seeded { seed, word_pos } => ratio_draw(seed, word_pos, numerator, denominator).0,
            Luck::Scripted { outcomes } => outcomes.len() > 0 && outcomes[0],
        }
    }

    /// The draws that are left after the next one.
    pub open spec fn rest(self, numerator: u32, denominator: u32) -> Luck {
        match self {
            Luck::Seeded { seed, word_pos } => Luck::Seeded {
                seed,
                word_pos: ratio_draw(seed, word_pos, numerator, denominator).1,
            },
            Luck::Scripted { outcomes } => Luck::Scripted {
                outcomes: if outcomes.len() > 0 {
                    outcomes.drop_first()
                } else {
                    outcomes
                },
            },
        }
    }
}

impl Draws {
    /// A generator at the start of its output.
    pub fn seed_from_u64(seed: u64) -> (draws: Draws)
        ensures
            draws@ == (Luck::Seeded { seed, word_pos: 0 }),
    {
        Draws::Seeded { seed, word_pos: 0 }
    }

    /// Draws whose outcomes are fixed.
    pub fn scripted(outcomes: Vec<bool>) -> (draws: Draws)
        ensures
            draws@ == (Luck::Scripted { outcomes: outcomes@ }),
    {
        assert(outcomes@.skip(0) =~= outcomes@);
        Draws::Scripted { outcomes, used: 0 }
    }

    /// Makes the next draw, which hits with the given ratio.
    pub fn draw(&mut self, numerator: u32, denominator: u32) -> (hit: bool)
        requires
            denominator != 0,
            numerator <= denominator,
        ensures
            hit == old(self)@.outcome(numerator, denominator),
            final(self)@ == old(self)@.rest(numerator, denominator),
    {
        match self {
            Draws::Seeded { seed, word_pos } => {
                let (hit, next): (bool, u128) = gen_ratio(*seed, *word_pos, numerator, denominator);
                *word_pos = next;
                hit
            },
            Draws::Scripted { outcomes, used } => {
                if *used < outcomes.len() {
                    let hit: bool = outcomes[*used];
                    proof {
                        assert(outcomes@.skip(*used as int).drop_first() =~= outcomes@.skip(*used + 1));
                    }
                    *used = *used + 1;
                    hit
                } else {
                    false
                }
            },
        }
    }
}

/// Whether a peer is chosen, given how many were chosen before it, how many peers there are and what
/// a draw gave: no more than [`RANDOM_CIRCULATION`] are chosen, all of a small number of peers up to
/// that bound, and of a larger number those that are hit.
pub open spec fn chosen(sent: nat, n_peers_total: nat, hit: bool) -> bool {
    &&& n_peers_total > 0
    &&& sent < RANDOM_CIRCULATION
    &&& n_peers_total < RANDOM_SAMPLE_RATE || hit
}

/// Whether the choice of a peer takes a draw.
pub open spec fn needs_draw(sent: nat, n_peers_total: nat) -> bool {
    sent < RANDOM_CIRCULATION && n_peers_total >= RANDOM_SAMPLE_RATE
}

/// The number of peers, as far as the ratio of a draw can express it.
pub open spec fn draw_denominator(n_peers_total: nat) -> u32 {
    if n_peers_total <= u32::MAX {
        n_peers_total as u32
    } else {
        u32::MAX
    }
}

/// Whether a peer is chosen by the next draw.
pub open spec fn sampled(sent: nat, n_peers_total: nat, luck: Luck) -> bool {
    chosen(
        sent,
        n_peers_total,
        needs_draw(sent, n_peers_total) && luck.outcome(RANDOM_SAMPLE_RATE, draw_denominator(n_peers_total)),
    )
}

/// The draws that are left after the choice of a peer.
pub open spec fn luck_after_sample(sent: nat, n_peers_total: nat, luck: Luck) -> Luck {
    if needs_draw(sent, n_peers_total) {
        luck.rest(RANDOM_SAMPLE_RATE, draw_denominator(n_peers_total))
    } else {
        luck
    }
}

/// Whether a peer is chosen, given what a draw gave.
pub fn sample_given(sent: usize, n_peers_total: usize, hit: bool) -> (choice: bool)
    ensures
        choice == chosen(sent as nat, n_peers_total as nat, hit),
{
    if n_peers_total == 0 || sent >= RANDOM_CIRCULATION {
        false
    } else if n_peers_total < RANDOM_SAMPLE_RATE as usize {
        true
    } else {
        hit
    }
}

/// Whether a peer is chosen, by a draw where one is needed.
pub fn sample(sent: usize, n_peers_total: usize, draws: &mut Draws) -> (choice: bool)
    ensures
        choice == sampled(sent as nat, n_peers_total as nat, old(draws)@),
        final(draws)@ == luck_after_sample(sent as nat, n_peers_total as nat, old(draws)@),
{
    let mut hit: bool = false;
    if sent < RANDOM_CIRCULATION && n_peers_total >= RANDOM_SAMPLE_RATE as usize {
        let denominator: u32 = if n_peers_total <= u32::MAX as usize {
            n_peers_total as u32
        } else {
            u32::MAX
        };
        hit = draws.draw(RANDOM_SAMPLE_RATE, denominator);
    }
    sample_given(sent, n_peers_total, hit)
}

} // verus!
