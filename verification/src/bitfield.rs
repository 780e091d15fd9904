//! Sets of candidate indices, as the messages carry them.
use vstd::prelude::*;

verus! {

/// The number of positions that a bit field has.  It bounds what a message can be about: one with an
/// index from here on is refused, and its sender is punished.
pub const MAX_BITFIELD_SIZE: u32 = 512;

/// A set of candidate (or core) indices below [`MAX_BITFIELD_SIZE`], one bit each.
#[derive(Clone, Copy, Debug, PartialEq, Eq, Structural)]
pub struct Bitfield {
    pub lane0: u128,
    pub lane1: u128,
    pub lane2: u128,
    pub lane3: u128,
}

/// The candidates that a message is about.
pub type CandidateBitfield = Bitfield;

/// The cores that an assignment is for.
pub type CoreBitfield = Bitfield;

/// Why no bit field could be made from a list of indices.
#[derive(Clone, Copy, Debug, PartialEq, Eq, Structural)]
pub enum BitfieldError {
    /// The list was empty.
    NullAssignment,
    /// The list holds an index of at least [`MAX_BITFIELD_SIZE`].
    Oversized,
}

/// Whether bit `k` of `lane` is set.
pub open spec fn lane_bit(lane: u128, k: u128) -> bool {
    (lane >> k) & 1 == 1
}

proof fn lemma_lane_set(lane: u128, k: u128, j: u128)
    requires
        k < 128,
        j < 128,
    ensures
        lane_bit(lane | (1u128 << k), j) <==> (j == k || lane_bit(lane, j)),
{
    assert(((lane | (1u128 << k)) >> j) & 1 == 1 <==> (j == k || (lane >> j) & 1 == 1)) by (bit_vector)
        requires
            k < 128,
            j < 128,
    ;
}

proof fn lemma_lane_zero(k: u128)
    requires
        k < 128,
    ensures
        !lane_bit(0, k),
{
    assert((0u128 >> k) & 1 == 0) by (bit_vector)
        requires
            k < 128,
    ;
}

/// A lane that is not zero has a bit that is set.
proof fn lemma_lane_nonzero(lane: u128) -> (k: u128)
    requires
        lane != 0,
    ensures
        k < 128,
        lane_bit(lane, k),
    decreases lane,
{
    if lane & 1 == 1 {
        assert((lane >> 0u128) & 1 == lane & 1) by (bit_vector);
        0
    } else {
        let rest = lane >> 1u128;
        assert(rest != 0 && rest < lane) by (bit_vector)
            requires
                lane != 0,
                lane & 1 != 1,
                rest == lane >> 1u128,
        ;
        let j = lemma_lane_nonzero(rest);
        assert(j < 127 && (lane >> ((j + 1) as u128)) & 1 == 1) by (bit_vector)
            requires
                j < 128,
                rest == lane >> 1u128,
                (rest >> j) & 1 == 1,
        ;
        (j + 1) as u128
    }
}

/// Lanes that agree in every bit are equal.
proof fn lemma_lane_extensional(a: u128, b: u128)
    requires
        forall|k: u128| k < 128 ==> #[trigger] lane_bit(a, k) == lane_bit(b, k),
    ensures
        a == b,
{
    if a != b {
        let c = a ^ b;
        assert(c != 0) by (bit_vector)
            requires
                a != b,
                c == a ^ b,
        ;
        let k = lemma_lane_nonzero(c);
        assert(((a >> k) & 1 == 1) != ((b >> k) & 1 == 1)) by (bit_vector)
            requires
                k < 128,
                c == a ^ b,
                (c >> k) & 1 == 1,
        ;
        assert(lane_bit(a, k) == lane_bit(b, k));
    }
}

/// A bit field is determined by the indices that it holds.
pub proof fn bitfields_are_extensional(a: Bitfield, b: Bitfield)
    requires
        forall|i: int| #[trigger] a.has(i) == b.has(i),
    ensures
        a == b,
{
    assert forall|k: u128| k < 128 implies #[trigger] lane_bit(a.lane0, k) == lane_bit(b.lane0, k) by {
        assert(a.has(k as int) == b.has(k as int));
    }
    lemma_lane_extensional(a.lane0, b.lane0);
    assert forall|k: u128| k < 128 implies #[trigger] lane_bit(a.lane1, k) == lane_bit(b.lane1, k) by {
        assert(a.has(128 + k as int) == b.has(128 + k as int));
    }
    lemma_lane_extensional(a.lane1, b.lane1);
    assert forall|k: u128| k < 128 implies #[trigger] lane_bit(a.lane2, k) == lane_bit(b.lane2, k) by {
        assert(a.has(256 + k as int) == b.has(256 + k as int));
    }
    lemma_lane_extensional(a.lane2, b.lane2);
    assert forall|k: u128| k < 128 implies #[trigger] lane_bit(a.lane3, k) == lane_bit(b.lane3, k) by {
        assert(a.has(384 + k as int) == b.has(384 + k as int));
    }
    lemma_lane_extensional(a.lane3, b.lane3);
}

impl Bitfield {
    /// The lane that holds the bit of index `i`.
    pub open spec fn lane(self, i: int) -> u128 {
        if i < 128 {
            self.lane0
        } else if i < 256 {
            self.lane1
        } else if i < 384 {
            self.lane2
        } else {
            self.lane3
        }
    }

    /// Whether the index `i` belongs to the set.
    pub open spec fn has(self, i: int) -> bool {
        0 <= i < MAX_BITFIELD_SIZE && lane_bit(self.lane(i), (i % 128) as u128)
    }

    /// Whether both sets hold a common index.
    pub open spec fn overlaps(self, other: Bitfield) -> bool {
        exists|i: int| #[trigger] self.has(i) && other.has(i)
    }

    /// The set without any index.
    pub fn empty() -> (field: Bitfield)
        ensures
            forall|i: int| !field.has(i),
    {
        proof {
            assert forall|i: int| !(Bitfield { lane0: 0, lane1: 0, lane2: 0, lane3: 0 }).has(i) by {
                if 0 <= i < MAX_BITFIELD_SIZE {
                    lemma_lane_zero((i % 128) as u128);
                }
            }
        }
        Bitfield { lane0: 0, lane1: 0, lane2: 0, lane3: 0 }
    }

    /// Adds an index to the set.
    pub fn set(&mut self, index: u32)
        requires
            index < MAX_BITFIELD_SIZE,
        ensures
            forall|i: int| #[trigger] final(self).has(i) <==> i == index || old(self).has(i),
    {
        let bit: u128 = 1u128 << ((index % 128) as u128);
        if index < 128 {
            self.lane0 = self.lane0 | bit;
        } else if index < 256 {
            self.lane1 = self.lane1 | bit;
        } else if index < 384 {
            self.lane2 = self.lane2 | bit;
        } else {
            self.lane3 = self.lane3 | bit;
        }
        proof {
            let k = (index % 128) as u128;
            assert forall|i: int| self.has(i) <==> i == index || old(self).has(i) by {
                if 0 <= i < MAX_BITFIELD_SIZE {
                    lemma_lane_set(old(self).lane(i), k, (i % 128) as u128);
                }
            }
        }
    }

    /// Whether the index belongs to the set.
    pub fn bit_at(&self, index: u32) -> (set: bool)
        ensures
            set == self.has(index as int),
    {
        if index >= MAX_BITFIELD_SIZE {
            return false;
        }
        let k: u128 = (index % 128) as u128;
        let lane: u128 = if index < 128 {
            self.lane0
        } else if index < 256 {
            self.lane1
        } else if index < 384 {
            self.lane2
        } else {
            self.lane3
        };
        (lane >> k) & 1 == 1
    }

    /// Whether the set consists of this index alone.
    pub open spec fn is_single(self, index: int) -> bool {
        forall|i: int| #[trigger] self.has(i) <==> i == index
    }

    /// The set that consists of an index alone.
    pub open spec fn singleton(index: int) -> Bitfield {
        choose|field: Bitfield| field.is_single(index)
    }

    /// The set of the indices in a list, which may be neither empty nor out of range.
    pub fn from_indices(indices: &Vec<u32>) -> (result: Result<Bitfield, BitfieldError>)
        ensures
            result is Err <==> indices@.len() == 0 || exists|k: int|
                0 <= k < indices@.len() && #[trigger] indices@[k] >= MAX_BITFIELD_SIZE,
            result matches Err(e) ==> (e == BitfieldError::NullAssignment <==> indices@.len() == 0),
            result matches Ok(field) ==> forall|i: int| #[trigger]
                field.has(i) <==> 0 <= i <= u32::MAX && indices@.contains(i as u32),
    {
        if indices.len() == 0 {
            return Err(BitfieldError::NullAssignment);
        }
        let mut field = Bitfield::empty();
        let mut k: usize = 0;
        while k < indices.len()
            invariant
                k <= indices.len(),
                forall|j: int| 0 <= j < k ==> #[trigger] indices@[j] < MAX_BITFIELD_SIZE,
                forall|i: int| #[trigger]
                    field.has(i) <==> 0 <= i <= u32::MAX && indices@.take(k as int).contains(i as u32),
            decreases indices.len() - k,
        {
            let index: u32 = indices[k];
            if index >= MAX_BITFIELD_SIZE {
                return Err(BitfieldError::Oversized);
            }
            let ghost before = field;
            field.set(index);
            proof {
                let was = indices@.take(k as int);
                let now = indices@.take(k + 1);
                assert(now =~= was.push(index));
                assert forall|i: int| #[trigger] field.has(i) <==> 0 <= i <= u32::MAX && now.contains(i as u32) by {
                    if field.has(i) {
                        assert(i == index || before.has(i));
                        if i == index {
                            assert(now[k as int] == i as u32);
                        } else {
                            let j = choose|j: int| 0 <= j < was.len() && was[j] == i as u32;
                            assert(now[j] == i as u32);
                        }
                    }
                    if 0 <= i <= u32::MAX && now.contains(i as u32) {
                        let j = choose|j: int| 0 <= j < now.len() && now[j] == i as u32;
                        if j < k {
                            assert(was[j] == i as u32);
                            assert(before.has(i));
                        }
                    }
                }
            }
            k += 1;
        }
        assert(indices@.take(indices@.len() as int) =~= indices@);
        Ok(field)
    }

    /// The set of one index.
    pub fn single(index: u32) -> (result: Result<Bitfield, BitfieldError>)
        ensures
            result matches Err(e) ==> index >= MAX_BITFIELD_SIZE && e == BitfieldError::Oversized,
            result matches Ok(field) ==> index < MAX_BITFIELD_SIZE && field.is_single(index as int),
    {
        if index >= MAX_BITFIELD_SIZE {
            return Err(BitfieldError::Oversized);
        }
        let mut field = Bitfield::empty();
        field.set(index);
        Ok(field)
    }

    /// The indices of the set below a bound, in ascending order.
    pub open spec fn ones_below(self, bound: nat) -> Seq<u32>
        decreases bound,
    {
        if bound == 0 {
            Seq::empty()
        } else if self.has(bound - 1) {
            self.ones_below((bound - 1) as nat).push((bound - 1) as u32)
        } else {
            self.ones_below((bound - 1) as nat)
        }
    }

    /// The indices of the set in ascending order.
    pub open spec fn ones(self) -> Seq<u32> {
        self.ones_below(MAX_BITFIELD_SIZE as nat)
    }

    /// The indices of the set in ascending order.
    pub fn iter_ones(&self) -> (ones: Vec<u32>)
        ensures
            ones@ == self.ones(),
            forall|i: int, j: int| 0 <= i < j < ones@.len() ==> ones@[i] < ones@[j],
            forall|k: int| 0 <= k < ones@.len() ==> self.has(#[trigger] ones@[k] as int),
            forall|i: int| #[trigger] self.has(i) ==> ones@.contains(i as u32),
    {
        let mut ones: Vec<u32> = Vec::new();
        let mut index: u32 = 0;
        while index < MAX_BITFIELD_SIZE
            invariant
                index <= MAX_BITFIELD_SIZE,
                ones@ == self.ones_below(index as nat),
                forall|i: int, j: int| 0 <= i < j < ones@.len() ==> ones@[i] < ones@[j],
                forall|k: int| 0 <= k < ones@.len() ==> self.has(#[trigger] ones@[k] as int) && ones@[k] < index,
                forall|i: int| i < index && #[trigger] self.has(i) ==> ones@.contains(i as u32),
            decreases MAX_BITFIELD_SIZE - index,
        {
            if self.bit_at(index) {
                let ghost before = ones@;
                ones.push(index);
                proof {
                    assert(ones@[before.len() as int] == index);
                    assert forall|i: int| i < index + 1 && #[trigger] self.has(i) implies ones@.contains(i as u32) by {
                        if i < index {
                            let k = choose|k: int| 0 <= k < before.len() && before[k] == i as u32;
                            assert(ones@[k] == i as u32);
                        }
                    }
                }
            }
            index += 1;
        }
        ones
    }

    /// The only index of the set, if it holds exactly one.
    pub fn only_one(&self) -> (only: Option<u32>)
        ensures
            only matches Some(index) ==> self.is_single(index as int),
            only is None ==> forall|index: int| !self.is_single(index),
    {
        let ones = self.iter_ones();
        if ones.len() == 1 {
            assert forall|i: int| #[trigger] self.has(i) <==> i == ones@[0] by {
                if self.has(i) {
                    assert(ones@.contains(i as u32));
                }
            }
            Some(ones[0])
        } else {
            assert forall|index: int| !self.is_single(index) by {
                if self.is_single(index) {
                    assert(self.has(index));
                    assert(ones@.contains(index as u32));
                    assert(ones@.len() >= 2);
                    assert(self.has(ones@[0] as int) && self.has(ones@[1] as int));
                }
            }
            None
        }
    }

    /// Whether both sets hold a common index.
    pub fn intersects(&self, other: &Bitfield) -> (common: bool)
        ensures
            common == self.overlaps(*other),
    {
        let mut index: u32 = 0;
        while index < MAX_BITFIELD_SIZE
            invariant
                index <= MAX_BITFIELD_SIZE,
                forall|i: int| 0 <= i < index && #[trigger] self.has(i) ==> !other.has(i),
            decreases MAX_BITFIELD_SIZE - index,
        {
            if self.bit_at(index) && other.bit_at(index) {
                return true;
            }
            index += 1;
        }
        false
    }
}

/// For every index that has a place there is a set that holds it and nothing else.
pub proof fn singletons_hold_one_index(index: int)
    requires
        0 <= index < 512,
    ensures
        Bitfield::singleton(index).is_single(index),
{
    let k = (index % 128) as u128;
    let one: u128 = 0u128 | (1u128 << k);
    let field = Bitfield {
        lane0: if index < 128 {
            one
        } else {
            0
        },
        lane1: if 128 <= index < 256 {
            one
        } else {
            0
        },
        lane2: if 256 <= index < 384 {
            one
        } else {
            0
        },
        lane3: if 384 <= index {
            one
        } else {
            0
        },
    };
    assert forall|i: int| #[trigger] field.has(i) <==> i == index by {
        if 0 <= i < MAX_BITFIELD_SIZE {
            let j = (i % 128) as u128;
            lemma_lane_set(0, k, j);
            lemma_lane_zero(j);
        }
    }
    assert(field.is_single(index));
}

} // verus!
