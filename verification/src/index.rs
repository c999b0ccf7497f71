//! The packed 64-bit cell address and the operations on its bit fields.
//!
//! An address holds, from the top: four bits that are not used here, the
//! cell flag (bit 59), three reserved bits, the resolution (bits 52 to 55),
//! the base cell (bits 45 to 51) and fifteen digits of three bits each
//! (bits 0 to 44). The digit of level 0 is the coarsest and sits highest;
//! the digit of level 14 is the finest and sits lowest. A digit from 0 to 6
//! selects a child; 7 is the sentinel of a level that the address does not
//! reach.

use h3o::error::InvalidCellIndex;
use h3o::CellIndex;
use rand::distributions::Uniform;
use rand::{thread_rng, Rng};
use vstd::prelude::*;

verus! {

/// `h3o::CellIndex`: a cell index that the grid library has accepted; opaque
/// here.
#[verifier::external_type_specification]
#[verifier::external_body]
pub struct ExCellIndex(CellIndex);

/// `h3o::error::InvalidCellIndex`: the grid library's reason for refusing a
/// value; opaque here.
#[verifier::external_type_specification]
#[verifier::external_body]
pub struct ExInvalidCellIndex(InvalidCellIndex);

/// Whether the grid library accepts `value` as the index of a cell: whether
/// `h3o::CellIndex::try_from` returns `Ok` on it.
pub uninterp spec fn cell_index_accepted(value: u64) -> bool;

/// Finest resolution an address can carry.
pub const MAX_RESOLUTION: u8 = 15;

/// Number of children of a cell; a digit below this value selects one.
pub const CHILD_CELL_COUNT: u8 = 7;

/// Number of digit fields in an address, one per level.
pub const LEVELS: u8 = 15;

/// Position of the lowest bit of the base-cell field.
pub const BASE_CELL_SHIFT: u8 = 45;

/// Position of the lowest bit of the resolution field.
pub const RESOLUTION_SHIFT: u8 = 52;

/// Position of the flag that marks an address as a cell.
pub const CELL_MODE_SHIFT: u8 = 59;

/// The forty-five bits of the digit fields.
pub const DIGITS_MASK: u64 = 0x0000_1fff_ffff_ffffu64;

/// The seven bits of the base-cell field.
pub const BASE_CELL_MASK: u64 = 0x000f_e000_0000_0000u64;

/// The four bits of the resolution field.
pub const RESOLUTION_MASK: u64 = 0x00f0_0000_0000_0000u64;

/// Base cell and digits: everything below the resolution field.
pub const LOCATION_MASK: u64 = 0x000f_ffff_ffff_ffffu64;

/// Every bit but those of the resolution field.
pub const ZERO_RESOLUTION_ONLY: u64 = 0xff0f_ffff_ffff_ffffu64;

/// The flag that marks an address as a cell.
pub const CELL_MODE_MASK: u64 = 0x0800_0000_0000_0000u64;

/// A packed cell address.
#[derive(Clone, Copy, Debug)]
pub struct Index {
    pub index: u64,
}

/// An address taken apart: a byte for the base and one digit per level.
pub struct IndexStructure {
    pub base: u8,
    pub address: Vec<u8>,
}

/// Distance, in bits, of the digit field of `level` from the low end of an
/// address, for a level below [`LEVELS`].
pub open spec fn digit_shift(level: u8) -> u64 {
    (3 * (14 - level)) as u64
}

/// The digit that `value` holds at `level`, for a level below [`LEVELS`].
pub open spec fn digit_at(value: u64, level: u8) -> u8 {
    ((value >> digit_shift(level)) & 7) as u8
}

/// The fifteen digits of `value`, coarsest first.
pub open spec fn digits_of(value: u64) -> Seq<u8> {
    Seq::new(15, |level: int| digit_at(value, level as u8))
}

/// The value whose low `n` bits are set and no others, for `n` up to 63.
pub open spec fn low_bits(n: u8) -> u64 {
    ((1u64 << n) - 1) as u64
}

/// The mask that covers every digit field from level `resolution` on, for a
/// resolution up to [`MAX_RESOLUTION`].
pub open spec fn finer_mask(resolution: u8) -> u64 {
    low_bits((3 * (15 - resolution)) as u8)
}

/// `value` with its resolution field rewritten to `resolution` and every
/// digit from level `resolution` on set to the sentinel.
pub open spec fn truncated(value: u64, resolution: u8) -> u64 {
    (value & ZERO_RESOLUTION_ONLY) | finer_mask(resolution) | ((resolution as u64) << 52)
}

/// The low three bits of `digit`, moved into the digit field of `level`.
pub open spec fn digit_field(digit: u8, level: u8) -> u64 {
    ((digit & 7) as u64) << digit_shift(level)
}

/// The digit fields of a list of `(level, digit)` pairs, merged by bitwise
/// or. A level that no pair names stays zero.
pub open spec fn packed_digits(pairs: Seq<(u8, u8)>) -> u64
    decreases pairs.len(),
{
    if pairs.len() == 0 {
        0
    } else {
        packed_digits(pairs.drop_last()) | digit_field(pairs.last().1, pairs.last().0)
    }
}

/// Whether some pair of the list names `level`.
pub open spec fn names_level(pairs: Seq<(u8, u8)>, level: u8) -> bool {
    exists|i: int| 0 <= i < pairs.len() && (#[trigger] pairs[i]).0 == level
}

/// Whether pair `i` of the list is the only one that names its level.
pub open spec fn names_alone(pairs: Seq<(u8, u8)>, i: int) -> bool {
    forall|j: int| 0 <= j < pairs.len() && j != i ==> (#[trigger] pairs[j]).0 != pairs[i].0
}

/// The list that pairs each of fifteen digits with its level.
pub open spec fn leveled(digits: Seq<u8>) -> Seq<(u8, u8)> {
    Seq::new(15, |level: int| (level as u8, digits[level]))
}

/// The digit bits that hold the low three bits of each of fifteen digits at
/// its level, coarsest first.
pub open spec fn digits_packed(digits: Seq<u8>) -> u64 {
    packed_digits(leveled(digits))
}

/// The address made of the cell flag, a resolution, a base cell and digit
/// bits, each moved to its place and merged by bitwise or.
pub open spec fn composed(resolution: u8, base_cell: u32, address: u64) -> u64 {
    CELL_MODE_MASK | ((resolution as u64) << 52) | ((base_cell as u64) << 45) | address
}

/// The shape of the digits of an address drawn at random for the levels from
/// `from` up to `to`: zero below `from`, a child digit from there up to `to`,
/// the sentinel from `to` on.
pub open spec fn random_digits(value: u64, from: u8, to: u8) -> bool {
    forall|level: u8|
        level < LEVELS ==> {
            let digit = #[trigger] digit_at(value, level);
            if level >= to {
                digit == 7
            } else if level >= from {
                digit < CHILD_CELL_COUNT
            } else {
                digit == 0
            }
        }
}

impl Index {
    /// The resolution field of the address.
    pub open spec fn spec_resolution(self) -> u8 {
        ((self.index >> 52) & 0xf) as u8
    }

    /// The base-cell field of the address.
    pub open spec fn spec_base_hex(self) -> u8 {
        ((self.index >> 45) & 0x7f) as u8
    }

    /// Whether `location` lies in the cell that `self` names: both have the
    /// same base cell, and the same digit at every level below the
    /// resolution of `self`. The resolution of `location` is not consulted.
    pub open spec fn spec_contains(self, location: Index) -> bool {
        &&& self.spec_base_hex() == location.spec_base_hex()
        &&& forall|level: u8|
            level < LEVELS && level < self.spec_resolution() ==> digit_at(self.index, level)
                == digit_at(location.index, level)
    }

    /// Structural well-formedness: the cell flag is set, every level below
    /// the resolution holds a child digit, and every level from the
    /// resolution on holds the sentinel.
    pub open spec fn well_formed(self) -> bool {
        &&& self.index & CELL_MODE_MASK == CELL_MODE_MASK
        &&& forall|level: u8|
            level < LEVELS ==> if level < self.spec_resolution() {
                #[trigger] digit_at(self.index, level) < CHILD_CELL_COUNT
            } else {
                digit_at(self.index, level) == 7
            }
    }

    /// Wraps a raw value without looking at it.
    pub fn unsafe_index(value: u64) -> (r: Index)
        ensures
            r.index == value,
    {
        Index { index: value }
    }

    /// Hands the value to `h3o::CellIndex::try_from`, which decides whether
    /// it names a cell of the grid. Trusted: that the outcome depends on the
    /// value alone, and that an accepted value has its cell flag set, a child
    /// digit at every level below its resolution and the sentinel at every
    /// level from there on. What else the grid library asks of a cell is not
    /// stated, nor what the accepted index holds.
    #[verifier::external_body]
    pub fn to_cell_index(self) -> (r: Result<CellIndex, InvalidCellIndex>)
        ensures
            r.is_ok() == cell_index_accepted(self.index),
            r.is_ok() ==> self.well_formed(),
    {
        CellIndex::try_from(self.index)
    }

    /// Whether the grid library accepts the address as a cell. An address
    /// that is not well formed is never valid.
    pub fn is_valid(self) -> (r: bool)
        ensures
            r == cell_index_accepted(self.index),
            r ==> self.well_formed(),
    {
        self.to_cell_index().is_ok()
    }

    /// Extracts the base-cell field.
    pub fn base_hex(self) -> (r: u8)
        ensures
            r == self.spec_base_hex(),
            r <= 127,
    {
        let x: u64 = self.index;
        assert(((x & BASE_CELL_MASK) >> 45) == ((x >> 45) & 0x7f) && ((x >> 45) & 0x7f) <= 127)
            by (bit_vector);
        ((self.index & BASE_CELL_MASK) >> BASE_CELL_SHIFT) as u8
    }

    /// Digit bits with a random child digit at every level from
    /// `from_resolution` up to `to_resolution`, zero at the levels below and
    /// the sentinel at the levels from `to_resolution` on.
    fn generate_valid_base(from_resolution: u8, to_resolution: u8) -> (r: Index)
        requires
            to_resolution <= MAX_RESOLUTION,
        ensures
            r.index <= DIGITS_MASK,
            random_digits(r.index, from_resolution, to_resolution),
    {
        let mut bits: u64 = 0;
        let mut level: u8 = from_resolution;
        proof {
            lemma_no_digits();
        }
        while level < to_resolution
            invariant
                to_resolution <= MAX_RESOLUTION,
                from_resolution <= level,
                bits <= DIGITS_MASK,
                forall|l: u8|
                    l < LEVELS ==> {
                        let digit = #[trigger] digit_at(bits, l);
                        if from_resolution <= l < level {
                            digit < CHILD_CELL_COUNT
                        } else {
                            digit == 0
                        }
                    },
            decreases to_resolution - level,
        {
            let digit: u64 = sample_between(0, CHILD_CELL_COUNT as u64);
            let part: u64 = Index::global_index_part(digit as u8, level);
            proof {
                lemma_place_child_digit(bits, digit as u8, level);
            }
            bits = bits | part;
            level = level + 1;
        }
        let mask: u64 = Index::bit_cell_mask(to_resolution, 3).index;
        proof {
            lemma_fill_finer(bits, to_resolution);
        }
        Index { index: bits | mask }
    }

    /// Extracts the digit at `level`; level 0 is the coarsest.
    pub fn local_index(self, level: u8) -> (r: u8)
        requires
            level < LEVELS,
        ensures
            r == digit_at(self.index, level),
            r <= 7,
    {
        let x: u64 = self.index;
        let shift: u8 = 3 * (LEVELS - 1 - level);
        assert(((x & (7u64 << shift)) >> shift) == ((x >> shift) & 7) && ((x >> shift) & 7) <= 7)
            by (bit_vector)
            requires
                shift <= 42,
        ;
        ((self.index & Index::local_index_mask(level)) >> shift) as u8
    }

    /// Tests whether `location` is `self` or one of its descendants. The
    /// location bits of the two are compared after the digits from the
    /// resolution of `self` on have been set to the sentinel in both.
    pub fn contains(self, location: Index) -> (r: bool)
        ensures
            r == self.spec_contains(location),
    {
        let mask: u64 = Index::bit_cell_mask(self.resolution(), 3).index;
        proof {
            lemma_contains_by_fields(self.index, location.index);
        }
        ((self.index & LOCATION_MASK) | mask) == ((location.index & LOCATION_MASK) | mask)
            && self.base_hex() == location.base_hex()
    }

    /// The mask of the digit field of `level`.
    pub fn local_index_mask(level: u8) -> (r: u64)
        requires
            level < LEVELS,
        ensures
            r == 7u64 << digit_shift(level),
    {
        (CHILD_CELL_COUNT as u64) << (3 * (LEVELS - 1 - level))
    }

    /// The low three bits of `local_index`, moved into the digit field of
    /// `level`.
    pub fn global_index_part(local_index: u8, level: u8) -> (r: u64)
        requires
            level < LEVELS,
        ensures
            r == digit_field(local_index, level),
    {
        let shift: u8 = 3 * (LEVELS - 1 - level);
        let low: u64 = Index::local_index_mask(LEVELS - 1);
        assert(((low & (local_index as u64)) << shift) == (((local_index & 7) as u64) << (
        shift as u64))) by (bit_vector)
            requires
                low == 7u64 << 0u64,
        ;
        (low & (local_index as u64)) << shift
    }

    /// Takes the address apart into the digits of its fifteen levels,
    /// coarsest first, and a base byte. The base byte is the low byte of the
    /// address with its low seven bits set.
    pub fn to_index_structure(self) -> (r: IndexStructure)
        ensures
            r.address@ == digits_of(self.index),
            r.base == ((self.index | 0x7f) & 0xff) as u8,
    {
        let x: u64 = self.index;
        assert(((x | (BASE_CELL_MASK >> 45)) & 0xff) == ((x | 0x7f) & 0xff) && ((x | 0x7f) & 0xff)
            <= 255) by (bit_vector);
        let base_data: u8 = ((self.index | (BASE_CELL_MASK >> BASE_CELL_SHIFT)) & 0xff) as u8;
        let mut address_array: Vec<u8> = Vec::new();
        let mut level: u8 = 0;
        while level < LEVELS
            invariant
                level <= LEVELS,
                address_array@.len() == level,
                forall|l: int|
                    0 <= l < level ==> address_array@[l] == digit_at(self.index, l as u8),
            decreases LEVELS - level,
        {
            address_array.push(self.local_index(level));
            level = level + 1;
        }
        proof {
            assert(address_array@ =~= digits_of(self.index));
        }
        IndexStructure { base: base_data, address: address_array }
    }

    /// Composes an address from a resolution, a base cell and digit bits
    /// that are already in place. Nothing is masked: an argument wider than
    /// its field spills into the fields above it.
    pub fn from_index_data(resolution: u8, base_cell: u8, address: u64) -> (r: Index)
        ensures
            r.index == composed(resolution, base_cell as u32, address),
            address <= DIGITS_MASK ==> {
                &&& r.index & CELL_MODE_MASK == CELL_MODE_MASK
                &&& r.index & DIGITS_MASK == address
                &&& base_cell <= 127 ==> r.spec_base_hex() == base_cell
                &&& base_cell <= 127 && resolution <= MAX_RESOLUTION ==> r.spec_resolution()
                    == resolution
            },
    {
        proof {
            if address <= DIGITS_MASK {
                lemma_composed_fields(resolution, base_cell as u32, address);
            }
        }
        Index {
            index: CELL_MODE_MASK | ((resolution as u64) << RESOLUTION_SHIFT) | ((base_cell as u64)
                << BASE_CELL_SHIFT) | address,
        }
    }

    /// Composes an address from a resolution, a base cell and a list of
    /// `(level, digit)` pairs. Only the low three bits of a digit count; the
    /// digits of one level are merged by bitwise or; a level that the list
    /// does not name stays zero, not the sentinel.
    pub fn from_address_map(
        resolution: u8,
        base_cell: u8,
        resolution_to_local: &[(u8, u8)],
    ) -> (r: Index)
        requires
            forall|i: int|
                0 <= i < resolution_to_local@.len() ==> resolution_to_local@[i].0 < LEVELS,
        ensures
            r.index == composed(
                resolution,
                base_cell as u32,
                packed_digits(resolution_to_local@),
            ),
            forall|level: u8|
                level < LEVELS && !(#[trigger] names_level(resolution_to_local@, level))
                    ==> digit_at(r.index, level) == 0,
            forall|i: int|
                0 <= i < resolution_to_local@.len() && #[trigger] names_alone(
                    resolution_to_local@,
                    i,
                ) ==> digit_at(r.index, resolution_to_local@[i].0) == resolution_to_local@[i].1 & 7,
    {
        let mut bits: u64 = 0;
        let mut i: usize = 0;
        while i < resolution_to_local.len()
            invariant
                i <= resolution_to_local@.len(),
                forall|j: int|
                    0 <= j < resolution_to_local@.len() ==> resolution_to_local@[j].0 < LEVELS,
                bits == packed_digits(resolution_to_local@.take(i as int)),
            decreases resolution_to_local@.len() - i,
        {
            let pair: (u8, u8) = resolution_to_local[i];
            proof {
                assert(resolution_to_local@.take(i + 1).drop_last()
                    =~= resolution_to_local@.take(i as int));
            }
            bits = bits | Index::global_index_part(pair.1, pair.0);
            i = i + 1;
        }
        proof {
            let pairs = resolution_to_local@;
            assert(pairs.take(i as int) =~= pairs);
            lemma_packed_within(pairs);
            lemma_composed_fields(resolution, base_cell as u32, bits);
            assert forall|level: u8|
                level < LEVELS && !(#[trigger] names_level(pairs, level)) implies digit_at(
                bits,
                level,
            ) == 0 by {
                lemma_packed_absent(pairs, level);
            }
            assert forall|i: int| 0 <= i < pairs.len() && #[trigger] names_alone(
                pairs,
                i,
            ) implies digit_at(bits, pairs[i].0) == pairs[i].1 & 7 by {
                lemma_packed_single(pairs, i);
            }
        }
        Index::from_index_data(resolution, base_cell, bits)
    }

    /// An address of resolution `to_resolution` in `base_cell`, with a
    /// random child digit at every level from `from_resolution` up to
    /// `to_resolution`, zero at the levels below and the sentinel at the
    /// levels from `to_resolution` on. Which digits come is not stated. With
    /// `from_resolution` zero and a base cell that fits its field, the
    /// address is well formed.
    pub fn unsafe_random(base_cell: u32, from_resolution: u8, to_resolution: u8) -> (r: Index)
        requires
            to_resolution <= MAX_RESOLUTION,
        ensures
            r.index & !DIGITS_MASK == composed(to_resolution, base_cell, 0),
            random_digits(r.index, from_resolution, to_resolution),
            base_cell <= 127 ==> r.spec_resolution() == to_resolution && r.spec_base_hex()
                == base_cell,
            base_cell <= 127 && from_resolution == 0 ==> r.well_formed(),
    {
        let base: u64 = Index::generate_valid_base(from_resolution, to_resolution).index;
        proof {
            lemma_composed_over_digits(to_resolution, base_cell, base);
        }
        Index {
            index: CELL_MODE_MASK | ((to_resolution as u64) << RESOLUTION_SHIFT) | ((
            base_cell as u64) << BASE_CELL_SHIFT) | base,
        }
    }

    /// The address with the low `n` bits set and all others clear.
    pub fn binary_ones(n: u8) -> (r: Index)
        requires
            n <= 63,
        ensures
            r.index == low_bits(n),
    {
        assert((1u64 << n) >= 1) by (bit_vector)
            requires
                n <= 63,
        ;
        Index { index: (1u64 << n) - 1 }
    }

    /// The mask of all digit fields from level `resolution` on, each field
    /// `num_bits` wide.
    pub fn bit_cell_mask(resolution: u8, num_bits: u8) -> (r: Index)
        requires
            resolution <= MAX_RESOLUTION,
            (MAX_RESOLUTION - resolution) * num_bits <= 63,
        ensures
            r.index == low_bits(((MAX_RESOLUTION - resolution) * num_bits) as u8),
            num_bits == 3 ==> r.index == finer_mask(resolution),
    {
        Index { index: Index::binary_ones((MAX_RESOLUTION - resolution) * num_bits).index }
    }

    /// Forgets every level from `resolution` on: the resolution field becomes
    /// `resolution`, the digits of those levels become the sentinel, and
    /// everything else is kept.
    pub fn truncate_to_resolution(self, resolution: u8) -> (r: Index)
        requires
            resolution <= MAX_RESOLUTION,
        ensures
            r.index == truncated(self.index, resolution),
            r.spec_resolution() == resolution,
            r.spec_base_hex() == self.spec_base_hex(),
            r.index >> 56 == self.index >> 56,
            forall|level: u8|
                level < LEVELS ==> #[trigger] digit_at(r.index, level) == if level < resolution {
                    digit_at(self.index, level)
                } else {
                    7u8
                },
    {
        proof {
            lemma_truncated_fields(self.index, resolution);
        }
        Index {
            index: (self.index & ZERO_RESOLUTION_ONLY) | Index::bit_cell_mask(resolution, 3).index
                | ((resolution as u64) << RESOLUTION_SHIFT),
        }
    }

    /// Extracts the resolution field.
    pub fn resolution(self) -> (r: u8)
        ensures
            r == self.spec_resolution(),
            r <= MAX_RESOLUTION,
    {
        let x: u64 = self.index;
        assert(((x & RESOLUTION_MASK) >> 52) == ((x >> 52) & 0xf) && ((x >> 52) & 0xf) <= 15)
            by (bit_vector);
        ((self.index & RESOLUTION_MASK) >> RESOLUTION_SHIFT) as u8
    }

    /// The fifteen digits of `index`, coarsest first. The bits above the
    /// digit fields are not looked at.
    pub fn to_u8_indices(index: u64) -> (r: [u8; 15])
        ensures
            r@ == digits_of(index),
    {
        let mut digits: [u8; 15] = [0u8; 15];
        let mut level: u8 = 0;
        while level < LEVELS
            invariant
                level <= LEVELS,
                forall|l: int| 0 <= l < level ==> digits@[l] == digit_at(index, l as u8),
            decreases LEVELS - level,
        {
            digits[level as usize] = Index::unsafe_index(index).local_index(level);
            level = level + 1;
        }
        proof {
            assert(digits@ =~= digits_of(index));
        }
        digits
    }

    /// Packs fifteen digits, coarsest first, into digit bits. Only the low
    /// three bits of a digit count; the bits above the digit fields are zero.
    pub fn from_u8_indices(digits: &[u8; 15]) -> (r: u64)
        ensures
            r == digits_packed(digits@),
            r <= DIGITS_MASK,
            forall|level: u8|
                level < LEVELS ==> #[trigger] digit_at(r, level) == digits@[level as int] & 7,
    {
        let mut bits: u64 = 0;
        let mut level: u8 = 0;
        while level < LEVELS
            invariant
                level <= LEVELS,
                bits == packed_digits(leveled(digits@).take(level as int)),
            decreases LEVELS - level,
        {
            proof {
                assert(leveled(digits@).take(level + 1).drop_last() =~= leveled(digits@).take(
                    level as int,
                ));
            }
            bits = bits | Index::global_index_part(digits[level as usize], level);
            level = level + 1;
        }
        proof {
            assert(leveled(digits@).take(15) =~= leveled(digits@));
            lemma_digits_packed(digits@);
        }
        bits
    }
}

/// Draws a number from `low` up to, not including, `high` from the generator
/// of the running thread: `rand::distributions::Uniform::new`, sampled once
/// by `rand::Rng::sample` on `rand::thread_rng`. Trusted: that the number
/// lies in that range. Nothing is said of which number comes. The call does
/// not return where the system cannot seed the generator.
#[verifier::external_body]
fn sample_between(low: u64, high: u64) -> (r: u64)
    requires
        low < high,
    ensures
        low <= r < high,
{
    thread_rng().sample(Uniform::new(low, high))
}

/// Packing fifteen digits, none above seven, and taking the result apart
/// gives the digits back.
pub proof fn lemma_digits_round_trip(digits: Seq<u8>)
    requires
        digits.len() == 15,
        forall|i: int| 0 <= i < 15 ==> digits[i] <= 7,
    ensures
        digits_of(digits_packed(digits)) == digits,
{
    lemma_digits_packed(digits);
    assert forall|i: int| 0 <= i < 15 implies digits_of(digits_packed(digits))[i] == digits[i] by {
        let digit: u8 = digits[i];
        assert(digit_at(digits_packed(digits), i as u8) == digit & 7);
        assert(digit & 7 == digit) by (bit_vector)
            requires
                digit <= 7,
        ;
    }
    assert(digits_of(digits_packed(digits)) =~= digits);
}

/// Taking a value apart into its fifteen digits and packing them gives the
/// digit bits of the value back.
pub proof fn lemma_digits_unpacked(value: u64)
    ensures
        digits_packed(digits_of(value)) == value & DIGITS_MASK,
{
    let packed = digits_packed(digits_of(value));
    lemma_digits_packed(digits_of(value));
    assert forall|level: u8| level < LEVELS implies #[trigger] digit_at(packed, level) == digit_at(
        value,
        level,
    ) by {
        assert(digits_of(value)[level as int] == digit_at(value, level));
        assert(digit_at(value, level) & 7 == digit_at(value, level)) by (bit_vector);
    }
    assert(packed == value & DIGITS_MASK) by (bit_vector)
        requires
            packed <= DIGITS_MASK,
            digit_at(packed, 0) == digit_at(value, 0),
            digit_at(packed, 1) == digit_at(value, 1),
            digit_at(packed, 2) == digit_at(value, 2),
            digit_at(packed, 3) == digit_at(value, 3),
            digit_at(packed, 4) == digit_at(value, 4),
            digit_at(packed, 5) == digit_at(value, 5),
            digit_at(packed, 6) == digit_at(value, 6),
            digit_at(packed, 7) == digit_at(value, 7),
            digit_at(packed, 8) == digit_at(value, 8),
            digit_at(packed, 9) == digit_at(value, 9),
            digit_at(packed, 10) == digit_at(value, 10),
            digit_at(packed, 11) == digit_at(value, 11),
            digit_at(packed, 12) == digit_at(value, 12),
            digit_at(packed, 13) == digit_at(value, 13),
            digit_at(packed, 14) == digit_at(value, 14),
    ;
}

/// Truncating twice to one resolution is truncating once.
pub proof fn lemma_truncate_idempotent(value: u64, resolution: u8)
    requires
        resolution <= MAX_RESOLUTION,
    ensures
        truncated(truncated(value, resolution), resolution) == truncated(value, resolution),
{
    assert(truncated(truncated(value, resolution), resolution) == truncated(value, resolution))
        by (bit_vector)
        requires
            resolution <= 15,
    ;
}

/// An address truncated to its own resolution contains the address.
pub proof fn lemma_truncated_contains_self(value: u64)
    ensures
        ({
            let address = Index { index: value };
            (Index { index: truncated(value, address.spec_resolution()) }).spec_contains(address)
        }),
{
    let resolution = (Index { index: value }).spec_resolution();
    assert(resolution <= 15) by (bit_vector)
        requires
            resolution == ((value >> 52) & 0xf) as u8,
    ;
    lemma_truncated_fields(value, resolution);
}

/// What truncation does to each field of an address: the resolution is the
/// new one, the base cell and the eight bits above the resolution are kept,
/// a digit below the new resolution is kept and every other digit is the
/// sentinel.
pub proof fn lemma_truncated_fields(value: u64, resolution: u8)
    requires
        resolution <= MAX_RESOLUTION,
    ensures
        ((truncated(value, resolution) >> 52) & 0xf) as u8 == resolution,
        ((truncated(value, resolution) >> 45) & 0x7f) as u8 == ((value >> 45) & 0x7f) as u8,
        truncated(value, resolution) >> 56 == value >> 56,
        forall|level: u8|
            level < LEVELS ==> #[trigger] digit_at(truncated(value, resolution), level) == if level
                < resolution {
                digit_at(value, level)
            } else {
                7u8
            },
{
    let t = truncated(value, resolution);
    assert(((t >> 52) & 0xf) as u8 == resolution && ((t >> 45) & 0x7f) as u8 == ((value >> 45)
        & 0x7f) as u8 && t >> 56 == value >> 56) by (bit_vector)
        requires
            resolution <= 15,
            t == truncated(value, resolution),
    ;
    assert forall|level: u8| level < LEVELS implies #[trigger] digit_at(t, level) == if level
        < resolution {
        digit_at(value, level)
    } else {
        7u8
    } by {
        assert(digit_at(t, level) == if level < resolution {
            digit_at(value, level)
        } else {
            7u8
        }) by (bit_vector)
            requires
                resolution <= 15,
                level < 15,
                t == truncated(value, resolution),
        ;
    }
}

/// Comparing location bits under the mask of the first address's resolution
/// is comparing base cells and the digits below that resolution.
pub proof fn lemma_contains_by_fields(a: u64, b: u64)
    ensures
        ({
            let mask = finer_mask((Index { index: a }).spec_resolution());
            ((a & LOCATION_MASK) | mask) == ((b & LOCATION_MASK) | mask)
        }) <==> (Index { index: a }).spec_contains(Index { index: b }),
{
    let r: u8 = (Index { index: a }).spec_resolution();
    let mask: u64 = finer_mask(r);
    assert(r <= 15) by (bit_vector)
        requires
            r == ((a >> 52) & 0xf) as u8,
    ;
    if ((a & LOCATION_MASK) | mask) == ((b & LOCATION_MASK) | mask) {
        assert(((a >> 45) & 0x7f) as u8 == ((b >> 45) & 0x7f) as u8) by (bit_vector)
            requires
                r <= 15,
                ((a & LOCATION_MASK) | finer_mask(r)) == ((b & LOCATION_MASK) | finer_mask(r)),
        ;
        assert forall|level: u8| level < LEVELS && level < r implies digit_at(a, level)
            == digit_at(b, level) by {
            assert(digit_at(a, level) == digit_at(b, level)) by (bit_vector)
                requires
                    r <= 15,
                    level < 15,
                    level < r,
                    ((a & LOCATION_MASK) | finer_mask(r)) == ((b & LOCATION_MASK) | finer_mask(r)),
            ;
        }
    }
    if (Index { index: a }).spec_contains(Index { index: b }) {
        assert(((a & LOCATION_MASK) | finer_mask(r)) == ((b & LOCATION_MASK) | finer_mask(r)))
            by (bit_vector)
            requires
                r <= 15,
                ((a >> 45) & 0x7f) as u8 == ((b >> 45) & 0x7f) as u8,
                0 < r ==> digit_at(a, 0) == digit_at(b, 0),
                1 < r ==> digit_at(a, 1) == digit_at(b, 1),
                2 < r ==> digit_at(a, 2) == digit_at(b, 2),
                3 < r ==> digit_at(a, 3) == digit_at(b, 3),
                4 < r ==> digit_at(a, 4) == digit_at(b, 4),
                5 < r ==> digit_at(a, 5) == digit_at(b, 5),
                6 < r ==> digit_at(a, 6) == digit_at(b, 6),
                7 < r ==> digit_at(a, 7) == digit_at(b, 7),
                8 < r ==> digit_at(a, 8) == digit_at(b, 8),
                9 < r ==> digit_at(a, 9) == digit_at(b, 9),
                10 < r ==> digit_at(a, 10) == digit_at(b, 10),
                11 < r ==> digit_at(a, 11) == digit_at(b, 11),
                12 < r ==> digit_at(a, 12) == digit_at(b, 12),
                13 < r ==> digit_at(a, 13) == digit_at(b, 13),
                14 < r ==> digit_at(a, 14) == digit_at(b, 14),
        ;
    }
}

/// The fields of an address composed over digit bits that keep to the digit
/// fields: the cell flag is set and the digits are those of the digit bits;
/// a base cell that fits its field is found again, and with it a resolution
/// that fits its field.
pub proof fn lemma_composed_fields(resolution: u8, base_cell: u32, address: u64)
    requires
        address <= DIGITS_MASK,
    ensures
        composed(resolution, base_cell, address) & CELL_MODE_MASK == CELL_MODE_MASK,
        composed(resolution, base_cell, address) & DIGITS_MASK == address,
        composed(resolution, base_cell, address) & !DIGITS_MASK == composed(
            resolution,
            base_cell,
            0,
        ),
        base_cell <= 127 ==> ((composed(resolution, base_cell, address) >> 45) & 0x7f) as u8
            == base_cell,
        base_cell <= 127 && resolution <= MAX_RESOLUTION ==> ((composed(
            resolution,
            base_cell,
            address,
        ) >> 52) & 0xf) as u8 == resolution,
        forall|level: u8|
            level < LEVELS ==> #[trigger] digit_at(composed(resolution, base_cell, address), level)
                == digit_at(address, level),
{
    let c = composed(resolution, base_cell, address);
    assert(c & CELL_MODE_MASK == CELL_MODE_MASK && c & DIGITS_MASK == address && c & !DIGITS_MASK
        == composed(resolution, base_cell, 0) && (base_cell <= 127 ==> ((c >> 45) & 0x7f) as u8
        == base_cell) && (base_cell <= 127 && resolution <= 15 ==> ((c >> 52) & 0xf) as u8
        == resolution)) by (bit_vector)
        requires
            address <= DIGITS_MASK,
            c == composed(resolution, base_cell, address),
    ;
    assert forall|level: u8| level < LEVELS implies #[trigger] digit_at(c, level) == digit_at(
        address,
        level,
    ) by {
        assert(digit_at(c, level) == digit_at(address, level)) by (bit_vector)
            requires
                level < 15,
                c & DIGITS_MASK == address,
        ;
    }
}

/// Merging one more digit field changes the digit of its own level only, and
/// keeps digit bits within the digit fields.
pub proof fn lemma_merge_digit_field(bits: u64, digit: u8, level: u8, at: u8)
    requires
        level < LEVELS,
        at < LEVELS,
    ensures
        digit_at(bits | digit_field(digit, level), at) == if at == level {
            digit_at(bits, at) | (digit & 7)
        } else {
            digit_at(bits, at)
        },
        bits <= DIGITS_MASK ==> bits | digit_field(digit, level) <= DIGITS_MASK,
{
    assert(digit_at(bits | digit_field(digit, level), at) == if at == level {
        digit_at(bits, at) | (digit & 7)
    } else {
        digit_at(bits, at)
    }) by (bit_vector)
        requires
            level < 15,
            at < 15,
    ;
    assert(bits <= DIGITS_MASK ==> bits | digit_field(digit, level) <= DIGITS_MASK) by (bit_vector)
        requires
            level < 15,
    ;
}

/// A level that no pair names holds zero.
pub proof fn lemma_packed_absent(pairs: Seq<(u8, u8)>, level: u8)
    requires
        level < LEVELS,
        forall|i: int| 0 <= i < pairs.len() ==> pairs[i].0 < LEVELS,
        !names_level(pairs, level),
    ensures
        digit_at(packed_digits(pairs), level) == 0,
    decreases pairs.len(),
{
    if pairs.len() == 0 {
        lemma_no_digits();
    } else {
        let rest = pairs.drop_last();
        assert(pairs.last() == pairs[pairs.len() - 1]);
        assert forall|i: int| 0 <= i < rest.len() implies (#[trigger] rest[i]).0 != level by {
            assert(rest[i] == pairs[i]);
        }
        lemma_packed_absent(rest, level);
        lemma_merge_digit_field(packed_digits(rest), pairs.last().1, pairs.last().0, level);
    }
}

/// A level that exactly one pair names holds the low three bits of that
/// pair's digit.
pub proof fn lemma_packed_single(pairs: Seq<(u8, u8)>, i: int)
    requires
        0 <= i < pairs.len(),
        forall|j: int| 0 <= j < pairs.len() ==> pairs[j].0 < LEVELS,
        names_alone(pairs, i),
    ensures
        digit_at(packed_digits(pairs), pairs[i].0) == pairs[i].1 & 7,
    decreases pairs.len(),
{
    let level = pairs[i].0;
    let rest = pairs.drop_last();
    lemma_merge_digit_field(packed_digits(rest), pairs.last().1, pairs.last().0, level);
    if i == pairs.len() - 1 {
        assert forall|j: int| 0 <= j < rest.len() implies (#[trigger] rest[j]).0 != level by {
            assert(rest[j] == pairs[j]);
        }
        lemma_packed_absent(rest, level);
        let digit = pairs[i].1;
        assert(0u8 | (digit & 7) == digit & 7) by (bit_vector);
    } else {
        assert(pairs.last() == pairs[pairs.len() - 1]);
        assert forall|j: int| 0 <= j < rest.len() && j != i implies (#[trigger] rest[j]).0
            != rest[i].0 by {
            assert(rest[j] == pairs[j]);
        }
        lemma_packed_single(rest, i);
    }
}

/// Each of fifteen packed digits is found again at its level, cut to its low
/// three bits, and nothing lies above the digit fields.
pub proof fn lemma_digits_packed(digits: Seq<u8>)
    requires
        digits.len() == 15,
    ensures
        digits_packed(digits) <= DIGITS_MASK,
        forall|level: u8|
            level < LEVELS ==> #[trigger] digit_at(digits_packed(digits), level)
                == digits[level as int] & 7,
{
    let pairs = leveled(digits);
    assert forall|level: u8| level < LEVELS implies #[trigger] digit_at(
        digits_packed(digits),
        level,
    ) == digits[level as int] & 7 by {
        lemma_packed_single(pairs, level as int);
    }
    lemma_packed_within(pairs);
}

/// Packed digits keep to the digit fields.
pub proof fn lemma_packed_within(pairs: Seq<(u8, u8)>)
    requires
        forall|i: int| 0 <= i < pairs.len() ==> pairs[i].0 < LEVELS,
    ensures
        packed_digits(pairs) <= DIGITS_MASK,
    decreases pairs.len(),
{
    if pairs.len() > 0 {
        lemma_packed_within(pairs.drop_last());
        lemma_merge_digit_field(
            packed_digits(pairs.drop_last()),
            pairs.last().1,
            pairs.last().0,
            0,
        );
    }
}

/// Zero holds the digit zero at every level.
proof fn lemma_no_digits()
    ensures
        forall|level: u8| level < LEVELS ==> #[trigger] digit_at(0, level) == 0,
{
    assert forall|level: u8| level < LEVELS implies #[trigger] digit_at(0, level) == 0 by {
        assert(digit_at(0, level) == 0) by (bit_vector);
    }
}

/// Merging a child digit into a level that holds zero gives that level a
/// child digit and leaves the others as they were.
proof fn lemma_place_child_digit(bits: u64, digit: u8, level: u8)
    requires
        level < LEVELS,
        digit < CHILD_CELL_COUNT,
        bits <= DIGITS_MASK,
        digit_at(bits, level) == 0,
    ensures
        bits | digit_field(digit, level) <= DIGITS_MASK,
        digit_at(bits | digit_field(digit, level), level) < CHILD_CELL_COUNT,
        forall|l: u8|
            l < LEVELS && l != level ==> #[trigger] digit_at(bits | digit_field(digit, level), l)
                == digit_at(bits, l),
{
    lemma_merge_digit_field(bits, digit, level, level);
    assert(0u8 | (digit & 7) < 7) by (bit_vector)
        requires
            digit < 7,
    ;
    assert forall|l: u8| l < LEVELS && l != level implies #[trigger] digit_at(
        bits | digit_field(digit, level),
        l,
    ) == digit_at(bits, l) by {
        lemma_merge_digit_field(bits, digit, level, l);
    }
}

/// Merging the mask of the levels from `resolution` on sets their digits to
/// the sentinel and leaves the others as they were.
proof fn lemma_fill_finer(bits: u64, resolution: u8)
    requires
        resolution <= MAX_RESOLUTION,
        bits <= DIGITS_MASK,
    ensures
        bits | finer_mask(resolution) <= DIGITS_MASK,
        forall|level: u8|
            level < LEVELS ==> #[trigger] digit_at(bits | finer_mask(resolution), level)
                == if level >= resolution {
                7u8
            } else {
                digit_at(bits, level)
            },
{
    assert(bits | finer_mask(resolution) <= DIGITS_MASK) by (bit_vector)
        requires
            resolution <= 15,
            bits <= DIGITS_MASK,
    ;
    assert forall|level: u8| level < LEVELS implies #[trigger] digit_at(
        bits | finer_mask(resolution),
        level,
    ) == if level >= resolution {
        7u8
    } else {
        digit_at(bits, level)
    } by {
        assert(digit_at(bits | finer_mask(resolution), level) == if level >= resolution {
            7u8
        } else {
            digit_at(bits, level)
        }) by (bit_vector)
            requires
                resolution <= 15,
                level < 15,
        ;
    }
}

/// The upper fields and the digits of an address composed over digit bits:
/// the digits are those of the digit bits, so their shape is kept.
proof fn lemma_composed_over_digits(resolution: u8, base_cell: u32, digits: u64)
    requires
        resolution <= MAX_RESOLUTION,
        digits <= DIGITS_MASK,
    ensures
        ({
            let c = Index { index: composed(resolution, base_cell, digits) };
            &&& c.index & !DIGITS_MASK == composed(resolution, base_cell, 0)
            &&& c.index & CELL_MODE_MASK == CELL_MODE_MASK
            &&& base_cell <= 127 ==> c.spec_resolution() == resolution && c.spec_base_hex()
                == base_cell
            &&& forall|from: u8, to: u8|
                random_digits(digits, from, to) ==> random_digits(c.index, from, to)
        }),
{
    lemma_composed_fields(resolution, base_cell, digits);
}

} // verus!
