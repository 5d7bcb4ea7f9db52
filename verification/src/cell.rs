//! A single Sudoku cell: its position, its assigned value (0 while unknown)
//! and its 9-bit candidate mask, where bit `b` means digit `b + 1` is still
//! possible.

use vstd::prelude::*;

use crate::counting::{count_upto, lemma_count_zero};

verus! {

/// The full candidate mask: all nine digits possible.
pub const FULL_MASK: u32 = 0x1ff;

#[derive(Clone, Copy, PartialEq, Eq, Structural, Debug)]
pub struct Cell {
    /// Row of the cell, 1 to 9.
    pub row_id: usize,
    /// Column of the cell, 1 to 9.
    pub column_id: usize,
    /// Assigned digit, 1 to 9, or 0 while unknown.
    pub value: u8,
    /// Candidate mask: bit `b` set means digit `b + 1` is still possible.
    pub grid: u32,
}

/// Bit `b` of mask `g` is set: digit `b + 1` is still a candidate.
pub open spec fn has_bit(g: u32, b: int) -> bool {
    g & (1u32 << (b as u32)) != 0
}

/// Number of candidate bits of `g` among bits 0 to 8.
pub open spec fn mask_count(g: u32) -> nat {
    count_upto(|b: int| has_bit(g, b), 9)
}

/// The remaining digits of mask `g`, ascending; digit `b + 1` for each set bit.
pub open spec fn mask_values(g: u32) -> Seq<usize> {
    mask_values_upto(g, 9)
}

/// The remaining digits among bits below `k`, ascending.
pub open spec fn mask_values_upto(g: u32, k: int) -> Seq<usize>
    decreases k,
{
    if k <= 0 {
        Seq::empty()
    } else {
        mask_values_upto(g, k - 1) + if has_bit(g, k - 1) {
            seq![k as usize]
        } else {
            Seq::empty()
        }
    }
}

/// Clearing bit `b` leaves exactly the other bits.
pub proof fn lemma_clear_bit(g: u32, b: int, j: int)
    requires
        0 <= b < 9,
        0 <= j < 9,
    ensures
        has_bit(g & !(1u32 << (b as u32)), j) == (has_bit(g, j) && j != b),
{
    let bu = b as u32;
    let ju = j as u32;
    assert(((g & !(1u32 << bu)) & (1u32 << ju) != 0) == ((g & (1u32 << ju) != 0) && ju != bu))
        by (bit_vector)
        requires
            bu < 9u32 && ju < 9u32,
    ;
}

impl Cell {
    /// True when digit `bit + 1` is still a candidate of this cell.
    pub fn check_bit(&self, bit: usize) -> (r: bool)
        requires
            bit < 9,
        ensures
            r == has_bit(self.grid, bit as int),
    {
        (self.grid & (1u32 << (bit as u32))) != 0
    }

    /// Removes digit `bit + 1` from the candidate mask; a no-op when the bit
    /// is already clear.
    pub fn clear_bit(&mut self, bit: usize)
        requires
            bit < 9,
        ensures
            final(self).grid == old(self).grid & !(1u32 << (bit as u32)),
            final(self).row_id == old(self).row_id,
            final(self).column_id == old(self).column_id,
            final(self).value == old(self).value,
            forall|j: int|
                0 <= j < 9 ==> has_bit(final(self).grid, j) == (has_bit(old(self).grid, j) && j
                    != bit),
    {
        proof {
            assert forall|j: int| 0 <= j < 9 implies has_bit(
                old(self).grid & !(1u32 << (bit as u32)),
                j,
            ) == (has_bit(old(self).grid, j) && j != bit) by {
                lemma_clear_bit(old(self).grid, bit as int, j);
            }
        }
        if self.check_bit(bit) {
            self.grid = self.grid & !(1u32 << (bit as u32));
        } else {
            proof {
                lemma_clear_noop(self.grid, bit as int);
            }
        }
    }

    /// Number of remaining candidates.
    pub fn count(&self) -> (c: usize)
        ensures
            c == mask_count(self.grid),
    {
        let mut c: usize = 0;
        let mut i: usize = 0;
        while i < 9
            invariant
                i <= 9,
                c == count_upto(|b: int| has_bit(self.grid, b), i as int),
                c <= i,
            decreases 9 - i,
        {
            if self.check_bit(i) {
                c += 1;
            }
            i += 1;
        }
        c
    }

    /// The naked-single probe: for an unassigned cell with exactly one
    /// candidate left, returns that deduction as `(row, column, digit)`;
    /// otherwise `(0, 0, 0)`.
    pub fn check(&mut self) -> (r: (usize, usize, u8))
        requires
            old(self).grid < 0x200,
        ensures
            *final(self) == *old(self),
            if mask_count(old(self).grid) == 1 && old(self).value == 0 {
                r.0 == old(self).row_id && r.1 == old(self).column_id && 1 <= r.2 <= 9 && has_bit(
                    old(self).grid,
                    r.2 - 1,
                )
            } else {
                r == (0usize, 0usize, 0u8)
            },
    {
        if self.count() == 1 && self.value == 0 {
            let mut i: u8 = 0;
            while i < 9
                invariant
                    i <= 9,
                    *self == *old(self),
                    old(self).value == 0,
                    forall|j: int| 0 <= j < i ==> !has_bit(self.grid, j),
                    mask_count(self.grid) == 1,
                decreases 9 - i,
            {
                if self.check_bit(i as usize) {
                    return (self.row_id, self.column_id, i + 1);
                }
                i += 1;
            }
            proof {
                lemma_count_zero(|b: int| has_bit(self.grid, b), 9);
                assert(false);
            }
        }
        (0, 0, 0u8)
    }

    /// The remaining digits, ascending.
    pub fn get_values(&self) -> (vs: Vec<usize>)
        ensures
            vs@ == mask_values(self.grid),
    {
        let mut vs: Vec<usize> = Vec::new();
        let mut i: usize = 0;
        while i < 9
            invariant
                i <= 9,
                vs@ == mask_values_upto(self.grid, i as int),
            decreases 9 - i,
        {
            if self.check_bit(i) {
                vs.push(i + 1);
            }
            i += 1;
        }
        vs
    }
}

/// The values list is as long as the candidate count, each entry is a digit
/// 1 to 9 with its bit set in the mask, the list ascends strictly, and every
/// set bit's digit appears.
pub proof fn lemma_mask_values(g: u32, k: int)
    requires
        0 <= k <= 9,
    ensures
        mask_values_upto(g, k).len() == count_upto(|b: int| has_bit(g, b), k),
        forall|j: int|
            0 <= j < mask_values_upto(g, k).len() ==> 1 <= #[trigger] mask_values_upto(g, k)[j]
                <= k && has_bit(g, mask_values_upto(g, k)[j] - 1),
        forall|j1: int, j2: int|
            0 <= j1 < j2 < mask_values_upto(g, k).len() ==> mask_values_upto(g, k)[j1]
                < mask_values_upto(g, k)[j2],
        forall|b: int|
            0 <= b < k && #[trigger] has_bit(g, b) ==> exists|j: int|
                0 <= j < mask_values_upto(g, k).len() && mask_values_upto(g, k)[j] == b + 1,
    decreases k,
{
    if k > 0 {
        lemma_mask_values(g, k - 1);
        let prev = mask_values_upto(g, k - 1);
        let cur = mask_values_upto(g, k);
        assert(forall|j: int| 0 <= j < prev.len() ==> cur[j] == prev[j]);
        assert forall|b: int|
            0 <= b < k && #[trigger] has_bit(g, b) implies exists|j: int|
            0 <= j < cur.len() && cur[j] == b + 1 by {
            if b < k - 1 {
                let j = choose|j: int| 0 <= j < prev.len() && prev[j] == b + 1;
                assert(cur[j] == b + 1);
            } else {
                assert(cur[cur.len() - 1] == k as usize);
            }
        }
    }
}

/// The bit of a single-candidate mask.
pub open spec fn sole_bit(g: u32) -> int {
    choose|b: int| 0 <= b < 9 && has_bit(g, b)
}

/// A mask with exactly one candidate has exactly its sole bit: any set bit
/// is that bit.
pub proof fn lemma_sole_bit(g: u32, b: int)
    requires
        mask_count(g) == 1,
        0 <= b < 9,
        has_bit(g, b),
    ensures
        sole_bit(g) == b,
{
    crate::counting::lemma_count_pos_exists(|bb: int| has_bit(g, bb), 9);
    let w = choose|bb: int| 0 <= bb < 9 && has_bit(g, bb);
    crate::counting::lemma_count_one_unique(|bb: int| has_bit(g, bb), 9, w, b);
}

/// The 9-bit mask whose bits below `n` are exactly where `f` holds.
pub open spec fn mask_of(f: spec_fn(int) -> bool, n: int) -> u32
    decreases n,
{
    if n <= 0 {
        0u32
    } else if f(n - 1) {
        mask_of(f, n - 1) | (1u32 << ((n - 1) as u32))
    } else {
        mask_of(f, n - 1)
    }
}

/// What `mask_of` builds: a 9-bit mask holding `f`'s bits.
pub proof fn lemma_mask_of(f: spec_fn(int) -> bool, n: int)
    requires
        0 <= n <= 9,
    ensures
        mask_of(f, n) < 0x200,
        forall|j: int| 0 <= j < 9 ==> #[trigger] has_bit(mask_of(f, n), j) == (j < n && f(j)),
    decreases n,
{
    if n == 0 {
        assert forall|j: int| 0 <= j < 9 implies !has_bit(0u32, j) by {
            let ju = j as u32;
            assert(0u32 & (1u32 << ju) == 0) by (bit_vector);
        }
    } else {
        lemma_mask_of(f, n - 1);
        let g = mask_of(f, n - 1);
        let k = (n - 1) as u32;
        if f(n - 1) {
            assert forall|j: int| 0 <= j < 9 implies has_bit(g | (1u32 << k), j) == (has_bit(g, j)
                || j == n - 1) by {
                let ju = j as u32;
                assert((((g | (1u32 << k)) & (1u32 << ju) != 0) == ((g & (1u32 << ju) != 0) || ju
                    == k)))
                    by (bit_vector)
                    requires
                        k < 9u32 && ju < 9u32,
                ;
            }
            assert(g | (1u32 << k) < 0x200) by (bit_vector)
                requires
                    g < 0x200u32 && k < 9u32,
            ;
            assert forall|j: int| 0 <= j < 9 implies #[trigger] has_bit(mask_of(f, n), j) == (j
                < n && f(j)) by {
                assert(has_bit(g, j) == (j < n - 1 && f(j)));
            }
        } else {
            assert forall|j: int| 0 <= j < 9 implies #[trigger] has_bit(mask_of(f, n), j) == (j
                < n && f(j)) by {
                assert(has_bit(g, j) == (j < n - 1 && f(j)));
                if j == n - 1 {
                    assert(!f(j));
                }
            }
        }
    }
}

/// Two 9-bit masks that agree on bits 0 to 8 are equal.
pub proof fn lemma_mask_ext(g1: u32, g2: u32)
    requires
        g1 < 0x200,
        g2 < 0x200,
        forall|j: int| 0 <= j < 9 ==> has_bit(g1, j) == has_bit(g2, j),
    ensures
        g1 == g2,
{
    assert(has_bit(g1, 0) == has_bit(g2, 0));
    assert(has_bit(g1, 1) == has_bit(g2, 1));
    assert(has_bit(g1, 2) == has_bit(g2, 2));
    assert(has_bit(g1, 3) == has_bit(g2, 3));
    assert(has_bit(g1, 4) == has_bit(g2, 4));
    assert(has_bit(g1, 5) == has_bit(g2, 5));
    assert(has_bit(g1, 6) == has_bit(g2, 6));
    assert(has_bit(g1, 7) == has_bit(g2, 7));
    assert(has_bit(g1, 8) == has_bit(g2, 8));
    assert(g1 == g2) by (bit_vector)
        requires
            g1 < 0x200u32 && g2 < 0x200u32 && ((g1 & (1u32 << 0u32) != 0) == (g2 & (1u32 << 0u32)
                != 0)) && ((g1 & (1u32 << 1u32) != 0) == (g2 & (1u32 << 1u32) != 0)) && ((g1 & (
            1u32 << 2u32) != 0) == (g2 & (1u32 << 2u32) != 0)) && ((g1 & (1u32 << 3u32) != 0) == (
            g2 & (1u32 << 3u32) != 0)) && ((g1 & (1u32 << 4u32) != 0) == (g2 & (1u32 << 4u32) != 0))
                && ((g1 & (1u32 << 5u32) != 0) == (g2 & (1u32 << 5u32) != 0)) && ((g1 & (1u32
                << 6u32) != 0) == (g2 & (1u32 << 6u32) != 0)) && ((g1 & (1u32 << 7u32) != 0) == (g2
                & (1u32 << 7u32) != 0)) && ((g1 & (1u32 << 8u32) != 0) == (g2 & (1u32 << 8u32)
                != 0)),
    ;
}

/// Removing one mask from another removes exactly its bits, and stays a
/// 9-bit mask.
pub proof fn lemma_and_not(g: u32, h: u32, j: int)
    requires
        g < 0x200,
        0 <= j < 9,
    ensures
        has_bit(g & !h, j) == (has_bit(g, j) && !has_bit(h, j)),
        g & !h < 0x200,
{
    let ju = j as u32;
    assert((((g & !h) & (1u32 << ju) != 0) == ((g & (1u32 << ju) != 0) && !(h & (1u32 << ju) != 0)))
        && (g & !h < 0x200u32))
        by (bit_vector)
        requires
            g < 0x200u32 && ju < 9u32,
    ;
}

/// Clearing a bit that is not set leaves the mask unchanged.
pub proof fn lemma_clear_noop(g: u32, b: int)
    requires
        0 <= b < 9,
        !has_bit(g, b),
    ensures
        g & !(1u32 << (b as u32)) == g,
{
    let bu = b as u32;
    assert(g & (1u32 << bu) == 0 ==> g & !(1u32 << bu) == g)
        by (bit_vector)
        requires
            bu < 9u32,
    ;
}

} // verus!
