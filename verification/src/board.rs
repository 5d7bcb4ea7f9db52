//! The 9x9 board: a dense, row-major vector of 81 cells, the row / column /
//! block geometry, assignment with peer elimination, and the progress counts
//! that drive the fixed-point loop.

use vstd::prelude::*;

use crate::cell::{has_bit, lemma_clear_bit, mask_count, Cell, FULL_MASK};
use crate::counting::{
    count_upto, lemma_count_bound, lemma_count_congruence, lemma_count_frame, lemma_sum_bound,
    sum_upto,
};

verus! {

/// The three kinds of unit a cell belongs to.
#[derive(Clone, Copy, PartialEq, Eq, Structural, Debug)]
pub enum UnitKind {
    Row,
    Column,
    Block,
}

/// Index of the cell at 1-based position `(r, c)` in the row-major vector.
pub open spec fn pos_index(r: int, c: int) -> int {
    (r - 1) * 9 + (c - 1)
}

/// Index of slot `k` (0 to 8) of unit `u` (0 to 8) of the given kind.
/// Block slots run row-major within the block.
pub open spec fn unit_slot(kind: UnitKind, u: int, k: int) -> int {
    match kind {
        UnitKind::Row => u * 9 + k,
        UnitKind::Column => k * 9 + u,
        UnitKind::Block => (u / 3) * 27 + (k / 3) * 9 + (u % 3) * 3 + (k % 3),
    }
}

/// The unit of the given kind that cell `i` belongs to, 0 to 8.
pub open spec fn unit_of(kind: UnitKind, i: int) -> int {
    match kind {
        UnitKind::Row => i / 9,
        UnitKind::Column => i % 9,
        UnitKind::Block => (i / 27) * 3 + (i % 9) / 3,
    }
}

/// The slot of cell `i` within its unit of the given kind.
pub open spec fn slot_of(kind: UnitKind, i: int) -> int {
    match kind {
        UnitKind::Row => i % 9,
        UnitKind::Column => i / 9,
        UnitKind::Block => ((i / 9) % 3) * 3 + (i % 9) % 3,
    }
}

/// Unit coordinates are a bijection on cell indices.
pub proof fn lemma_unit_slot_inverse(kind: UnitKind, i: int)
    requires
        0 <= i < 81,
    ensures
        0 <= unit_of(kind, i) < 9,
        0 <= slot_of(kind, i) < 9,
        unit_slot(kind, unit_of(kind, i), slot_of(kind, i)) == i,
{
}

/// A unit slot is a valid cell index and maps back to its coordinates.
pub proof fn lemma_unit_slot_range(kind: UnitKind, u: int, k: int)
    requires
        0 <= u < 9,
        0 <= k < 9,
    ensures
        0 <= unit_slot(kind, u, k) < 81,
        unit_of(kind, unit_slot(kind, u, k)) == u,
        slot_of(kind, unit_slot(kind, u, k)) == k,
{
    let uu = u as u32;
    let ku = k as u32;
    match kind {
        UnitKind::Row => {},
        UnitKind::Column => {},
        UnitKind::Block => {
            assert((uu / 3) * 27 + (ku / 3) * 9 + (uu % 3) * 3 + (ku % 3) < 81 && ((uu / 3) * 27 + (
            ku / 3) * 9 + (uu % 3) * 3 + (ku % 3)) / 27 * 3 + (((uu / 3) * 27 + (ku / 3) * 9 + (uu
                % 3) * 3 + (ku % 3)) % 9) / 3 == uu && ((((uu / 3) * 27 + (ku / 3) * 9 + (uu % 3)
                * 3 + (ku % 3)) / 9) % 3) * 3 + (((uu / 3) * 27 + (ku / 3) * 9 + (uu % 3) * 3 + (ku
                % 3)) % 9) % 3 == ku)
                by (bit_vector)
                requires
                    uu < 9u32 && ku < 9u32,
            ;
        },
    }
}

/// Cells `i` and `j` share a row, column or block and are distinct.
pub open spec fn is_peer(i: int, j: int) -> bool {
    i != j && (unit_of(UnitKind::Row, i) == unit_of(UnitKind::Row, j) || unit_of(
        UnitKind::Column,
        i,
    ) == unit_of(UnitKind::Column, j) || unit_of(UnitKind::Block, i) == unit_of(UnitKind::Block, j))
}

/// Structural well-formedness of one cell at index `i`: its stored position
/// matches the index, its value is a digit or 0, its mask has 9 bits at most.
pub open spec fn cell_wf(c: Cell, i: int) -> bool {
    c.row_id == i / 9 + 1 && c.column_id == i % 9 + 1 && c.value <= 9 && c.grid < 0x200
}

/// Structural well-formedness of the whole board.
pub open spec fn board_wf(s: Seq<Cell>) -> bool {
    s.len() == 81 && forall|i: int| 0 <= i < 81 ==> cell_wf(#[trigger] s[i], i)
}

/// A board fresh out of `new` or `clean`: everything unknown, all candidates.
pub open spec fn fresh_board(s: Seq<Cell>) -> bool {
    forall|i: int| 0 <= i < 81 ==> (#[trigger] s[i]).value == 0 && s[i].grid == FULL_MASK
}

/// The one fresh board: all cells unknown with full masks, positions in
/// row-major order.
pub open spec fn fresh_spec() -> Seq<Cell> {
    Seq::new(
        81,
        |i: int|
            Cell {
                row_id: (i / 9 + 1) as usize,
                column_id: (i % 9 + 1) as usize,
                value: 0,
                grid: FULL_MASK,
            },
    )
}

/// Number of unassigned cells.
pub open spec fn unassigned_count(s: Seq<Cell>) -> nat {
    count_upto(|i: int| s[i].value == 0, 81)
}

/// Sum of the candidate counts of all 81 cells.
pub open spec fn candidate_total(s: Seq<Cell>) -> nat {
    sum_upto(|i: int| mask_count(s[i].grid), 81)
}

/// A solved board: nothing unassigned and exactly one candidate per cell.
pub open spec fn is_solved(s: Seq<Cell>) -> bool {
    unassigned_count(s) == 0 && candidate_total(s) == 81
}

/// Exact effect of assigning value `v` at cell `t`: the cell collapses to the
/// single matching bit, every unassigned peer loses that bit, and nothing else
/// moves.
pub open spec fn set_value_rel(s1: Seq<Cell>, s2: Seq<Cell>, t: int, v: u8) -> bool {
    &&& s1.len() == 81
    &&& s2.len() == 81
    &&& s2[t].value == v
    &&& s2[t].grid == 1u32 << ((v - 1) as u32)
    &&& s2[t].row_id == s1[t].row_id
    &&& s2[t].column_id == s1[t].column_id
    &&& forall|i: int|
        0 <= i < 81 && i != t ==> (#[trigger] s2[i]).value == s1[i].value && s2[i].row_id
            == s1[i].row_id && s2[i].column_id == s1[i].column_id
    &&& forall|i: int|
        0 <= i < 81 && i != t ==> (#[trigger] s2[i]).grid == if is_peer(i, t) && s1[i].value == 0 {
            s1[i].grid & !(1u32 << ((v - 1) as u32))
        } else {
            s1[i].grid
        }
}

/// The board that assigning value `v` at cell `t` produces: the unique
/// sequence `set_value_rel` admits.
pub open spec fn set_value_spec(s: Seq<Cell>, t: int, v: u8) -> Seq<Cell> {
    Seq::new(
        81,
        |i: int|
            if i == t {
                Cell { value: v, grid: 1u32 << ((v - 1) as u32), ..s[t] }
            } else if is_peer(i, t) && s[i].value == 0 {
                Cell { grid: s[i].grid & !(1u32 << ((v - 1) as u32)), ..s[i] }
            } else {
                s[i]
            },
    )
}

/// `set_value_rel` pins the result completely: any sequence satisfying it is
/// `set_value_spec` of the old one.
pub proof fn lemma_set_value_spec(s1: Seq<Cell>, s2: Seq<Cell>, t: int, v: u8)
    requires
        0 <= t < 81,
        set_value_rel(s1, s2, t, v),
    ensures
        s2 == set_value_spec(s1, t, v),
{
    assert(s2 =~= set_value_spec(s1, t, v));
}

/// Values only get added, and candidates of cells that are still unassigned
/// only get removed: the one-way narrowing that every deduction respects.
pub open spec fn narrowed(s1: Seq<Cell>, s2: Seq<Cell>) -> bool {
    &&& forall|i: int|
        0 <= i < 81 && (#[trigger] s1[i]).value != 0 ==> s2[i].value == s1[i].value
    &&& forall|i: int|
        0 <= i < 81 && (#[trigger] s2[i]).value == 0 ==> s1[i].value == 0 && (forall|b: int|
            0 <= b < 9 ==> (#[trigger] has_bit(s2[i].grid, b) ==> has_bit(s1[i].grid, b)))
}

/// Every newly assigned digit was still a candidate of its cell before: a
/// cleared candidate is never placed.
pub open spec fn placements_supported(s1: Seq<Cell>, s2: Seq<Cell>) -> bool {
    forall|i: int|
        0 <= i < 81 && (#[trigger] s1[i]).value == 0 && s2[i].value != 0 ==> 1 <= s2[i].value <= 9
            && has_bit(s1[i].grid, s2[i].value - 1)
}

/// Supported placements chain across narrowing steps.
pub proof fn lemma_placements_trans(a: Seq<Cell>, b: Seq<Cell>, c: Seq<Cell>)
    requires
        narrowed(a, b),
        narrowed(b, c),
        placements_supported(a, b),
        placements_supported(b, c),
    ensures
        placements_supported(a, c),
{
    assert forall|i: int|
        0 <= i < 81 && (#[trigger] a[i]).value == 0 && c[i].value != 0 implies 1 <= c[i].value <= 9
        && has_bit(a[i].grid, c[i].value - 1) by {
        if b[i].value != 0 {
            assert(c[i].value == b[i].value);
        }
    }
}

/// Narrowing is transitive.
pub proof fn lemma_narrowed_trans(a: Seq<Cell>, b: Seq<Cell>, c: Seq<Cell>)
    requires
        narrowed(a, b),
        narrowed(b, c),
    ensures
        narrowed(a, c),
{
}

/// One assignment on a cell that was unassigned at the start of the chain
/// keeps the chain narrowing.
pub proof fn lemma_narrowed_set_value(
    s0: Seq<Cell>,
    s1: Seq<Cell>,
    s2: Seq<Cell>,
    t: int,
    v: u8,
)
    requires
        narrowed(s0, s1),
        0 <= t < 81,
        1 <= v <= 9,
        s0[t].value == 0,
        s0.len() == 81,
        set_value_rel(s1, s2, t, v),
    ensures
        narrowed(s0, s2),
{
    assert forall|i: int| 0 <= i < 81 && (#[trigger] s2[i]).value == 0 implies s0[i].value == 0 && (
    forall|b: int| 0 <= b < 9 ==> (#[trigger] has_bit(s2[i].grid, b) ==> has_bit(
        s0[i].grid,
        b,
    ))) by {
        assert(i != t);
        assert(s1[i].value == 0 ==> s0[i].value == 0);
        assert(s2[i].value == s1[i].value);
        assert forall|b: int| 0 <= b < 9 && #[trigger] has_bit(s2[i].grid, b) implies has_bit(
            s0[i].grid,
            b,
        ) by {
            if is_peer(i, t) && s1[i].value == 0 {
                lemma_clear_bit(s1[i].grid, v - 1, b);
            }
        }
    }
}

#[derive(Debug)]
pub struct Sudoku {
    /// The 81 cells, row-major: index `i` is row `i / 9 + 1`, column `i % 9 + 1`.
    pub data: Vec<Cell>,
}

impl Sudoku {
    /// Structural well-formedness of the board.
    pub open spec fn wf(&self) -> bool {
        board_wf(self.data@)
    }

    /// A fresh board: all cells unknown with full candidate masks.
    pub fn new() -> (s: Sudoku)
        ensures
            s.wf(),
            fresh_board(s.data@),
    {
        let mut v: Vec<Cell> = Vec::new();
        let mut i: usize = 0;
        while i < 81
            invariant
                i <= 81,
                v@.len() == i,
                forall|j: int|
                    0 <= j < i ==> cell_wf(#[trigger] v@[j], j) && v@[j].value == 0 && v@[j].grid
                        == FULL_MASK,
            decreases 81 - i,
        {
            v.push(
                Cell {
                    row_id: i / 9 + 1,
                    column_id: i % 9 + 1,
                    value: 0,
                    grid: FULL_MASK,
                },
            );
            i += 1;
        }
        Sudoku { data: v }
    }

    /// Resets every cell to unknown with the full candidate mask.
    pub fn clean(&mut self)
        requires
            old(self).wf(),
        ensures
            final(self).wf(),
            fresh_board(final(self).data@),
            final(self).data@ == fresh_spec(),
    {
        let mut i: usize = 0;
        while i < 81
            invariant
                i <= 81,
                self.data@.len() == 81,
                forall|j: int|
                    0 <= j < 81 ==> (#[trigger] self.data@[j]).row_id == old(self).data@[j].row_id
                        && self.data@[j].column_id == old(self).data@[j].column_id,
                forall|j: int|
                    0 <= j < i ==> (#[trigger] self.data@[j]).value == 0 && self.data@[j].grid
                        == FULL_MASK,
                old(self).wf(),
            decreases 81 - i,
        {
            let mut ce = self.data[i];
            ce.value = 0;
            ce.grid = FULL_MASK;
            self.data[i] = ce;
            i += 1;
        }
        proof {
            assert(self.data@ =~= fresh_spec());
        }
    }

    /// Assigns `value` at 1-based position `pos`: collapses the cell's mask to
    /// the single matching bit and clears that bit from every unassigned peer.
    /// After the call no unassigned peer still carries the assigned digit.
    pub fn set_value(&mut self, pos: (usize, usize), value: u8)
        requires
            old(self).wf(),
            1 <= pos.0 <= 9,
            1 <= pos.1 <= 9,
            1 <= value <= 9,
        ensures
            final(self).wf(),
            set_value_rel(
                old(self).data@,
                final(self).data@,
                pos_index(pos.0 as int, pos.1 as int),
                value,
            ),
            forall|i: int|
                0 <= i < 81 && is_peer(i, pos_index(pos.0 as int, pos.1 as int)) && (
                #[trigger] final(self).data@[i]).value == 0 ==> !has_bit(
                    final(self).data@[i].grid,
                    value - 1,
                ),
            unassigned_count(final(self).data@) + (if old(self).data@[pos_index(
                pos.0 as int,
                pos.1 as int,
            )].value == 0 {
                1nat
            } else {
                0nat
            }) == unassigned_count(old(self).data@),
    {
        let t: usize = (pos.0 - 1) * 9 + (pos.1 - 1);
        let b: usize = (value - 1) as usize;
        let ghost s0 = self.data@;
        let mut ce = self.data[t];
        ce.value = value;
        ce.grid = 1u32 << (b as u32);
        self.data[t] = ce;
        let ghost s1 = self.data@;
        proof {
            assert(s1 == s0.update(t as int, ce));
            assert((1u32 << (b as u32)) < 0x200) by (bit_vector)
                requires
                    b < 9usize,
            ;
            lemma_count_frame(
                |i: int| s0[i].value == 0,
                |i: int| s1[i].value == 0,
                81,
                t as int,
            );
        }
        let mut k: usize = 0;
        while k < 81
            invariant
                k <= 81,
                t < 81,
                b < 9,
                self.data@.len() == 81,
                board_wf(s1),
                s1.len() == 81,
                s1[t as int].value != 0,
                forall|i: int| 0 <= i < 81 ==> (#[trigger] self.data@[i]).value == s1[i].value,
                forall|i: int|
                    0 <= i < 81 ==> (#[trigger] self.data@[i]).row_id == s1[i].row_id
                        && self.data@[i].column_id == s1[i].column_id,
                forall|i: int|
                    0 <= i < 81 ==> (#[trigger] self.data@[i]).grid == if i < k && is_peer(
                        i,
                        t as int,
                    ) && s1[i].value == 0 {
                        s1[i].grid & !(1u32 << ((b as u32)))
                    } else {
                        s1[i].grid
                    },
            decreases 81 - k,
        {
            if peer_at(k, t) && self.data[k].value == 0 {
                let mut pc = self.data[k];
                pc.clear_bit(b);
                self.data[k] = pc;
            }
            k += 1;
        }
        proof {
            let s2 = self.data@;
            assert forall|i: int| 0 <= i < 81 implies cell_wf(#[trigger] s2[i], i) by {
                assert(cell_wf(s1[i], i));
                if is_peer(i, t as int) && s1[i].value == 0 {
                    assert(s2[i].grid == s1[i].grid & !(1u32 << (b as u32)));
                    let g = s1[i].grid;
                    assert(g & !(1u32 << (b as u32)) < 0x200) by (bit_vector)
                        requires
                            g < 0x200u32 && b < 9usize,
                    ;
                }
            }
            lemma_count_congruence(
                |i: int| s1[i].value == 0,
                |i: int| s2[i].value == 0,
                81,
            );
            assert forall|i: int|
                0 <= i < 81 && is_peer(i, t as int) && (#[trigger] s2[i]).value == 0 implies !has_bit(
                s2[i].grid,
                value - 1,
            ) by {
                lemma_clear_bit(s1[i].grid, b as int, b as int);
            }
        }
    }

    /// Accepts a candidate-removal request and leaves the board unchanged:
    /// candidates are narrowed only by the deduction passes and by the peer
    /// elimination of `set_value`.
    pub fn clear_value(&mut self, pos: (usize, usize), value: u8)
        ensures
            *final(self) == *old(self),
    {
        let _ = pos;
        let _ = value;
    }

    /// Returns `(unassigned cells, total candidate count over all cells)`,
    /// the progress measure of the propagation loop.
    pub fn remaining_count(&self) -> (r: (usize, usize))
        requires
            self.wf(),
        ensures
            r.0 == unassigned_count(self.data@),
            r.1 == candidate_total(self.data@),
    {
        let mut result: usize = 0;
        let mut totalvalues: usize = 0;
        let mut i: usize = 0;
        proof {
            lemma_count_bound(|j: int| self.data@[j].value == 0, 81);
            assert forall|j: int| 0 <= j < 81 implies #[trigger] mask_count(self.data@[j].grid)
                <= 9 by {
                lemma_count_bound(|bb: int| has_bit(self.data@[j].grid, bb), 9);
            }
            lemma_sum_bound(|j: int| mask_count(self.data@[j].grid), 81, 9);
        }
        while i < 81
            invariant
                i <= 81,
                self.wf(),
                result == count_upto(|j: int| self.data@[j].value == 0, i as int),
                totalvalues == sum_upto(|j: int| mask_count(self.data@[j].grid), i as int),
                result <= i,
                totalvalues <= 9 * i,
            decreases 81 - i,
        {
            proof {
                lemma_count_bound(|bb: int| has_bit(self.data@[i as int].grid, bb), 9);
            }
            totalvalues += self.data[i].count();
            if self.data[i].value == 0 {
                result += 1;
            }
            i += 1;
        }
        (result, totalvalues)
    }

    /// True exactly when the board is solved: nothing unassigned and the
    /// candidate total is 81 (one candidate per cell).
    pub fn exam(&self) -> (r: bool)
        requires
            self.wf(),
        ensures
            r == is_solved(self.data@),
    {
        let remain = self.remaining_count();
        remain.0 == 0 && remain.1 == 81
    }
}

/// True when cells `i` and `t` are distinct and share a row, column or block.
pub fn peer_at(i: usize, t: usize) -> (r: bool)
    requires
        i < 81,
        t < 81,
    ensures
        r == is_peer(i as int, t as int),
{
    i != t && (i / 9 == t / 9 || i % 9 == t % 9 || (i / 27 == t / 27 && (i % 9) / 3 == (t % 9)
        / 3))
}

} // verus!
