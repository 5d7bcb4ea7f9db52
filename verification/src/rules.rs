//! Shared vocabulary of the deduction techniques: carrier counts per unit,
//! the stalled-state predicates that characterize when each technique has
//! nothing left to do, and the single-bit clearing step with its exact
//! effect on the progress counts.

use vstd::prelude::*;

use crate::board::{
    board_wf, candidate_total, cell_wf, narrowed, unassigned_count, unit_of, unit_slot, Sudoku,
    UnitKind,
};
use crate::cell::{has_bit, lemma_clear_bit, lemma_clear_noop, mask_count, Cell};
use crate::counting::{
    count_upto, lemma_count_congruence, lemma_count_frame, lemma_count_one_unique, lemma_sum_bound,
    lemma_sum_frame, sum_upto,
};

verus! {

/// Cell `i` is an unassigned carrier of digit `b + 1`.
pub open spec fn is_carrier(s: Seq<Cell>, i: int, b: int) -> bool {
    s[i].value == 0 && has_bit(s[i].grid, b)
}

/// Number of unassigned carriers of digit `b + 1` in unit `u` of a kind.
pub open spec fn carrier_count(s: Seq<Cell>, kind: UnitKind, u: int, b: int) -> nat {
    count_upto(|k: int| is_carrier(s, unit_slot(kind, u, k), b), 9)
}

/// No unassigned cell has exactly one candidate: the naked-single pass finds
/// nothing.
pub open spec fn no_naked_single(s: Seq<Cell>) -> bool {
    forall|i: int| 0 <= i < 81 && (#[trigger] s[i]).value == 0 ==> mask_count(s[i].grid) != 1
}

/// No digit has exactly one unassigned carrier in any unit of the kind: the
/// hidden-single pass over that kind finds nothing.
pub open spec fn no_hidden_single(s: Seq<Cell>, kind: UnitKind) -> bool {
    forall|u: int, b: int|
        0 <= u < 9 && 0 <= b < 9 ==> #[trigger] carrier_count(s, kind, u, b) != 1
}

/// A unit carries the unique carrier of digit `b + 1` at most once, so two
/// carriers of the same digit in the same unit are the same cell when the
/// carrier count is one.
pub proof fn lemma_unique_carrier(
    s: Seq<Cell>,
    kind: UnitKind,
    u: int,
    b: int,
    x1: int,
    x2: int,
)
    requires
        0 <= u < 9,
        0 <= x1 < 81,
        0 <= x2 < 81,
        unit_of(kind, x1) == u,
        unit_of(kind, x2) == u,
        is_carrier(s, x1, b),
        is_carrier(s, x2, b),
        carrier_count(s, kind, u, b) == 1,
    ensures
        x1 == x2,
{
    crate::board::lemma_unit_slot_inverse(kind, x1);
    crate::board::lemma_unit_slot_inverse(kind, x2);
    lemma_count_one_unique(
        |k: int| is_carrier(s, unit_slot(kind, u, k), b),
        9,
        crate::board::slot_of(kind, x1),
        crate::board::slot_of(kind, x2),
    );
}

/// Slot `i` of unit `u` starts a naked pair: exactly two candidates and a
/// later slot with the identical mask.
pub open spec fn pair_at(s: Seq<Cell>, kind: UnitKind, u: int, i: int) -> bool {
    mask_count(s[unit_slot(kind, u, i)].grid) == 2 && exists|j: int|
        i < j < 9 && s[unit_slot(kind, u, j)].grid == s[unit_slot(kind, u, i)].grid
}

/// Every clear the pair with mask `g` prescribes in unit `u` is a no-op:
/// each other cell of the unit either matches the pair's mask exactly or
/// shares no bit with it.
pub open spec fn pair_clears_noop(s: Seq<Cell>, kind: UnitKind, u: int, g: u32) -> bool {
    forall|k: int|
        0 <= k < 9 ==> ((#[trigger] s[unit_slot(kind, u, k)]).grid == g || (forall|b: int|
            0 <= b < 9 ==> !(#[trigger] has_bit(g, b) && has_bit(s[unit_slot(kind, u, k)].grid, b))))
}

/// The naked-pair step on unit `u` changes nothing: there is no pair, or the
/// last pair found in scan order prescribes only no-op clears.
pub open spec fn no_pair_action(s: Seq<Cell>, kind: UnitKind, u: int) -> bool {
    forall|i: int|
        0 <= i < 9 && #[trigger] pair_at(s, kind, u, i) && (forall|i2: int|
            i < i2 < 9 ==> !pair_at(s, kind, u, i2)) ==> pair_clears_noop(
            s,
            kind,
            u,
            s[unit_slot(kind, u, i)].grid,
        )
}

/// The naked-pair pass over all units of a kind changes nothing.
pub open spec fn pair_stalled(s: Seq<Cell>, kind: UnitKind) -> bool {
    forall|u: int| 0 <= u < 9 ==> #[trigger] no_pair_action(s, kind, u)
}

/// The largest slot below `i` of unit `u` that starts a pair, or -1.
pub open spec fn last_pair_slot_from(s: Seq<Cell>, kind: UnitKind, u: int, i: int) -> int
    decreases i,
{
    if i <= 0 {
        -1
    } else if pair_at(s, kind, u, i - 1) {
        i - 1
    } else {
        last_pair_slot_from(s, kind, u, i - 1)
    }
}

/// The slot of the pair that acts in unit `u`: the last in scan order.
pub open spec fn last_pair_slot(s: Seq<Cell>, kind: UnitKind, u: int) -> int {
    last_pair_slot_from(s, kind, u, 9)
}

/// Unit `u` holds a naked pair.
pub open spec fn has_last_pair(s: Seq<Cell>, kind: UnitKind, u: int) -> bool {
    last_pair_slot(s, kind, u) >= 0
}

/// The mask of the pair that acts in unit `u`.
pub open spec fn last_pair_grid(s: Seq<Cell>, kind: UnitKind, u: int) -> u32 {
    s[unit_slot(kind, u, last_pair_slot(s, kind, u))].grid
}

/// The cell the naked-pair pass of a kind leaves at index `i`: when the
/// cell's unit holds a pair and the cell's mask differs from the acting
/// pair's, the pair's bits are removed; otherwise the cell is untouched.
pub open spec fn pair_cell_spec(s: Seq<Cell>, kind: UnitKind, i: int) -> Cell {
    let u = unit_of(kind, i);
    if has_last_pair(s, kind, u) && s[i].grid != last_pair_grid(s, kind, u) {
        Cell { grid: s[i].grid & !last_pair_grid(s, kind, u), ..s[i] }
    } else {
        s[i]
    }
}

/// The exact board one naked-pair pass of a kind produces: every unit acts
/// independently (units of one kind are disjoint).
pub open spec fn pair_stage_spec(s: Seq<Cell>, kind: UnitKind) -> Seq<Cell> {
    Seq::new(81, |i: int| pair_cell_spec(s, kind, i))
}

/// What the last-pair slot satisfies: it starts a pair, nothing after it
/// does, and -1 means no slot below `i` does.
pub proof fn lemma_last_pair_slot(s: Seq<Cell>, kind: UnitKind, u: int, i: int)
    requires
        0 <= i <= 9,
    ensures
        -1 <= last_pair_slot_from(s, kind, u, i) < i,
        last_pair_slot_from(s, kind, u, i) >= 0 ==> pair_at(
            s,
            kind,
            u,
            last_pair_slot_from(s, kind, u, i),
        ),
        forall|i2: int| last_pair_slot_from(s, kind, u, i) < i2 < i ==> !pair_at(s, kind, u, i2),
    decreases i,
{
    if i > 0 {
        lemma_last_pair_slot(s, kind, u, i - 1);
    }
}

/// Whether a slot starts a pair depends only on the unit's cells.
pub proof fn lemma_pair_at_congruence(s1: Seq<Cell>, s2: Seq<Cell>, kind: UnitKind, u: int, i: int)
    requires
        forall|k: int| 0 <= k < 9 ==> s1[#[trigger] unit_slot(kind, u, k)] == s2[unit_slot(kind, u, k)],
        0 <= i < 9,
    ensures
        pair_at(s1, kind, u, i) == pair_at(s2, kind, u, i),
{
    if pair_at(s1, kind, u, i) {
        let j = choose|j: int|
            i < j < 9 && s1[unit_slot(kind, u, j)].grid == s1[unit_slot(kind, u, i)].grid;
        assert(s2[unit_slot(kind, u, j)].grid == s2[unit_slot(kind, u, i)].grid);
    }
    if pair_at(s2, kind, u, i) {
        let j = choose|j: int|
            i < j < 9 && s2[unit_slot(kind, u, j)].grid == s2[unit_slot(kind, u, i)].grid;
        assert(s1[unit_slot(kind, u, j)].grid == s1[unit_slot(kind, u, i)].grid);
    }
}

/// The acting pair of a unit depends only on the unit's cells.
pub proof fn lemma_last_pair_congruence(
    s1: Seq<Cell>,
    s2: Seq<Cell>,
    kind: UnitKind,
    u: int,
    i: int,
)
    requires
        forall|k: int| 0 <= k < 9 ==> s1[#[trigger] unit_slot(kind, u, k)] == s2[unit_slot(kind, u, k)],
        0 <= i <= 9,
    ensures
        last_pair_slot_from(s1, kind, u, i) == last_pair_slot_from(s2, kind, u, i),
    decreases i,
{
    if i > 0 {
        lemma_pair_at_congruence(s1, s2, kind, u, i - 1);
        lemma_last_pair_congruence(s1, s2, kind, u, i - 1);
    }
}

/// The whole naked-pair step on a unit depends only on the unit's cells.
pub proof fn lemma_pair_cell_congruence(s1: Seq<Cell>, s2: Seq<Cell>, kind: UnitKind, u: int)
    requires
        0 <= u < 9,
        forall|k: int| 0 <= k < 9 ==> s1[#[trigger] unit_slot(kind, u, k)] == s2[unit_slot(kind, u, k)],
    ensures
        forall|i: int|
            0 <= i < 81 && unit_of(kind, i) == u ==> #[trigger] pair_cell_spec(s1, kind, i)
                == pair_cell_spec(s2, kind, i),
{
    lemma_last_pair_congruence(s1, s2, kind, u, 9);
    assert forall|i: int| 0 <= i < 81 && unit_of(kind, i) == u implies #[trigger] pair_cell_spec(
        s1,
        kind,
        i,
    ) == pair_cell_spec(s2, kind, i) by {
        crate::board::lemma_unit_slot_inverse(kind, i);
        assert(i == unit_slot(kind, u, crate::board::slot_of(kind, i)));
        assert(s1[i] == s2[i]);
        if has_last_pair(s1, kind, u) {
            lemma_last_pair_slot(s1, kind, u, 9);
            assert(last_pair_grid(s1, kind, u) == last_pair_grid(s2, kind, u));
        }
    }
}

/// Carriers of digit `b + 1` within row slice `t` (slots `3t` to `3t + 2`) of
/// block `u`.
pub open spec fn row_slice_carriers(s: Seq<Cell>, u: int, b: int, t: int) -> nat {
    count_upto(|k: int| is_carrier(s, unit_slot(UnitKind::Block, u, 3 * t + k), b), 3)
}

/// Carriers of digit `b + 1` within column slice `t` (slots `t`, `t + 3`,
/// `t + 6`) of block `u`.
pub open spec fn col_slice_carriers(s: Seq<Cell>, u: int, b: int, t: int) -> nat {
    count_upto(|k: int| is_carrier(s, unit_slot(UnitKind::Block, u, t + 3 * k), b), 3)
}

/// Box-line deduction on the rows: at least two carriers of digit `b + 1` in
/// block `u`, all inside row slice `t`.
pub open spec fn boxline_row_ded(s: Seq<Cell>, u: int, b: int, t: int) -> bool {
    carrier_count(s, UnitKind::Block, u, b) >= 2 && row_slice_carriers(s, u, b, t) == carrier_count(
        s,
        UnitKind::Block,
        u,
        b,
    )
}

/// Box-line deduction on the columns.
pub open spec fn boxline_col_ded(s: Seq<Cell>, u: int, b: int, t: int) -> bool {
    carrier_count(s, UnitKind::Block, u, b) >= 2 && col_slice_carriers(s, u, b, t) == carrier_count(
        s,
        UnitKind::Block,
        u,
        b,
    )
}

/// The clears a row deduction of block `u`, slice `t`, digit `b + 1`
/// prescribes are no-ops: no cell of row `(u / 3) * 3 + t` outside the block
/// still carries the bit.
pub open spec fn boxline_row_noop(s: Seq<Cell>, u: int, b: int, t: int) -> bool {
    forall|i: int|
        0 <= i < 81 && i / 9 == (u / 3) * 3 + t && (i % 9) / 3 != u % 3 ==> !has_bit(
            (#[trigger] s[i]).grid,
            b,
        )
}

/// The clears a column deduction prescribes are no-ops: no cell of column
/// `(u % 3) * 3 + t` outside the block still carries the bit.
pub open spec fn boxline_col_noop(s: Seq<Cell>, u: int, b: int, t: int) -> bool {
    forall|i: int|
        0 <= i < 81 && i % 9 == (u % 3) * 3 + t && (i / 9) / 3 != u / 3 ==> !has_bit(
            (#[trigger] s[i]).grid,
            b,
        )
}

/// Some box-line deduction of board `s` clears bit `b` of cell `i`: a row
/// deduction whose row holds `i` outside its block, or a column deduction
/// whose column holds `i` outside its block.
pub open spec fn boxline_clears(s: Seq<Cell>, i: int, b: int) -> bool {
    (exists|u: int, t: int|
        0 <= u < 9 && 0 <= t < 3 && #[trigger] boxline_row_ded(s, u, b, t) && i / 9 == (u / 3) * 3
            + t && (i % 9) / 3 != u % 3) || (exists|u: int, t: int|
        0 <= u < 9 && 0 <= t < 3 && #[trigger] boxline_col_ded(s, u, b, t) && i % 9 == (u % 3) * 3
            + t && (i / 9) / 3 != u / 3)
}

/// The exact board the box-line pass produces: every cell keeps its value,
/// and its mask keeps exactly the bits that no deduction of the entry state
/// clears.
pub open spec fn boxline_spec(s: Seq<Cell>) -> Seq<Cell> {
    Seq::new(
        81,
        |i: int|
            Cell {
                grid: crate::cell::mask_of(
                    |b: int| has_bit(s[i].grid, b) && !boxline_clears(s, i, b),
                    9,
                ),
                ..s[i]
            },
    )
}

/// The box-line pass changes nothing.
pub open spec fn boxline_stalled(s: Seq<Cell>) -> bool {
    &&& forall|u: int, b: int, t: int|
        0 <= u < 9 && 0 <= b < 9 && 0 <= t < 3 ==> (#[trigger] boxline_row_ded(s, u, b, t)
            ==> boxline_row_noop(s, u, b, t))
    &&& forall|u: int, b: int, t: int|
        0 <= u < 9 && 0 <= b < 9 && 0 <= t < 3 ==> (#[trigger] boxline_col_ded(s, u, b, t)
            ==> boxline_col_noop(s, u, b, t))
}

/// A full fixed point: no technique of the propagation pass can change the
/// board.
pub open spec fn stalled(s: Seq<Cell>) -> bool {
    &&& no_naked_single(s)
    &&& no_hidden_single(s, UnitKind::Row)
    &&& no_hidden_single(s, UnitKind::Column)
    &&& no_hidden_single(s, UnitKind::Block)
    &&& pair_stalled(s, UnitKind::Row)
    &&& pair_stalled(s, UnitKind::Column)
    &&& pair_stalled(s, UnitKind::Block)
    &&& boxline_stalled(s)
}

/// The candidate total of any board of 81 cells is at most 729.
pub proof fn lemma_total_bound(s: Seq<Cell>)
    ensures
        candidate_total(s) <= 729,
{
    assert forall|j: int| 0 <= j < 81 implies #[trigger] mask_count(s[j].grid) <= 9 by {
        crate::counting::lemma_count_bound(|bb: int| has_bit(s[j].grid, bb), 9);
    }
    lemma_sum_bound(|j: int| mask_count(s[j].grid), 81, 9);
}

impl Sudoku {
    /// Clears candidate bit `b` of cell `i` and accounts for the effect: the
    /// candidate total drops by one exactly when the bit was set, values and
    /// the unassigned count never move, and nothing else changes.
    pub(crate) fn clear_cell_bit(&mut self, i: usize, b: usize)
        requires
            old(self).wf(),
            i < 81,
            b < 9,
        ensures
            final(self).wf(),
            final(self).data@.len() == 81,
            final(self).data@ == old(self).data@.update(
                i as int,
                Cell {
                    grid: old(self).data@[i as int].grid & !(1u32 << (b as u32)),
                    ..old(self).data@[i as int]
                },
            ),
            candidate_total(final(self).data@) + (if has_bit(old(self).data@[i as int].grid, b as int) {
                1nat
            } else {
                0nat
            }) == candidate_total(old(self).data@),
            unassigned_count(final(self).data@) == unassigned_count(old(self).data@),
            narrowed(old(self).data@, final(self).data@),
            !has_bit(old(self).data@[i as int].grid, b as int) ==> final(self).data@ == old(
                self,
            ).data@,
    {
        let ghost s0 = self.data@;
        let mut ce = self.data[i];
        ce.clear_bit(b);
        self.data[i] = ce;
        proof {
            let s2 = self.data@;
            let g0 = s0[i as int].grid;
            assert(s2 =~= s0.update(i as int, Cell { grid: g0 & !(1u32 << (b as u32)), ..s0[i as int] }));
            // well-formedness: only the mask of cell i changed, and it stays below 0x200
            assert(g0 & !(1u32 << (b as u32)) < 0x200) by (bit_vector)
                requires
                    g0 < 0x200u32 && b < 9usize,
            ;
            assert forall|j: int| 0 <= j < 81 implies cell_wf(#[trigger] s2[j], j) by {
                assert(cell_wf(s0[j], j));
            }
            // the unassigned count: no value changed
            lemma_count_congruence(
                |j: int| s0[j].value == 0,
                |j: int| s2[j].value == 0,
                81,
            );
            // the candidate total: cell i's mask count moves by exactly the cleared bit
            assert forall|bb: int| 0 <= bb < 9 implies has_bit(s2[i as int].grid, bb) == (has_bit(
                g0,
                bb,
            ) && bb != b) by {
                lemma_clear_bit(g0, b as int, bb);
            }
            lemma_count_frame(
                |bb: int| has_bit(g0, bb),
                |bb: int| has_bit(s2[i as int].grid, bb),
                9,
                b as int,
            );
            lemma_sum_frame(
                |j: int| mask_count(s0[j].grid),
                |j: int| mask_count(s2[j].grid),
                81,
                i as int,
            );
            // an unset bit means nothing changed at all
            if !has_bit(g0, b as int) {
                lemma_clear_noop(g0, b as int);
                assert(s2 =~= s0);
            }
        }
    }
}

} // verus!
