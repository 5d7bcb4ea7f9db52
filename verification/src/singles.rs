//! The assigning techniques: naked single (a cell with exactly one candidate
//! left) and hidden single (a digit with exactly one unassigned carrier in a
//! unit). Both collect every deduction from the state at entry and then apply
//! the assignments in scan order.

use vstd::prelude::*;

use crate::board::{
    board_wf, lemma_narrowed_set_value, lemma_set_value_spec, lemma_unit_slot_range, narrowed,
    placements_supported, pos_index, set_value_rel, set_value_spec, unassigned_count, unit_of,
    unit_slot, Sudoku, UnitKind,
};
use crate::cell::{has_bit, lemma_sole_bit, mask_count, sole_bit, Cell};
use crate::rules::{carrier_count, is_carrier, lemma_unique_carrier, no_hidden_single, no_naked_single};

verus! {

/// A naked-single deduction `(row, column, digit)` recorded from board `s`:
/// the cell exists, is unassigned, and has exactly the one candidate.
pub open spec fn naked_entry_valid(s: Seq<Cell>, e: (usize, usize, u8)) -> bool {
    &&& 1 <= e.0 <= 9
    &&& 1 <= e.1 <= 9
    &&& 1 <= e.2 <= 9
    &&& s[pos_index(e.0 as int, e.1 as int)].value == 0
    &&& mask_count(s[pos_index(e.0 as int, e.1 as int)].grid) == 1
    &&& has_bit(s[pos_index(e.0 as int, e.1 as int)].grid, e.2 - 1)
}

/// The cell index a deduction entry assigns.
pub open spec fn entry_target(e: (usize, usize, u8)) -> int {
    pos_index(e.0 as int, e.1 as int)
}

/// A hidden-single deduction `(row, column, bit)` recorded from board `s`:
/// the cell is the sole unassigned carrier of digit `bit + 1` in its unit of
/// the given kind.
pub open spec fn hs_entry_valid(s: Seq<Cell>, kind: UnitKind, e: (usize, usize, u8)) -> bool {
    &&& 1 <= e.0 <= 9
    &&& 1 <= e.1 <= 9
    &&& e.2 < 9
    &&& 0 <= entry_target(e) < 81
    &&& is_carrier(s, entry_target(e), e.2 as int)
    &&& carrier_count(s, kind, unit_of(kind, entry_target(e)), e.2 as int) == 1
}

/// Scan position of a hidden-single entry: units ascending, digits ascending
/// within a unit.
pub open spec fn hs_entry_key(kind: UnitKind, e: (usize, usize, u8)) -> int {
    unit_of(kind, entry_target(e)) * 9 + e.2
}

/// The cell `x` is the sole unassigned carrier of digit `b + 1` in its unit
/// of the kind, and of no other digit: the hidden-single pass then assigns
/// exactly `b + 1` there.
pub open spec fn sole_deduction(s: Seq<Cell>, kind: UnitKind, x: int, b: int) -> bool {
    &&& is_carrier(s, x, b)
    &&& carrier_count(s, kind, unit_of(kind, x), b) == 1
    &&& forall|b2: int|
        0 <= b2 < 9 && b2 != b ==> !(is_carrier(s, x, b2) && carrier_count(
            s,
            kind,
            unit_of(kind, x),
            b2,
        ) == 1)
}

/// The board after the naked-single pass has handled the first `n` cells:
/// each cell that is a naked single of the entry state, taken ascending, is
/// assigned its sole candidate through `set_value_spec`.
pub open spec fn naked_apply(s0: Seq<Cell>, n: int) -> Seq<Cell>
    decreases n,
{
    if n <= 0 {
        s0
    } else {
        let p = naked_apply(s0, n - 1);
        if s0[n - 1].value == 0 && mask_count(s0[n - 1].grid) == 1 {
            set_value_spec(p, n - 1, (sole_bit(s0[n - 1].grid) + 1) as u8)
        } else {
            p
        }
    }
}

/// The exact board the naked-single pass produces.
pub open spec fn naked_spec(s: Seq<Cell>) -> Seq<Cell> {
    naked_apply(s, 81)
}

/// Cells that are no naked single contribute nothing to the fold.
pub proof fn lemma_naked_apply_skip(s0: Seq<Cell>, m1: int, m2: int)
    requires
        0 <= m1 <= m2,
        forall|i: int|
            m1 <= i < m2 ==> !((#[trigger] s0[i]).value == 0 && mask_count(s0[i].grid) == 1),
    ensures
        naked_apply(s0, m2) == naked_apply(s0, m1),
    decreases m2,
{
    if m1 < m2 {
        lemma_naked_apply_skip(s0, m1, m2 - 1);
    }
}

/// The unique unassigned carrier of digit `b + 1` in unit `u` (meaningful
/// when the carrier count is one).
pub open spec fn the_carrier(s: Seq<Cell>, kind: UnitKind, u: int, b: int) -> int {
    unit_slot(kind, u, choose|k: int| 0 <= k < 9 && is_carrier(s, unit_slot(kind, u, k), b))
}

/// The board after the hidden-single pass of a kind has handled the first
/// `n` unit-digit slots (units ascending, digits ascending): wherever the
/// entry state has exactly one unassigned carrier, that carrier is assigned
/// the digit through `set_value_spec`.
pub open spec fn hidden_apply(s0: Seq<Cell>, kind: UnitKind, n: int) -> Seq<Cell>
    decreases n,
{
    if n <= 0 {
        s0
    } else {
        let p = hidden_apply(s0, kind, n - 1);
        if carrier_count(s0, kind, (n - 1) / 9, (n - 1) % 9) == 1 {
            set_value_spec(
                p,
                the_carrier(s0, kind, (n - 1) / 9, (n - 1) % 9),
                ((n - 1) % 9 + 1) as u8,
            )
        } else {
            p
        }
    }
}

/// The exact board one hidden-single pass of a kind produces.
pub open spec fn hidden_spec(s: Seq<Cell>, kind: UnitKind) -> Seq<Cell> {
    hidden_apply(s, kind, 81)
}

/// Unit-digit slots without a sole carrier contribute nothing to the fold.
pub proof fn lemma_hidden_apply_skip(s0: Seq<Cell>, kind: UnitKind, m1: int, m2: int)
    requires
        0 <= m1 <= m2,
        forall|m: int| m1 <= m < m2 ==> #[trigger] carrier_count(s0, kind, m / 9, m % 9) != 1,
    ensures
        hidden_apply(s0, kind, m2) == hidden_apply(s0, kind, m1),
    decreases m2,
{
    if m1 < m2 {
        lemma_hidden_apply_skip(s0, kind, m1, m2 - 1);
    }
}

/// Cell `x` is the target of some hidden-single deduction of the kind on
/// board `s`: for some digit it is the sole unassigned carrier in its unit.
pub open spec fn hidden_target(s: Seq<Cell>, kind: UnitKind, x: int) -> bool {
    exists|b: int|
        0 <= b < 9 && #[trigger] is_carrier(s, x, b) && carrier_count(
            s,
            kind,
            unit_of(kind, x),
            b,
        ) == 1
}

impl Sudoku {
    /// The naked-single pass: collects every unassigned cell with exactly one
    /// candidate, then assigns that candidate to each such cell. Changes the
    /// board exactly when such a cell exists, and then strictly lowers the
    /// unassigned count.
    #[verifier::rlimit(60)]
    pub fn check_all_cells(&mut self)
        requires
            old(self).wf(),
        ensures
            final(self).wf(),
            narrowed(old(self).data@, final(self).data@),
            unassigned_count(final(self).data@) <= unassigned_count(old(self).data@),
            unassigned_count(final(self).data@) == unassigned_count(old(self).data@) ==> final(self).data@ == old(self).data@,
            final(self).data@ == old(self).data@ <==> no_naked_single(old(self).data@),
            placements_supported(old(self).data@, final(self).data@),
            forall|i: int, b: int|
                0 <= i < 81 && 0 <= b < 9 && old(self).data@[i].value == 0 && mask_count(
                    old(self).data@[i].grid,
                ) == 1 && #[trigger] has_bit(old(self).data@[i].grid, b) ==> final(self).data@[i].value == b + 1
                    && final(self).data@[i].grid == 1u32 << (b as u32),
            forall|i: int|
                0 <= i < 81 && (#[trigger] old(self).data@[i]).value == 0 && mask_count(
                    old(self).data@[i].grid,
                ) != 1 ==> final(self).data@[i].value == 0,
            final(self).data@ == naked_spec(old(self).data@),
    {
        let ghost s0 = self.data@;
        let mut ps: Vec<(usize, usize, u8)> = Vec::new();
        let mut i: usize = 0;
        while i < 81
            invariant
                i <= 81,
                self.wf(),
                self.data@ == s0,
                forall|j: int| 0 <= j < ps@.len() ==> naked_entry_valid(s0, #[trigger] ps@[j]),
                forall|i0: int|
                    0 <= i0 < i && (#[trigger] s0[i0]).value == 0 && mask_count(s0[i0].grid) == 1
                        ==> exists|j: int|
                        0 <= j < ps@.len() && entry_target(#[trigger] ps@[j]) == i0,
                forall|j1: int, j2: int|
                    0 <= j1 < j2 < ps@.len() ==> entry_target(ps@[j1]) < entry_target(ps@[j2]),
                forall|j: int| 0 <= j < ps@.len() ==> entry_target(#[trigger] ps@[j]) < i,
            decreases 81 - i,
        {
            let mut ce = self.data[i];
            let d = ce.check();
            if !(d.0 == 0 && d.1 == 0 && d.2 == 0) {
                proof {
                    assert(pos_index(d.0 as int, d.1 as int) == i as int);
                }
                let ghost before = ps@;
                ps.push(d);
                proof {
                    assert(forall|j2: int|
                        0 <= j2 < before.len() ==> #[trigger] ps@[j2] == before[j2]);
                    assert(ps@[before.len() as int] == d);
                    assert forall|i0: int|
                        0 <= i0 < i + 1 && (#[trigger] s0[i0]).value == 0 && mask_count(
                            s0[i0].grid,
                        ) == 1 implies exists|j: int|
                        0 <= j < ps@.len() && entry_target(#[trigger] ps@[j]) == i0 by {
                        if i0 < i {
                            let j = choose|j: int|
                                0 <= j < before.len() && entry_target(#[trigger] before[j]) == i0;
                            assert(entry_target(ps@[j]) == i0);
                        } else {
                            assert(entry_target(ps@[before.len() as int]) == i as int);
                        }
                    }
                }
            }
            i += 1;
        }
        let ghost ded = ps@;
        let ghost mut bound: int = 0;
        let mut j: usize = 0;
        while j < ps.len()
            invariant
                j <= ded.len(),
                ps@ == ded,
                self.wf(),
                board_wf(s0),
                0 <= bound <= 81,
                j == 0 ==> bound == 0,
                j > 0 ==> bound == entry_target(ded[j - 1]) + 1,
                self.data@ == naked_apply(s0, bound),
                forall|jj: int| 0 <= jj < ded.len() ==> naked_entry_valid(s0, #[trigger] ded[jj]),
                forall|i0: int|
                    0 <= i0 < 81 && (#[trigger] s0[i0]).value == 0 && mask_count(s0[i0].grid) == 1
                        ==> exists|jj: int|
                        0 <= jj < ded.len() && entry_target(#[trigger] ded[jj]) == i0,
                forall|j1: int, j2: int|
                    0 <= j1 < j2 < ded.len() ==> entry_target(ded[j1]) < entry_target(ded[j2]),
                ded.len() == 0 ==> no_naked_single(s0),
                narrowed(s0, self.data@),
                unassigned_count(self.data@) <= unassigned_count(s0),
                j == 0 ==> self.data@ == s0,
                j > 0 ==> unassigned_count(self.data@) < unassigned_count(s0),
                placements_supported(s0, self.data@),
                forall|i0: int|
                    0 <= i0 < 81 && (#[trigger] s0[i0]).value == 0 && mask_count(s0[i0].grid) != 1
                        ==> self.data@[i0].value == 0,
                forall|jj: int|
                    0 <= jj < j ==> self.data@[entry_target(#[trigger] ded[jj])].value
                        == ded[jj].2 && self.data@[entry_target(ded[jj])].grid == 1u32 << ((
                    ded[jj].2 - 1) as u32),
            decreases ded.len() - j,
        {
            let p = ps[j];
            let ghost prev = self.data@;
            proof {
                let t = entry_target(ded[j as int]);
                assert(bound <= t) by {
                    if j > 0 {
                        assert(entry_target(ded[j - 1]) < entry_target(ded[j as int]));
                    }
                }
                assert forall|i0: int|
                    bound <= i0 < t implies !((#[trigger] s0[i0]).value == 0 && mask_count(
                    s0[i0].grid,
                ) == 1) by {
                    if s0[i0].value == 0 && mask_count(s0[i0].grid) == 1 {
                        let jj = choose|jj: int|
                            0 <= jj < ded.len() && entry_target(#[trigger] ded[jj]) == i0;
                        if jj >= j {
                            if jj > j {
                                assert(entry_target(ded[j as int]) < entry_target(ded[jj]));
                            }
                            assert(false);
                        } else {
                            assert(j > 0);
                            if jj < j - 1 {
                                assert(entry_target(ded[jj]) < entry_target(ded[j - 1]));
                            }
                            assert(false);
                        }
                    }
                }
                lemma_naked_apply_skip(s0, bound, t);
                assert(prev == naked_apply(s0, t));
            }
            self.set_value((p.0, p.1), p.2);
            proof {
                let t = pos_index(p.0 as int, p.1 as int);
                lemma_narrowed_set_value(s0, prev, self.data@, t, p.2);
                lemma_set_value_spec(prev, self.data@, t, p.2);
                lemma_sole_bit(s0[t].grid, p.2 - 1);
                assert(self.data@ == naked_apply(s0, t + 1));
                bound = t + 1;
                assert forall|jj: int| 0 <= jj < j + 1 implies self.data@[entry_target(
                    #[trigger] ded[jj],
                )].value == ded[jj].2 && self.data@[entry_target(ded[jj])].grid == 1u32 << ((
                ded[jj].2 - 1) as u32) by {
                    if jj < j {
                        assert(entry_target(ded[jj]) < entry_target(ded[j as int]));
                        assert(prev[entry_target(ded[jj])].value == ded[jj].2);
                    }
                }
            }
            j += 1;
        }
        proof {
            assert forall|i0: int|
                bound <= i0 < 81 implies !((#[trigger] s0[i0]).value == 0 && mask_count(
                s0[i0].grid,
            ) == 1) by {
                if s0[i0].value == 0 && mask_count(s0[i0].grid) == 1 {
                    let jj = choose|jj: int|
                        0 <= jj < ded.len() && entry_target(#[trigger] ded[jj]) == i0;
                    assert(ded.len() > 0);
                    if jj < ded.len() - 1 {
                        assert(entry_target(ded[jj]) < entry_target(ded[ded.len() - 1]));
                    }
                    assert(false);
                }
            }
            lemma_naked_apply_skip(s0, bound, 81);
            assert(self.data@ == naked_spec(s0));
        }
        proof {
            if ded.len() == 0 {
                assert(self.data@ == s0);
                assert forall|i0: int|
                    0 <= i0 < 81 && (#[trigger] s0[i0]).value == 0 implies mask_count(s0[i0].grid)
                    != 1 by {
                    if mask_count(s0[i0].grid) == 1 {
                        let jj = choose|jj: int|
                            0 <= jj < ded.len() && entry_target(#[trigger] ded[jj]) == i0;
                        assert(false);
                    }
                }
            } else {
                assert(unassigned_count(self.data@) < unassigned_count(s0));
                let e = ded[0];
                assert(naked_entry_valid(s0, e));
                assert(s0[entry_target(e)].value == 0 && mask_count(s0[entry_target(e)].grid)
                    == 1);
                assert(!no_naked_single(s0));
            }
            // every naked single got its sole candidate assigned
            assert forall|i0: int, b: int|
                0 <= i0 < 81 && 0 <= b < 9 && s0[i0].value == 0 && mask_count(s0[i0].grid) == 1
                    && #[trigger] has_bit(s0[i0].grid, b) implies self.data@[i0].value == b + 1 by {
                let jj = choose|jj: int|
                    0 <= jj < ded.len() && entry_target(#[trigger] ded[jj]) == i0;
                assert(naked_entry_valid(s0, ded[jj]));
                assert(has_bit(s0[i0].grid, ded[jj].2 - 1));
                crate::counting::lemma_count_one_unique(
                    |bb: int| has_bit(s0[i0].grid, bb),
                    9,
                    b,
                    ded[jj].2 - 1,
                );
                assert(self.data@[i0].value == ded[jj].2);
                assert(self.data@[i0].grid == 1u32 << ((ded[jj].2 - 1) as u32));
            }
        }
    }

    /// Collects every hidden-single deduction of the kind: for each unit and
    /// digit with exactly one unassigned carrier, the carrier's position and
    /// the digit's bit, in scan order (units ascending, digits within a unit
    /// ascending).
    #[verifier::rlimit(60)]
    fn hidden_single_detect(&self, kind: UnitKind) -> (result: Vec<(usize, usize, u8)>)
        requires
            self.wf(),
        ensures
            forall|j: int|
                0 <= j < result@.len() ==> hs_entry_valid(self.data@, kind, #[trigger] result@[j]),
            forall|u2: int, b2: int|
                0 <= u2 < 9 && 0 <= b2 < 9 && #[trigger] carrier_count(self.data@, kind, u2, b2)
                    == 1 ==> exists|j: int|
                    0 <= j < result@.len() && unit_of(kind, entry_target(#[trigger] result@[j]))
                        == u2 && result@[j].2 == b2,
            forall|j1: int, j2: int|
                0 <= j1 < j2 < result@.len() ==> hs_entry_key(kind, result@[j1]) < hs_entry_key(
                    kind,
                    result@[j2],
                ),
    {
        let ghost s0 = self.data@;
        let mut result: Vec<(usize, usize, u8)> = Vec::new();
        let mut m: usize = 0;
        while m < 81
            invariant
                m <= 81,
                self.wf(),
                self.data@ == s0,
                forall|j: int|
                    0 <= j < result@.len() ==> hs_entry_valid(s0, kind, #[trigger] result@[j]),
                forall|u2: int, b2: int|
                    0 <= u2 < 9 && 0 <= b2 < 9 && u2 * 9 + b2 < m && #[trigger] carrier_count(
                        s0,
                        kind,
                        u2,
                        b2,
                    ) == 1 ==> exists|j: int|
                        0 <= j < result@.len() && unit_of(kind, entry_target(#[trigger] result@[j]))
                            == u2 && result@[j].2 == b2,
                forall|j1: int, j2: int|
                    0 <= j1 < j2 < result@.len() ==> hs_entry_key(kind, result@[j1]) < hs_entry_key(
                        kind,
                        result@[j2],
                    ),
                forall|j: int|
                    0 <= j < result@.len() ==> hs_entry_key(kind, #[trigger] result@[j]) < m,
            decreases 81 - m,
        {
            let u = m / 9;
            let b = m % 9;
            let mut count: usize = 0;
            let mut pr: usize = 0;
            let mut pc: usize = 0;
            let mut k: usize = 0;
            while k < 9
                invariant
                    k <= 9,
                    u < 9,
                    b < 9,
                    self.wf(),
                    self.data@ == s0,
                    count == crate::counting::count_upto(
                        |kk: int| is_carrier(s0, unit_slot(kind, u as int, kk), b as int),
                        k as int,
                    ),
                    count <= k,
                    count >= 1 ==> exists|k0: int|
                        0 <= k0 < k && is_carrier(
                            s0,
                            unit_slot(kind, u as int, k0),
                            b as int,
                        ) && pr == s0[unit_slot(kind, u as int, k0)].row_id && pc == s0[unit_slot(
                            kind,
                            u as int,
                            k0,
                        )].column_id,
                decreases 9 - k,
            {
                let i = crate::access::unit_index(kind, u, k);
                if self.data[i].value == 0 && self.data[i].check_bit(b) {
                    pr = self.data[i].row_id;
                    pc = self.data[i].column_id;
                    count += 1;
                }
                k += 1;
            }
            proof {
                assert(count == carrier_count(s0, kind, u as int, b as int));
            }
            if count == 1 {
                let e = (pr, pc, b as u8);
                proof {
                    let k0 = choose|k0: int|
                        0 <= k0 < 9 && is_carrier(s0, unit_slot(kind, u as int, k0), b as int)
                            && pr == s0[unit_slot(kind, u as int, k0)].row_id && pc == s0[unit_slot(
                            kind,
                            u as int,
                            k0,
                        )].column_id;
                    let x = unit_slot(kind, u as int, k0);
                    lemma_unit_slot_range(kind, u as int, k0);
                    assert(pos_index(pr as int, pc as int) == x);
                    assert(unit_of(kind, entry_target(e)) == u as int);
                    assert(hs_entry_valid(s0, kind, e));
                    assert(hs_entry_key(kind, e) == m);
                }
                let ghost before = result@;
                result.push(e);
                proof {
                    assert(result@ == before.push(e));
                    assert forall|u2: int, b2: int|
                        0 <= u2 < 9 && 0 <= b2 < 9 && u2 * 9 + b2 < m + 1 && #[trigger] carrier_count(
                            s0,
                            kind,
                            u2,
                            b2,
                        ) == 1 implies exists|j: int|
                        0 <= j < result@.len() && unit_of(kind, entry_target(#[trigger] result@[j]))
                            == u2 && result@[j].2 == b2 by {
                        if u2 * 9 + b2 < m {
                            let j = choose|j: int|
                                0 <= j < before.len() && unit_of(kind, entry_target(#[trigger] before[j]))
                                    == u2 && before[j].2 == b2;
                            assert(result@[j] == before[j]);
                        } else {
                            assert(u2 * 9 + b2 == m);
                            assert(u2 == u as int && b2 == b as int);
                            let j = before.len() as int;
                            assert(result@[j] == e);
                        }
                    }
                }
            } else {
                proof {
                    assert forall|u2: int, b2: int|
                        0 <= u2 < 9 && 0 <= b2 < 9 && u2 * 9 + b2 < m + 1 && #[trigger] carrier_count(
                            s0,
                            kind,
                            u2,
                            b2,
                        ) == 1 implies exists|j: int|
                        0 <= j < result@.len() && unit_of(kind, entry_target(#[trigger] result@[j]))
                            == u2 && result@[j].2 == b2 by {
                        if !(u2 * 9 + b2 < m) {
                            assert(u2 == u as int && b2 == b as int);
                            assert(false);
                        }
                    }
                }
            }
            m += 1;
        }
        proof {
            assert forall|u2: int, b2: int|
                0 <= u2 < 9 && 0 <= b2 < 9 && #[trigger] carrier_count(s0, kind, u2, b2) == 1 implies exists|j: int|
                0 <= j < result@.len() && unit_of(kind, entry_target(#[trigger] result@[j])) == u2
                    && result@[j].2 == b2 by {
                assert(u2 * 9 + b2 < 81);
            }
        }
        result
    }

    /// Applies a batch of hidden-single deductions in order.
    #[verifier::rlimit(100)]
    fn hidden_single_apply(&mut self, kind: UnitKind, ps: &Vec<(usize, usize, u8)>)
        requires
            old(self).wf(),
            forall|jj: int|
                0 <= jj < ps@.len() ==> hs_entry_valid(old(self).data@, kind, #[trigger] ps@[jj]),
            forall|j1: int, j2: int|
                0 <= j1 < j2 < ps@.len() ==> hs_entry_key(kind, ps@[j1]) < hs_entry_key(
                    kind,
                    ps@[j2],
                ),
            forall|u2: int, b2: int|
                0 <= u2 < 9 && 0 <= b2 < 9 && #[trigger] carrier_count(old(self).data@, kind, u2, b2)
                    == 1 ==> exists|jj: int|
                    0 <= jj < ps@.len() && unit_of(kind, entry_target(#[trigger] ps@[jj])) == u2
                        && ps@[jj].2 == b2,
        ensures
            final(self).wf(),
            narrowed(old(self).data@, final(self).data@),
            unassigned_count(final(self).data@) <= unassigned_count(old(self).data@),
            ps@.len() == 0 ==> final(self).data@ == old(self).data@,
            ps@.len() > 0 ==> unassigned_count(final(self).data@) < unassigned_count(
                old(self).data@,
            ),
            placements_supported(old(self).data@, final(self).data@),
            forall|i: int|
                0 <= i < 81 && (#[trigger] old(self).data@[i]).value == 0 && !hidden_target(
                    old(self).data@,
                    kind,
                    i,
                ) ==> final(self).data@[i].value == 0,
            forall|jj: int|
                0 <= jj < ps@.len() && (forall|jj2: int|
                    0 <= jj2 < ps@.len() && jj2 != jj ==> entry_target(ps@[jj2]) != entry_target(
                        ps@[jj],
                    )) ==> final(self).data@[entry_target(#[trigger] ps@[jj])].value == ps@[jj].2
                    + 1 && final(self).data@[entry_target(ps@[jj])].grid == 1u32 << ((
                ps@[jj].2) as u32),
            final(self).data@ == hidden_spec(old(self).data@, kind),
    {
        let ghost s0 = self.data@;
        let ghost ded = ps@;
        let ghost mut bound: int = 0;
        let mut j: usize = 0;
        while j < ps.len()
            invariant
                j <= ded.len(),
                ps@ == ded,
                self.wf(),
                board_wf(s0),
                forall|jj: int| 0 <= jj < ded.len() ==> hs_entry_valid(s0, kind, #[trigger] ded[jj]),
                forall|j1: int, j2: int|
                    0 <= j1 < j2 < ded.len() ==> hs_entry_key(kind, ded[j1]) < hs_entry_key(
                        kind,
                        ded[j2],
                    ),
                forall|u2: int, b2: int|
                    0 <= u2 < 9 && 0 <= b2 < 9 && #[trigger] carrier_count(s0, kind, u2, b2) == 1
                        ==> exists|jj: int|
                        0 <= jj < ded.len() && unit_of(kind, entry_target(#[trigger] ded[jj]))
                            == u2 && ded[jj].2 == b2,
                0 <= bound <= 81,
                j == 0 ==> bound == 0,
                j > 0 ==> bound == hs_entry_key(kind, ded[j - 1]) + 1,
                self.data@ == hidden_apply(s0, kind, bound),
                narrowed(s0, self.data@),
                unassigned_count(self.data@) <= unassigned_count(s0),
                j == 0 ==> self.data@ == s0,
                j > 0 ==> unassigned_count(self.data@) < unassigned_count(s0),
                placements_supported(s0, self.data@),
                forall|i0: int|
                    0 <= i0 < 81 && (#[trigger] s0[i0]).value == 0 && !hidden_target(s0, kind, i0)
                        ==> self.data@[i0].value == 0,
                forall|jj: int|
                    0 <= jj < j && (forall|jj2: int|
                        0 <= jj2 < ded.len() && jj2 != jj ==> entry_target(ded[jj2])
                            != entry_target(ded[jj])) ==> self.data@[entry_target(
                        #[trigger] ded[jj],
                    )].value == ded[jj].2 + 1 && self.data@[entry_target(ded[jj])].grid == 1u32
                        << ((ded[jj].2) as u32),
            decreases ded.len() - j,
        {
            let p = ps[j];
            let ghost prev = self.data@;
            proof {
                let t = entry_target(ded[j as int]);
                let key = hs_entry_key(kind, ded[j as int]);
                crate::board::lemma_unit_slot_inverse(kind, t);
                assert(0 <= key < 81);
                assert(bound <= key) by {
                    if j > 0 {
                        assert(hs_entry_key(kind, ded[j - 1]) < hs_entry_key(kind, ded[j as int]));
                    }
                }
                assert forall|m: int| bound <= m < key implies #[trigger] carrier_count(
                    s0,
                    kind,
                    m / 9,
                    m % 9,
                ) != 1 by {
                    if carrier_count(s0, kind, m / 9, m % 9) == 1 {
                        let jj = choose|jj: int|
                            0 <= jj < ded.len() && unit_of(kind, entry_target(#[trigger] ded[jj]))
                                == m / 9 && ded[jj].2 == m % 9;
                        assert(hs_entry_key(kind, ded[jj]) == m);
                        if jj >= j {
                            if jj > j {
                                assert(hs_entry_key(kind, ded[j as int]) < hs_entry_key(
                                    kind,
                                    ded[jj],
                                ));
                            }
                            assert(false);
                        } else {
                            assert(j > 0);
                            if jj < j - 1 {
                                assert(hs_entry_key(kind, ded[jj]) < hs_entry_key(
                                    kind,
                                    ded[j - 1],
                                ));
                            }
                            assert(false);
                        }
                    }
                }
                lemma_hidden_apply_skip(s0, kind, bound, key);
                assert(prev == hidden_apply(s0, kind, key));
            }
            self.set_value((p.0, p.1), p.2 + 1);
            proof {
                let t = entry_target(ded[j as int]);
                let key = hs_entry_key(kind, ded[j as int]);
                let u = unit_of(kind, t);
                let b = ded[j as int].2 as int;
                assert(set_value_rel(prev, self.data@, t, (p.2 + 1) as u8));
                lemma_narrowed_set_value(s0, prev, self.data@, t, (p.2 + 1) as u8);
                lemma_set_value_spec(prev, self.data@, t, (p.2 + 1) as u8);
                // the model assigns the same cell: the unit's sole carrier
                assert(key / 9 == u && key % 9 == b);
                crate::counting::lemma_count_pos_exists(
                    |k: int| is_carrier(s0, unit_slot(kind, u, k), b),
                    9,
                );
                let kc = choose|k: int| 0 <= k < 9 && is_carrier(s0, unit_slot(kind, u, k), b);
                lemma_unit_slot_range(kind, u, kc);
                lemma_unique_carrier(s0, kind, u, b, unit_slot(kind, u, kc), t);
                assert(the_carrier(s0, kind, u, b) == t);
                assert(self.data@ == hidden_apply(s0, kind, key + 1));
                bound = key + 1;
                assert(is_carrier(s0, t, ded[j as int].2 as int));
                assert(hidden_target(s0, kind, t));
                assert forall|jj: int|
                    0 <= jj < j + 1 && (forall|jj2: int|
                        0 <= jj2 < ded.len() && jj2 != jj ==> entry_target(ded[jj2])
                            != entry_target(ded[jj])) implies self.data@[entry_target(
                    #[trigger] ded[jj],
                )].value == ded[jj].2 + 1 && self.data@[entry_target(ded[jj])].grid == 1u32 << ((
                ded[jj].2) as u32) by {
                    if jj < j {
                        assert(entry_target(ded[j as int]) != entry_target(ded[jj]));
                        assert(prev[entry_target(ded[jj])].value == ded[jj].2 + 1);
                    }
                }
            }
            j += 1;
        }
        proof {
            assert forall|m: int| bound <= m < 81 implies #[trigger] carrier_count(
                s0,
                kind,
                m / 9,
                m % 9,
            ) != 1 by {
                if carrier_count(s0, kind, m / 9, m % 9) == 1 {
                    let jj = choose|jj: int|
                        0 <= jj < ded.len() && unit_of(kind, entry_target(#[trigger] ded[jj])) == m
                            / 9 && ded[jj].2 == m % 9;
                    assert(hs_entry_key(kind, ded[jj]) == m);
                    assert(ded.len() > 0);
                    if jj < ded.len() - 1 {
                        assert(hs_entry_key(kind, ded[jj]) < hs_entry_key(
                            kind,
                            ded[ded.len() - 1],
                        ));
                    }
                    assert(false);
                }
            }
            lemma_hidden_apply_skip(s0, kind, bound, 81);
            assert(self.data@ == hidden_spec(s0, kind));
        }
    }

    /// One hidden-single pass over all nine units of a kind: for every unit
    /// and digit with exactly one unassigned carrier, detected on the state at
    /// entry, assigns that digit to that carrier. Changes the board exactly
    /// when such a deduction exists, and then strictly lowers the unassigned
    /// count. A cell that is the sole carrier of exactly one digit ends up
    /// assigned that digit.
    #[verifier::rlimit(60)]
    pub(crate) fn hidden_single_pass(&mut self, kind: UnitKind)
        requires
            old(self).wf(),
        ensures
            final(self).wf(),
            narrowed(old(self).data@, final(self).data@),
            unassigned_count(final(self).data@) <= unassigned_count(old(self).data@),
            unassigned_count(final(self).data@) == unassigned_count(old(self).data@) ==> final(self).data@ == old(self).data@,
            final(self).data@ == old(self).data@ <==> no_hidden_single(old(self).data@, kind),
            placements_supported(old(self).data@, final(self).data@),
            forall|i: int|
                0 <= i < 81 && (#[trigger] old(self).data@[i]).value == 0 && !hidden_target(
                    old(self).data@,
                    kind,
                    i,
                ) ==> final(self).data@[i].value == 0,
            forall|x: int, b: int|
                0 <= x < 81 && 0 <= b < 9 && sole_deduction(old(self).data@, kind, x, b)
                    ==> final(self).data@[x].value == b + 1 && final(self).data@[x].grid == 1u32
                    << (b as u32),
            final(self).data@ == hidden_spec(old(self).data@, kind),
    {
        let ghost s0 = self.data@;
        let result = self.hidden_single_detect(kind);
        let ghost ded = result@;
        self.hidden_single_apply(kind, &result);
        proof {
            if ded.len() == 0 {
                assert(self.data@ == s0);
                assert forall|u2: int, b2: int| 0 <= u2 < 9 && 0 <= b2 < 9 implies #[trigger] carrier_count(
                    s0,
                    kind,
                    u2,
                    b2,
                ) != 1 by {
                    if carrier_count(s0, kind, u2, b2) == 1 {
                        let j = choose|j: int|
                            0 <= j < ded.len() && unit_of(kind, entry_target(#[trigger] ded[j]))
                                == u2 && ded[j].2 == b2;
                        assert(false);
                    }
                }
            } else {
                assert(unassigned_count(self.data@) < unassigned_count(s0));
                let e = ded[0];
                assert(hs_entry_valid(s0, kind, e));
                assert(carrier_count(s0, kind, unit_of(kind, entry_target(e)), e.2 as int) == 1);
                crate::board::lemma_unit_slot_inverse(kind, entry_target(e));
                assert(!no_hidden_single(s0, kind));
            }
            // the hidden-single law: a cell that is the sole carrier of
            // exactly one digit gets that digit
            assert forall|x: int, b: int|
                0 <= x < 81 && 0 <= b < 9 && sole_deduction(s0, kind, x, b) implies self.data@[x].value
                == b + 1 && self.data@[x].grid == 1u32 << (b as u32) by {
                crate::board::lemma_unit_slot_inverse(kind, x);
                let u0 = unit_of(kind, x);
                assert(carrier_count(s0, kind, u0, b) == 1);
                let j0 = choose|jj: int|
                    0 <= jj < ded.len() && unit_of(kind, entry_target(#[trigger] ded[jj])) == u0
                        && ded[jj].2 == b;
                assert(hs_entry_valid(s0, kind, ded[j0]));
                lemma_unique_carrier(s0, kind, u0, b, entry_target(ded[j0]), x);
                assert(entry_target(ded[j0]) == x);
                assert forall|jj2: int| 0 <= jj2 < ded.len() && jj2 != j0 implies entry_target(
                    ded[jj2],
                ) != entry_target(ded[j0]) by {
                    if entry_target(ded[jj2]) == x {
                        let b2 = ded[jj2].2 as int;
                        assert(hs_entry_valid(s0, kind, ded[jj2]));
                        if b2 != b {
                            assert(is_carrier(s0, x, b2) && carrier_count(s0, kind, u0, b2) == 1);
                            assert(false);
                        } else {
                            assert(hs_entry_key(kind, ded[jj2]) == hs_entry_key(kind, ded[j0]));
                            if jj2 < j0 {
                                assert(false);
                            } else {
                                assert(false);
                            }
                        }
                    }
                }
            }
        }
    }

    /// Hidden singles per row: see `hidden_single_pass`.
    pub fn check_row(&mut self)
        requires
            old(self).wf(),
        ensures
            final(self).wf(),
            narrowed(old(self).data@, final(self).data@),
            unassigned_count(final(self).data@) <= unassigned_count(old(self).data@),
            unassigned_count(final(self).data@) == unassigned_count(old(self).data@) ==> final(self).data@ == old(self).data@,
            final(self).data@ == old(self).data@ <==> no_hidden_single(
                old(self).data@,
                UnitKind::Row,
            ),
            placements_supported(old(self).data@, final(self).data@),
            forall|i: int|
                0 <= i < 81 && (#[trigger] old(self).data@[i]).value == 0 && !hidden_target(
                    old(self).data@,
                    UnitKind::Row,
                    i,
                ) ==> final(self).data@[i].value == 0,
            forall|x: int, b: int|
                0 <= x < 81 && 0 <= b < 9 && sole_deduction(old(self).data@, UnitKind::Row, x, b)
                    ==> final(self).data@[x].value == b + 1 && final(self).data@[x].grid == 1u32
                    << (b as u32),
            final(self).data@ == hidden_spec(old(self).data@, UnitKind::Row),
    {
        self.hidden_single_pass(UnitKind::Row)
    }

    /// Hidden singles per column: see `hidden_single_pass`.
    pub fn check_column(&mut self)
        requires
            old(self).wf(),
        ensures
            final(self).wf(),
            narrowed(old(self).data@, final(self).data@),
            unassigned_count(final(self).data@) <= unassigned_count(old(self).data@),
            unassigned_count(final(self).data@) == unassigned_count(old(self).data@) ==> final(self).data@ == old(self).data@,
            final(self).data@ == old(self).data@ <==> no_hidden_single(
                old(self).data@,
                UnitKind::Column,
            ),
            placements_supported(old(self).data@, final(self).data@),
            forall|i: int|
                0 <= i < 81 && (#[trigger] old(self).data@[i]).value == 0 && !hidden_target(
                    old(self).data@,
                    UnitKind::Column,
                    i,
                ) ==> final(self).data@[i].value == 0,
            forall|x: int, b: int|
                0 <= x < 81 && 0 <= b < 9 && sole_deduction(
                    old(self).data@,
                    UnitKind::Column,
                    x,
                    b,
                ) ==> final(self).data@[x].value == b + 1 && final(self).data@[x].grid == 1u32
                    << (b as u32),
            final(self).data@ == hidden_spec(old(self).data@, UnitKind::Column),
    {
        self.hidden_single_pass(UnitKind::Column)
    }

    /// Hidden singles per block: see `hidden_single_pass`.
    pub fn check_block(&mut self)
        requires
            old(self).wf(),
        ensures
            final(self).wf(),
            narrowed(old(self).data@, final(self).data@),
            unassigned_count(final(self).data@) <= unassigned_count(old(self).data@),
            unassigned_count(final(self).data@) == unassigned_count(old(self).data@) ==> final(self).data@ == old(self).data@,
            final(self).data@ == old(self).data@ <==> no_hidden_single(
                old(self).data@,
                UnitKind::Block,
            ),
            placements_supported(old(self).data@, final(self).data@),
            forall|i: int|
                0 <= i < 81 && (#[trigger] old(self).data@[i]).value == 0 && !hidden_target(
                    old(self).data@,
                    UnitKind::Block,
                    i,
                ) ==> final(self).data@[i].value == 0,
            forall|x: int, b: int|
                0 <= x < 81 && 0 <= b < 9 && sole_deduction(old(self).data@, UnitKind::Block, x, b)
                    ==> final(self).data@[x].value == b + 1 && final(self).data@[x].grid == 1u32
                    << (b as u32),
            final(self).data@ == hidden_spec(old(self).data@, UnitKind::Block),
    {
        self.hidden_single_pass(UnitKind::Block)
    }
}

} // verus!
