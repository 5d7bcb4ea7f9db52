//! Box-line reduction (pointing pairs/triples): when every unassigned carrier
//! of a digit in a block lies in one row slice (or one column slice) of the
//! block, the digit must be placed there, so its candidate is cleared from
//! the rest of that full row (or column) outside the block. Deductions are
//! collected from the state at entry and applied afterwards.

use vstd::prelude::*;

use crate::board::{
    board_wf, candidate_total, narrowed, unassigned_count, unit_slot, Sudoku, UnitKind,
};
use crate::cell::{has_bit, lemma_clear_bit, Cell};
use crate::counting::{count_upto, lemma_count_congruence};
use crate::rules::{
    boxline_clears, boxline_col_ded, boxline_col_noop, boxline_row_ded, boxline_row_noop,
    boxline_spec, boxline_stalled, carrier_count, col_slice_carriers, is_carrier,
    row_slice_carriers,
};

verus! {

/// A box-line deduction `(block, bit, on-rows, slice)` recorded from board
/// `s`.
pub open spec fn bl_entry_valid(s: Seq<Cell>, e: (usize, usize, bool, usize)) -> bool {
    &&& e.0 < 9
    &&& e.1 < 9
    &&& e.3 < 3
    &&& if e.2 {
        boxline_row_ded(s, e.0 as int, e.1 as int, e.3 as int)
    } else {
        boxline_col_ded(s, e.0 as int, e.1 as int, e.3 as int)
    }
}

/// Bit `b` of cell `i` is one of the clears deduction entry `e` prescribes.
pub open spec fn entry_clears(e: (usize, usize, bool, usize), i: int, b: int) -> bool {
    e.1 == b && (if e.2 {
        i / 9 == (e.0 as int / 3) * 3 + e.3 && (i % 9) / 3 != e.0 as int % 3
    } else {
        i % 9 == (e.0 as int % 3) * 3 + e.3 && (i / 9) / 3 != e.0 as int / 3
    })
}

/// Bit `b` of cell `i` is cleared by one of the first `j` deduction entries.
pub open spec fn prefix_clears(
    ded: Seq<(usize, usize, bool, usize)>,
    j: int,
    i: int,
    b: int,
) -> bool {
    exists|jj: int| 0 <= jj < j && #[trigger] entry_clears(ded[jj], i, b)
}

/// The clears a deduction prescribes are no-ops on board `s`.
pub open spec fn bl_entry_noop(s: Seq<Cell>, e: (usize, usize, bool, usize)) -> bool {
    if e.2 {
        boxline_row_noop(s, e.0 as int, e.1 as int, e.3 as int)
    } else {
        boxline_col_noop(s, e.0 as int, e.1 as int, e.3 as int)
    }
}

impl Sudoku {
    /// Collects every box-line deduction: for each block and digit with at
    /// least two unassigned carriers, each row or column slice that holds all
    /// of them.
    #[verifier::rlimit(60)]
    fn boxline_detect(&self) -> (result: Vec<(usize, usize, bool, usize)>)
        requires
            self.wf(),
        ensures
            forall|j: int|
                0 <= j < result@.len() ==> bl_entry_valid(self.data@, #[trigger] result@[j]),
            forall|u2: int, b2: int, t2: int|
                0 <= u2 < 9 && 0 <= b2 < 9 && 0 <= t2 < 3 && #[trigger] boxline_row_ded(
                    self.data@,
                    u2,
                    b2,
                    t2,
                ) ==> exists|j: int|
                    0 <= j < result@.len() && (#[trigger] result@[j]) == (
                    u2 as usize,
                    b2 as usize,
                    true,
                    t2 as usize,
                ),
            forall|u2: int, b2: int, t2: int|
                0 <= u2 < 9 && 0 <= b2 < 9 && 0 <= t2 < 3 && #[trigger] boxline_col_ded(
                    self.data@,
                    u2,
                    b2,
                    t2,
                ) ==> exists|j: int|
                    0 <= j < result@.len() && (#[trigger] result@[j]) == (
                    u2 as usize,
                    b2 as usize,
                    false,
                    t2 as usize,
                ),
    {
        let ghost s0 = self.data@;
        let mut result: Vec<(usize, usize, bool, usize)> = Vec::new();
        let mut m: usize = 0;
        while m < 81
            invariant
                m <= 81,
                self.wf(),
                self.data@ == s0,
                forall|j: int| 0 <= j < result@.len() ==> bl_entry_valid(s0, #[trigger] result@[j]),
                forall|u2: int, b2: int, t2: int|
                    0 <= u2 < 9 && 0 <= b2 < 9 && 0 <= t2 < 3 && u2 * 9 + b2 < m
                        && #[trigger] boxline_row_ded(s0, u2, b2, t2) ==> exists|j: int|
                        0 <= j < result@.len() && (#[trigger] result@[j]) == (
                        u2 as usize,
                        b2 as usize,
                        true,
                        t2 as usize,
                    ),
                forall|u2: int, b2: int, t2: int|
                    0 <= u2 < 9 && 0 <= b2 < 9 && 0 <= t2 < 3 && u2 * 9 + b2 < m
                        && #[trigger] boxline_col_ded(s0, u2, b2, t2) ==> exists|j: int|
                        0 <= j < result@.len() && (#[trigger] result@[j]) == (
                        u2 as usize,
                        b2 as usize,
                        false,
                        t2 as usize,
                    ),
            decreases 81 - m,
        {
            let u = m / 9;
            let b = m % 9;
            let mut n: usize = 0;
            let mut k: usize = 0;
            while k < 9
                invariant
                    k <= 9,
                    u < 9,
                    b < 9,
                    self.wf(),
                    self.data@ == s0,
                    n == count_upto(
                        |kk: int| is_carrier(s0, unit_slot(UnitKind::Block, u as int, kk), b as int),
                        k as int,
                    ),
                    n <= k,
                decreases 9 - k,
            {
                let i = crate::access::unit_index(UnitKind::Block, u, k);
                if self.data[i].value == 0 && self.data[i].check_bit(b) {
                    n += 1;
                }
                k += 1;
            }
            proof {
                assert(n == carrier_count(s0, UnitKind::Block, u as int, b as int));
            }
            if n >= 2 {
                let mut t: usize = 0;
                while t < 3
                    invariant
                        t <= 3,
                        u < 9,
                        b < 9,
                        n >= 2,
                        self.wf(),
                        self.data@ == s0,
                        n == carrier_count(s0, UnitKind::Block, u as int, b as int),
                        forall|j: int|
                            0 <= j < result@.len() ==> bl_entry_valid(s0, #[trigger] result@[j]),
                        forall|u2: int, b2: int, t2: int|
                            0 <= u2 < 9 && 0 <= b2 < 9 && 0 <= t2 < 3 && u2 * 9 + b2 < m
                                && #[trigger] boxline_row_ded(s0, u2, b2, t2) ==> exists|j: int|
                                0 <= j < result@.len() && (#[trigger] result@[j]) == (
                                u2 as usize,
                                b2 as usize,
                                true,
                                t2 as usize,
                            ),
                        forall|u2: int, b2: int, t2: int|
                            0 <= u2 < 9 && 0 <= b2 < 9 && 0 <= t2 < 3 && u2 * 9 + b2 < m
                                && #[trigger] boxline_col_ded(s0, u2, b2, t2) ==> exists|j: int|
                                0 <= j < result@.len() && (#[trigger] result@[j]) == (
                                u2 as usize,
                                b2 as usize,
                                false,
                                t2 as usize,
                            ),
                        forall|t2: int|
                            0 <= t2 < t && #[trigger] boxline_row_ded(s0, u as int, b as int, t2)
                                ==> exists|j: int|
                                0 <= j < result@.len() && (#[trigger] result@[j]) == (
                                u,
                                b,
                                true,
                                t2 as usize,
                            ),
                        forall|t2: int|
                            0 <= t2 < t && #[trigger] boxline_col_ded(s0, u as int, b as int, t2)
                                ==> exists|j: int|
                                0 <= j < result@.len() && (#[trigger] result@[j]) == (
                                u,
                                b,
                                false,
                                t2 as usize,
                            ),
                    decreases 3 - t,
                {
                    // carriers inside the row slice t of the block
                    let mut rn: usize = 0;
                    let mut kk: usize = 0;
                    while kk < 3
                        invariant
                            kk <= 3,
                            t < 3,
                            u < 9,
                            b < 9,
                            self.wf(),
                            self.data@ == s0,
                            rn == count_upto(
                                |k2: int| is_carrier(
                                    s0,
                                    unit_slot(UnitKind::Block, u as int, 3 * (t as int) + k2),
                                    b as int,
                                ),
                                kk as int,
                            ),
                            rn <= kk,
                        decreases 3 - kk,
                    {
                        let i = crate::access::unit_index(UnitKind::Block, u, 3 * t + kk);
                        if self.data[i].value == 0 && self.data[i].check_bit(b) {
                            rn += 1;
                        }
                        kk += 1;
                    }
                    if rn == n {
                        proof {
                            assert(row_slice_carriers(s0, u as int, b as int, t as int) == n);
                            assert(boxline_row_ded(s0, u as int, b as int, t as int));
                        }
                        let ghost before = result@;
                        result.push((u, b, true, t));
                        proof {
                            assert(forall|j2: int|
                                0 <= j2 < before.len() ==> #[trigger] result@[j2] == before[j2]);
                            assert forall|u2: int, b2: int, t2: int|
                                0 <= u2 < 9 && 0 <= b2 < 9 && 0 <= t2 < 3 && #[trigger] boxline_row_ded(
                                    s0,
                                    u2,
                                    b2,
                                    t2,
                                ) && (exists|j2: int|
                                    0 <= j2 < before.len() && (#[trigger] before[j2]) == (
                                    u2 as usize,
                                    b2 as usize,
                                    true,
                                    t2 as usize,
                                )) implies exists|j2: int|
                                0 <= j2 < result@.len() && (#[trigger] result@[j2]) == (
                                u2 as usize,
                                b2 as usize,
                                true,
                                t2 as usize,
                            ) by {
                                let j2 = choose|j2: int|
                                    0 <= j2 < before.len() && (#[trigger] before[j2]) == (
                                    u2 as usize,
                                    b2 as usize,
                                    true,
                                    t2 as usize,
                                );
                                assert(result@[j2] == (u2 as usize, b2 as usize, true, t2 as usize));
                            }
                            assert forall|u2: int, b2: int, t2: int|
                                0 <= u2 < 9 && 0 <= b2 < 9 && 0 <= t2 < 3 && #[trigger] boxline_col_ded(
                                    s0,
                                    u2,
                                    b2,
                                    t2,
                                ) && (exists|j2: int|
                                    0 <= j2 < before.len() && (#[trigger] before[j2]) == (
                                    u2 as usize,
                                    b2 as usize,
                                    false,
                                    t2 as usize,
                                )) implies exists|j2: int|
                                0 <= j2 < result@.len() && (#[trigger] result@[j2]) == (
                                u2 as usize,
                                b2 as usize,
                                false,
                                t2 as usize,
                            ) by {
                                let j2 = choose|j2: int|
                                    0 <= j2 < before.len() && (#[trigger] before[j2]) == (
                                    u2 as usize,
                                    b2 as usize,
                                    false,
                                    t2 as usize,
                                );
                                assert(result@[j2] == (u2 as usize, b2 as usize, false, t2 as usize));
                            }
                            assert(result@[before.len() as int] == (u, b, true, t));
                        }
                    }
                    // carriers inside the column slice t of the block
                    let mut cn: usize = 0;
                    let mut kc: usize = 0;
                    while kc < 3
                        invariant
                            kc <= 3,
                            t < 3,
                            u < 9,
                            b < 9,
                            self.wf(),
                            self.data@ == s0,
                            cn == count_upto(
                                |k2: int| is_carrier(
                                    s0,
                                    unit_slot(UnitKind::Block, u as int, t as int + 3 * k2),
                                    b as int,
                                ),
                                kc as int,
                            ),
                            cn <= kc,
                        decreases 3 - kc,
                    {
                        let i = crate::access::unit_index(UnitKind::Block, u, t + 3 * kc);
                        if self.data[i].value == 0 && self.data[i].check_bit(b) {
                            cn += 1;
                        }
                        kc += 1;
                    }
                    if cn == n {
                        proof {
                            assert(col_slice_carriers(s0, u as int, b as int, t as int) == n);
                            assert(boxline_col_ded(s0, u as int, b as int, t as int));
                        }
                        let ghost before = result@;
                        result.push((u, b, false, t));
                        proof {
                            assert(forall|j2: int|
                                0 <= j2 < before.len() ==> #[trigger] result@[j2] == before[j2]);
                            assert forall|u2: int, b2: int, t2: int|
                                0 <= u2 < 9 && 0 <= b2 < 9 && 0 <= t2 < 3 && #[trigger] boxline_row_ded(
                                    s0,
                                    u2,
                                    b2,
                                    t2,
                                ) && (exists|j2: int|
                                    0 <= j2 < before.len() && (#[trigger] before[j2]) == (
                                    u2 as usize,
                                    b2 as usize,
                                    true,
                                    t2 as usize,
                                )) implies exists|j2: int|
                                0 <= j2 < result@.len() && (#[trigger] result@[j2]) == (
                                u2 as usize,
                                b2 as usize,
                                true,
                                t2 as usize,
                            ) by {
                                let j2 = choose|j2: int|
                                    0 <= j2 < before.len() && (#[trigger] before[j2]) == (
                                    u2 as usize,
                                    b2 as usize,
                                    true,
                                    t2 as usize,
                                );
                                assert(result@[j2] == (u2 as usize, b2 as usize, true, t2 as usize));
                            }
                            assert forall|u2: int, b2: int, t2: int|
                                0 <= u2 < 9 && 0 <= b2 < 9 && 0 <= t2 < 3 && #[trigger] boxline_col_ded(
                                    s0,
                                    u2,
                                    b2,
                                    t2,
                                ) && (exists|j2: int|
                                    0 <= j2 < before.len() && (#[trigger] before[j2]) == (
                                    u2 as usize,
                                    b2 as usize,
                                    false,
                                    t2 as usize,
                                )) implies exists|j2: int|
                                0 <= j2 < result@.len() && (#[trigger] result@[j2]) == (
                                u2 as usize,
                                b2 as usize,
                                false,
                                t2 as usize,
                            ) by {
                                let j2 = choose|j2: int|
                                    0 <= j2 < before.len() && (#[trigger] before[j2]) == (
                                    u2 as usize,
                                    b2 as usize,
                                    false,
                                    t2 as usize,
                                );
                                assert(result@[j2] == (u2 as usize, b2 as usize, false, t2 as usize));
                            }
                            assert(result@[before.len() as int] == (u, b, false, t));
                        }
                    } else {
                        proof {
                            assert(col_slice_carriers(s0, u as int, b as int, t as int) != n);
                            assert(!boxline_col_ded(s0, u as int, b as int, t as int));
                        }
                    }
                    t += 1;
                }
                proof {
                    assert forall|u2: int, b2: int, t2: int|
                        0 <= u2 < 9 && 0 <= b2 < 9 && 0 <= t2 < 3 && u2 * 9 + b2 < m + 1
                            && #[trigger] boxline_row_ded(s0, u2, b2, t2) implies exists|j: int|
                        0 <= j < result@.len() && (#[trigger] result@[j]) == (
                        u2 as usize,
                        b2 as usize,
                        true,
                        t2 as usize,
                    ) by {
                        if !(u2 * 9 + b2 < m) {
                            assert(u2 == u as int && b2 == b as int);
                        }
                    }
                    assert forall|u2: int, b2: int, t2: int|
                        0 <= u2 < 9 && 0 <= b2 < 9 && 0 <= t2 < 3 && u2 * 9 + b2 < m + 1
                            && #[trigger] boxline_col_ded(s0, u2, b2, t2) implies exists|j: int|
                        0 <= j < result@.len() && (#[trigger] result@[j]) == (
                        u2 as usize,
                        b2 as usize,
                        false,
                        t2 as usize,
                    ) by {
                        if !(u2 * 9 + b2 < m) {
                            assert(u2 == u as int && b2 == b as int);
                        }
                    }
                }
            } else {
                proof {
                    assert forall|u2: int, b2: int, t2: int|
                        0 <= u2 < 9 && 0 <= b2 < 9 && 0 <= t2 < 3 && u2 * 9 + b2 < m + 1
                            && #[trigger] boxline_row_ded(s0, u2, b2, t2) implies exists|j: int|
                        0 <= j < result@.len() && (#[trigger] result@[j]) == (
                        u2 as usize,
                        b2 as usize,
                        true,
                        t2 as usize,
                    ) by {
                        if !(u2 * 9 + b2 < m) {
                            assert(u2 == u as int && b2 == b as int);
                            assert(false);
                        }
                    }
                    assert forall|u2: int, b2: int, t2: int|
                        0 <= u2 < 9 && 0 <= b2 < 9 && 0 <= t2 < 3 && u2 * 9 + b2 < m + 1
                            && #[trigger] boxline_col_ded(s0, u2, b2, t2) implies exists|j: int|
                        0 <= j < result@.len() && (#[trigger] result@[j]) == (
                        u2 as usize,
                        b2 as usize,
                        false,
                        t2 as usize,
                    ) by {
                        if !(u2 * 9 + b2 < m) {
                            assert(u2 == u as int && b2 == b as int);
                            assert(false);
                        }
                    }
                }
            }
            m += 1;
        }
        result
    }

    /// The box-line reduction pass: collects every deduction, then clears the
    /// digit's candidate from the line cells outside the originating block.
    /// Values never move; the board changes exactly when some deduction
    /// prescribes an effective clear, and each candidate bit survives exactly
    /// when no deduction of the entry state clears it.
    #[verifier::rlimit(60)]
    pub fn check_row_column_in_block(&mut self)
        requires
            old(self).wf(),
        ensures
            final(self).wf(),
            narrowed(old(self).data@, final(self).data@),
            forall|i: int|
                0 <= i < 81 ==> (#[trigger] final(self).data@[i]).value == old(self).data@[i].value,
            unassigned_count(final(self).data@) == unassigned_count(old(self).data@),
            candidate_total(final(self).data@) <= candidate_total(old(self).data@),
            candidate_total(final(self).data@) == candidate_total(old(self).data@) ==> final(self).data@ == old(self).data@,
            final(self).data@ == old(self).data@ <==> boxline_stalled(old(self).data@),
            forall|i: int, b2: int|
                0 <= i < 81 && 0 <= b2 < 9 ==> #[trigger] has_bit(final(self).data@[i].grid, b2)
                    == (has_bit(old(self).data@[i].grid, b2) && !boxline_clears(
                    old(self).data@,
                    i,
                    b2,
                )),
            final(self).data@ == boxline_spec(old(self).data@),
    {
        let ghost s0 = self.data@;
        let result = self.boxline_detect();
        let ghost ded = result@;
        let mut j: usize = 0;
        while j < result.len()
            invariant
                j <= ded.len(),
                result@ == ded,
                self.wf(),
                board_wf(s0),
                forall|jj: int| 0 <= jj < ded.len() ==> bl_entry_valid(s0, #[trigger] ded[jj]),
                forall|u2: int, b2: int, t2: int|
                    0 <= u2 < 9 && 0 <= b2 < 9 && 0 <= t2 < 3 && #[trigger] boxline_row_ded(
                        s0,
                        u2,
                        b2,
                        t2,
                    ) ==> exists|jj: int|
                        0 <= jj < ded.len() && (#[trigger] ded[jj]) == (
                        u2 as usize,
                        b2 as usize,
                        true,
                        t2 as usize,
                    ),
                forall|u2: int, b2: int, t2: int|
                    0 <= u2 < 9 && 0 <= b2 < 9 && 0 <= t2 < 3 && #[trigger] boxline_col_ded(
                        s0,
                        u2,
                        b2,
                        t2,
                    ) ==> exists|jj: int|
                        0 <= jj < ded.len() && (#[trigger] ded[jj]) == (
                        u2 as usize,
                        b2 as usize,
                        false,
                        t2 as usize,
                    ),
                narrowed(s0, self.data@),
                forall|i: int| 0 <= i < 81 ==> (#[trigger] self.data@[i]).value == s0[i].value,
                candidate_total(self.data@) <= candidate_total(s0),
                candidate_total(self.data@) == candidate_total(s0) ==> self.data@ == s0 && (
                forall|jj: int| 0 <= jj < j ==> bl_entry_noop(s0, #[trigger] ded[jj])),
                boxline_stalled(s0) ==> self.data@ == s0,
                forall|i: int, b2: int|
                    0 <= i < 81 && 0 <= b2 < 9 ==> #[trigger] has_bit(self.data@[i].grid, b2) == (
                    has_bit(s0[i].grid, b2) && !prefix_clears(ded, j as int, i, b2)),
            decreases ded.len() - j,
        {
            let e = result[j];
            let u = e.0;
            let b = e.1;
            let t = e.3;
            if e.2 {
                // clear the digit from the row outside the block
                let r0 = (u / 3) * 3 + t;
                let mut c: usize = 0;
                while c < 9
                    invariant
                        c <= 9,
                        u < 9,
                        b < 9,
                        t < 3,
                        r0 == (u / 3) * 3 + t,
                        r0 < 9,
                        j < ded.len(),
                        ded[j as int] == (u, b, true, t),
                        bl_entry_valid(s0, ded[j as int]),
                        self.wf(),
                        board_wf(s0),
                        narrowed(s0, self.data@),
                        forall|i: int|
                            0 <= i < 81 ==> (#[trigger] self.data@[i]).value == s0[i].value,
                        candidate_total(self.data@) <= candidate_total(s0),
                        candidate_total(self.data@) == candidate_total(s0) ==> self.data@ == s0 && (
                        forall|jj: int| 0 <= jj < j ==> bl_entry_noop(s0, #[trigger] ded[jj])) && (
                        forall|c2: int|
                            0 <= c2 < c && c2 / 3 != u as int % 3 ==> !has_bit(
                                #[trigger] s0[(r0 as int) * 9 + c2].grid,
                                b as int,
                            )),
                        boxline_stalled(s0) ==> self.data@ == s0,
                        forall|i: int, b2: int|
                            0 <= i < 81 && 0 <= b2 < 9 ==> #[trigger] has_bit(
                                self.data@[i].grid,
                                b2,
                            ) == (has_bit(s0[i].grid, b2) && !prefix_clears(ded, j as int, i, b2)
                                && !(entry_clears(ded[j as int], i, b2) && i % 9 < c)),
                    decreases 9 - c,
                {
                    if c / 3 != u % 3 {
                        let ghost prev = self.data@;
                        self.clear_cell_bit(r0 * 9 + c, b);
                        proof {
                            crate::board::lemma_narrowed_trans(s0, prev, self.data@);
                            let tc = (r0 * 9 + c) as int;
                            assert(entry_clears(ded[j as int], tc, b as int));
                            assert forall|i: int, b2: int|
                                0 <= i < 81 && 0 <= b2 < 9 implies #[trigger] has_bit(
                                self.data@[i].grid,
                                b2,
                            ) == (has_bit(prev[i].grid, b2) && !(i == tc && b2 == b as int)) by {
                                if i == tc {
                                    lemma_clear_bit(prev[tc].grid, b as int, b2);
                                }
                            }
                            if boxline_stalled(s0) {
                                assert(prev == s0);
                                assert(boxline_row_ded(s0, u as int, b as int, t as int));
                                assert(boxline_row_noop(s0, u as int, b as int, t as int));
                                assert(!has_bit(s0[(r0 as int) * 9 + c as int].grid, b as int));
                                assert(self.data@ == s0);
                            }
                        }
                    }
                    c += 1;
                }
                proof {
                    if candidate_total(self.data@) == candidate_total(s0) {
                        assert forall|i: int|
                            0 <= i < 81 && i / 9 == (u as int / 3) * 3 + t as int && (i % 9) / 3
                                != u as int % 3 implies !has_bit((#[trigger] s0[i]).grid, b as int) by {
                            let c2 = i % 9;
                            assert(i == (r0 as int) * 9 + c2);
                            assert(!has_bit(s0[(r0 as int) * 9 + c2].grid, b as int));
                        }
                        assert(boxline_row_noop(s0, u as int, b as int, t as int));
                        assert(bl_entry_noop(s0, ded[j as int]));
                    }
                    // one more entry has been fully applied
                    assert forall|i: int, b2: int|
                        0 <= i < 81 && 0 <= b2 < 9 implies #[trigger] has_bit(
                        self.data@[i].grid,
                        b2,
                    ) == (has_bit(s0[i].grid, b2) && !prefix_clears(ded, j + 1, i, b2)) by {
                        if prefix_clears(ded, j + 1, i, b2) {
                            let jj = choose|jj: int|
                                0 <= jj < j + 1 && #[trigger] entry_clears(ded[jj], i, b2);
                            if jj < j {
                                assert(prefix_clears(ded, j as int, i, b2));
                            } else {
                                assert(entry_clears(ded[j as int], i, b2) && i % 9 < 9);
                            }
                        } else {
                            assert(!prefix_clears(ded, j as int, i, b2)) by {
                                if prefix_clears(ded, j as int, i, b2) {
                                    let jj = choose|jj: int|
                                        0 <= jj < j && #[trigger] entry_clears(ded[jj], i, b2);
                                    assert(entry_clears(ded[jj], i, b2));
                                }
                            }
                            assert(!(entry_clears(ded[j as int], i, b2)));
                        }
                    }
                }
            } else {
                // clear the digit from the column outside the block
                let c0 = (u % 3) * 3 + t;
                let mut r: usize = 0;
                while r < 9
                    invariant
                        r <= 9,
                        u < 9,
                        b < 9,
                        t < 3,
                        c0 == (u % 3) * 3 + t,
                        c0 < 9,
                        j < ded.len(),
                        ded[j as int] == (u, b, false, t),
                        bl_entry_valid(s0, ded[j as int]),
                        self.wf(),
                        board_wf(s0),
                        narrowed(s0, self.data@),
                        forall|i: int|
                            0 <= i < 81 ==> (#[trigger] self.data@[i]).value == s0[i].value,
                        candidate_total(self.data@) <= candidate_total(s0),
                        candidate_total(self.data@) == candidate_total(s0) ==> self.data@ == s0 && (
                        forall|jj: int| 0 <= jj < j ==> bl_entry_noop(s0, #[trigger] ded[jj])) && (
                        forall|r2: int|
                            0 <= r2 < r && r2 / 3 != u as int / 3 ==> !has_bit(
                                #[trigger] s0[r2 * 9 + c0 as int].grid,
                                b as int,
                            )),
                        boxline_stalled(s0) ==> self.data@ == s0,
                        forall|i: int, b2: int|
                            0 <= i < 81 && 0 <= b2 < 9 ==> #[trigger] has_bit(
                                self.data@[i].grid,
                                b2,
                            ) == (has_bit(s0[i].grid, b2) && !prefix_clears(ded, j as int, i, b2)
                                && !(entry_clears(ded[j as int], i, b2) && i / 9 < r)),
                    decreases 9 - r,
                {
                    if r / 3 != u / 3 {
                        let ghost prev = self.data@;
                        self.clear_cell_bit(r * 9 + c0, b);
                        proof {
                            crate::board::lemma_narrowed_trans(s0, prev, self.data@);
                            let tc = (r * 9 + c0) as int;
                            assert(entry_clears(ded[j as int], tc, b as int));
                            assert forall|i: int, b2: int|
                                0 <= i < 81 && 0 <= b2 < 9 implies #[trigger] has_bit(
                                self.data@[i].grid,
                                b2,
                            ) == (has_bit(prev[i].grid, b2) && !(i == tc && b2 == b as int)) by {
                                if i == tc {
                                    lemma_clear_bit(prev[tc].grid, b as int, b2);
                                }
                            }
                            if boxline_stalled(s0) {
                                assert(prev == s0);
                                assert(boxline_col_ded(s0, u as int, b as int, t as int));
                                assert(boxline_col_noop(s0, u as int, b as int, t as int));
                                assert(!has_bit(s0[(r as int) * 9 + c0 as int].grid, b as int));
                                assert(self.data@ == s0);
                            }
                        }
                    }
                    r += 1;
                }
                proof {
                    if candidate_total(self.data@) == candidate_total(s0) {
                        assert forall|i: int|
                            0 <= i < 81 && i % 9 == (u as int % 3) * 3 + t as int && (i / 9) / 3
                                != u as int / 3 implies !has_bit((#[trigger] s0[i]).grid, b as int) by {
                            let r2 = i / 9;
                            assert(i == r2 * 9 + c0 as int);
                            assert(!has_bit(s0[r2 * 9 + c0 as int].grid, b as int));
                        }
                        assert(boxline_col_noop(s0, u as int, b as int, t as int));
                        assert(bl_entry_noop(s0, ded[j as int]));
                    }
                    // one more entry has been fully applied
                    assert forall|i: int, b2: int|
                        0 <= i < 81 && 0 <= b2 < 9 implies #[trigger] has_bit(
                        self.data@[i].grid,
                        b2,
                    ) == (has_bit(s0[i].grid, b2) && !prefix_clears(ded, j + 1, i, b2)) by {
                        if prefix_clears(ded, j + 1, i, b2) {
                            let jj = choose|jj: int|
                                0 <= jj < j + 1 && #[trigger] entry_clears(ded[jj], i, b2);
                            if jj < j {
                                assert(prefix_clears(ded, j as int, i, b2));
                            } else {
                                assert(entry_clears(ded[j as int], i, b2) && i / 9 < 9);
                            }
                        } else {
                            assert(!prefix_clears(ded, j as int, i, b2)) by {
                                if prefix_clears(ded, j as int, i, b2) {
                                    let jj = choose|jj: int|
                                        0 <= jj < j && #[trigger] entry_clears(ded[jj], i, b2);
                                    assert(entry_clears(ded[jj], i, b2));
                                }
                            }
                            assert(!(entry_clears(ded[j as int], i, b2)));
                        }
                    }
                }
            }
            j += 1;
        }
        proof {
            let s2 = self.data@;
            lemma_count_congruence(|i: int| s0[i].value == 0, |i: int| s2[i].value == 0, 81);
            // every entry's clears are exactly the deductions' clears
            assert forall|i: int, b2: int|
                0 <= i < 81 && 0 <= b2 < 9 implies prefix_clears(ded, ded.len() as int, i, b2)
                == boxline_clears(s0, i, b2) by {
                if prefix_clears(ded, ded.len() as int, i, b2) {
                    let jj = choose|jj: int|
                        0 <= jj < ded.len() && #[trigger] entry_clears(ded[jj], i, b2);
                    let e = ded[jj];
                    assert(bl_entry_valid(s0, e));
                    if e.2 {
                        assert(boxline_row_ded(s0, e.0 as int, b2, e.3 as int));
                        assert(boxline_clears(s0, i, b2));
                    } else {
                        assert(boxline_col_ded(s0, e.0 as int, b2, e.3 as int));
                        assert(boxline_clears(s0, i, b2));
                    }
                }
                if boxline_clears(s0, i, b2) {
                    if exists|u2: int, t2: int|
                        0 <= u2 < 9 && 0 <= t2 < 3 && #[trigger] boxline_row_ded(s0, u2, b2, t2)
                            && i / 9 == (u2 / 3) * 3 + t2 && (i % 9) / 3 != u2 % 3 {
                        let (u2, t2) = choose|u2: int, t2: int|
                            0 <= u2 < 9 && 0 <= t2 < 3 && #[trigger] boxline_row_ded(
                                s0,
                                u2,
                                b2,
                                t2,
                            ) && i / 9 == (u2 / 3) * 3 + t2 && (i % 9) / 3 != u2 % 3;
                        let jj = choose|jj: int|
                            0 <= jj < ded.len() && (#[trigger] ded[jj]) == (
                            u2 as usize,
                            b2 as usize,
                            true,
                            t2 as usize,
                        );
                        assert(entry_clears(ded[jj], i, b2));
                        assert(prefix_clears(ded, ded.len() as int, i, b2));
                    } else {
                        let (u2, t2) = choose|u2: int, t2: int|
                            0 <= u2 < 9 && 0 <= t2 < 3 && #[trigger] boxline_col_ded(
                                s0,
                                u2,
                                b2,
                                t2,
                            ) && i % 9 == (u2 % 3) * 3 + t2 && (i / 9) / 3 != u2 / 3;
                        let jj = choose|jj: int|
                            0 <= jj < ded.len() && (#[trigger] ded[jj]) == (
                            u2 as usize,
                            b2 as usize,
                            false,
                            t2 as usize,
                        );
                        assert(entry_clears(ded[jj], i, b2));
                        assert(prefix_clears(ded, ded.len() as int, i, b2));
                    }
                }
            }
            assert forall|i: int| 0 <= i < 81 implies s2[i] == boxline_spec(s0)[i] by {
                crate::cell::lemma_mask_of(
                    |b2: int| has_bit(s0[i].grid, b2) && !boxline_clears(s0, i, b2),
                    9,
                );
                assert forall|j2: int| 0 <= j2 < 9 implies has_bit(s2[i].grid, j2) == has_bit(
                    boxline_spec(s0)[i].grid,
                    j2,
                ) by {
                    assert(has_bit(s2[i].grid, j2) == (has_bit(s0[i].grid, j2) && !prefix_clears(
                        ded,
                        ded.len() as int,
                        i,
                        j2,
                    )));
                }
                crate::cell::lemma_mask_ext(s2[i].grid, boxline_spec(s0)[i].grid);
            }
            assert(s2 =~= boxline_spec(s0));
            if s2 == s0 {
                assert(candidate_total(s2) == candidate_total(s0));
                assert forall|u2: int, b2: int, t2: int|
                    0 <= u2 < 9 && 0 <= b2 < 9 && 0 <= t2 < 3 implies ((#[trigger] boxline_row_ded(
                    s0,
                    u2,
                    b2,
                    t2,
                ) ==> boxline_row_noop(s0, u2, b2, t2)) && (boxline_col_ded(s0, u2, b2, t2)
                    ==> boxline_col_noop(s0, u2, b2, t2))) by {
                    if boxline_row_ded(s0, u2, b2, t2) {
                        let jj = choose|jj: int|
                            0 <= jj < ded.len() && (#[trigger] ded[jj]) == (
                            u2 as usize,
                            b2 as usize,
                            true,
                            t2 as usize,
                        );
                        assert(bl_entry_noop(s0, ded[jj]));
                    }
                    if boxline_col_ded(s0, u2, b2, t2) {
                        let jj = choose|jj: int|
                            0 <= jj < ded.len() && (#[trigger] ded[jj]) == (
                            u2 as usize,
                            b2 as usize,
                            false,
                            t2 as usize,
                        );
                        assert(bl_entry_noop(s0, ded[jj]));
                    }
                }
            }
        }
    }
}

} // verus!
