//! The naked-pair technique: within a unit, two cells with the identical
//! two-candidate mask pin those two digits to that pair, so both digits are
//! cleared from every other cell of the unit whose mask differs from the
//! pair's. Within each unit only the last pair found in scan order acts.

use vstd::prelude::*;

use crate::board::{
    board_wf, candidate_total, lemma_unit_slot_inverse, lemma_unit_slot_range, narrowed, slot_of,
    unassigned_count, unit_of, unit_slot, Sudoku, UnitKind,
};
use crate::cell::{has_bit, lemma_and_not, lemma_clear_bit, lemma_mask_ext, mask_count, Cell};
use crate::counting::lemma_count_congruence;
use crate::rules::{
    has_last_pair, last_pair_grid, last_pair_slot, lemma_last_pair_slot,
    lemma_pair_cell_congruence, no_pair_action, pair_at, pair_cell_spec, pair_clears_noop,
    pair_stage_spec, pair_stalled,
};

verus! {

/// The board one naked-pair unit step leaves: only unit `u`'s cells move,
/// each to what the unit's acting pair prescribes.
pub open spec fn pair_unit_result(s: Seq<Cell>, kind: UnitKind, u: int) -> Seq<Cell> {
    Seq::new(
        81,
        |i: int|
            if unit_of(kind, i) == u {
                pair_cell_spec(s, kind, i)
            } else {
                s[i]
            },
    )
}

/// The board after the unit step has processed the first `k` slots against
/// the acting pair's mask `g`.
pub open spec fn pair_partial_spec(s: Seq<Cell>, kind: UnitKind, u: int, g: u32, k: int) -> Seq<
    Cell,
> {
    Seq::new(
        81,
        |i: int|
            if unit_of(kind, i) == u && slot_of(kind, i) < k && s[i].grid != g {
                Cell { grid: s[i].grid & !g, ..s[i] }
            } else {
                s[i]
            },
    )
}

/// The board after the passes of the first `u` units of a kind.
pub open spec fn pair_stage_partial(s: Seq<Cell>, kind: UnitKind, u: int) -> Seq<Cell> {
    Seq::new(
        81,
        |i: int|
            if unit_of(kind, i) < u {
                pair_cell_spec(s, kind, i)
            } else {
                s[i]
            },
    )
}

impl Sudoku {
    /// The naked-pair step on one unit: finds the last pair in scan order and
    /// clears its two digits from every other-masked cell of the unit.
    /// Values never move; the candidate total drops exactly when some clear
    /// takes effect, and the board changes exactly when the step prescribes
    /// an effective clear.
    #[verifier::rlimit(60)]
    fn naked_pair_unit(&mut self, kind: UnitKind, u: usize)
        requires
            old(self).wf(),
            u < 9,
        ensures
            final(self).wf(),
            narrowed(old(self).data@, final(self).data@),
            forall|i: int|
                0 <= i < 81 ==> (#[trigger] final(self).data@[i]).value == old(self).data@[i].value,
            candidate_total(final(self).data@) <= candidate_total(old(self).data@),
            candidate_total(final(self).data@) == candidate_total(old(self).data@) ==> final(self).data@ == old(self).data@,
            final(self).data@ == old(self).data@ <==> no_pair_action(old(self).data@, kind, u as int),
            final(self).data@ == pair_unit_result(old(self).data@, kind, u as int),
    {
        let ghost s0 = self.data@;
        // detection: remember the mask of the last pair in scan order
        let mut found = false;
        let mut vsg: u32 = 0;
        let mut index: usize = 0;
        while index < 9
            invariant
                index <= 9,
                u < 9,
                self.wf(),
                self.data@ == s0,
                found == exists|i: int| 0 <= i < index && pair_at(s0, kind, u as int, i),
                found ==> exists|i: int|
                    0 <= i < index && #[trigger] pair_at(s0, kind, u as int, i) && vsg == s0[unit_slot(
                        kind,
                        u as int,
                        i,
                    )].grid && (forall|i2: int| i < i2 < index ==> !pair_at(s0, kind, u as int, i2)),
            decreases 9 - index,
        {
            let ci = crate::access::unit_index(kind, u, index);
            let mut this_pair = false;
            if self.data[ci].count() == 2 {
                let mut inner: usize = index + 1;
                while inner < 9
                    invariant
                        index < inner <= 9,
                        u < 9,
                        ci == unit_slot(kind, u as int, index as int),
                        ci < 81,
                        self.wf(),
                        self.data@ == s0,
                        this_pair == exists|jj: int|
                            index < jj < inner && s0[#[trigger] unit_slot(kind, u as int, jj)].grid
                                == s0[unit_slot(kind, u as int, index as int)].grid,
                    decreases 9 - inner,
                {
                    let cj = crate::access::unit_index(kind, u, inner);
                    if self.data[cj].grid == self.data[ci].grid {
                        this_pair = true;
                    }
                    inner += 1;
                }
            }
            if this_pair {
                found = true;
                vsg = self.data[ci].grid;
                proof {
                    assert(pair_at(s0, kind, u as int, index as int));
                }
            } else {
                proof {
                    assert(!pair_at(s0, kind, u as int, index as int));
                }
            }
            index += 1;
        }
        proof {
            lemma_last_pair_slot(s0, kind, u as int, 9);
            if found {
                let di = choose|i: int|
                    0 <= i < 9 && #[trigger] pair_at(s0, kind, u as int, i) && vsg == s0[unit_slot(
                        kind,
                        u as int,
                        i,
                    )].grid && (forall|i2: int| i < i2 < 9 ==> !pair_at(s0, kind, u as int, i2));
                let ls = last_pair_slot(s0, kind, u as int);
                assert(di <= ls);
                assert(pair_at(s0, kind, u as int, ls));
                assert(di == ls);
                assert(has_last_pair(s0, kind, u as int));
                assert(vsg == last_pair_grid(s0, kind, u as int));
            } else {
                assert(!has_last_pair(s0, kind, u as int));
            }
        }
        // clearing: remove the pair's digits from every other-masked cell
        if found {
            proof {
                assert(vsg < 0x200);
                assert(self.data@ =~= pair_partial_spec(s0, kind, u as int, vsg, 0));
            }
            let mut k: usize = 0;
            while k < 9
                invariant
                    k <= 9,
                    u < 9,
                    vsg < 0x200,
                    self.wf(),
                    board_wf(s0),
                    narrowed(s0, self.data@),
                    forall|i: int|
                        0 <= i < 81 ==> (#[trigger] self.data@[i]).value == s0[i].value,
                    candidate_total(self.data@) <= candidate_total(s0),
                    candidate_total(self.data@) == candidate_total(s0) ==> self.data@ == s0 && (
                    forall|k2: int|
                        0 <= k2 < k ==> ((#[trigger] s0[unit_slot(kind, u as int, k2)]).grid == vsg
                            || (forall|b: int|
                            0 <= b < 9 ==> !(#[trigger] has_bit(vsg, b) && has_bit(
                                s0[unit_slot(kind, u as int, k2)].grid,
                                b,
                            ))))),
                    pair_clears_noop(s0, kind, u as int, vsg) ==> self.data@ == s0,
                    has_last_pair(s0, kind, u as int),
                    vsg == last_pair_grid(s0, kind, u as int),
                    self.data@ == pair_partial_spec(s0, kind, u as int, vsg, k as int),
                decreases 9 - k,
            {
                let ci = crate::access::unit_index(kind, u, k);
                proof {
                    lemma_unit_slot_range(kind, u as int, k as int);
                    assert(self.data@[ci as int] == s0[ci as int]);
                }
                if self.data[ci].grid != vsg {
                    let mut b: usize = 0;
                    while b < 9
                        invariant
                            b <= 9,
                            k < 9,
                            u < 9,
                            vsg < 0x200,
                            ci == unit_slot(kind, u as int, k as int),
                            ci < 81,
                            self.wf(),
                            board_wf(s0),
                            narrowed(s0, self.data@),
                            forall|i: int|
                                0 <= i < 81 ==> (#[trigger] self.data@[i]).value == s0[i].value,
                            candidate_total(self.data@) <= candidate_total(s0),
                            candidate_total(self.data@) == candidate_total(s0) ==> self.data@ == s0
                                && (forall|k2: int|
                                0 <= k2 < k ==> ((#[trigger] s0[unit_slot(kind, u as int, k2)]).grid
                                    == vsg || (forall|b2: int|
                                    0 <= b2 < 9 ==> !(#[trigger] has_bit(vsg, b2) && has_bit(
                                        s0[unit_slot(kind, u as int, k2)].grid,
                                        b2,
                                    ))))) && (forall|b2: int|
                                0 <= b2 < b ==> !(#[trigger] has_bit(vsg, b2) && has_bit(
                                    s0[ci as int].grid,
                                    b2,
                                ))),
                            pair_clears_noop(s0, kind, u as int, vsg) ==> (self.data@ == s0 && s0[
                            ci as int].grid != vsg),
                            s0[ci as int].grid != vsg,
                            slot_of(kind, ci as int) == k as int,
                            unit_of(kind, ci as int) == u as int,
                            self.data@.len() == 81,
                            forall|i: int|
                                0 <= i < 81 && i != ci ==> self.data@[i] == pair_partial_spec(
                                    s0,
                                    kind,
                                    u as int,
                                    vsg,
                                    k as int,
                                )[i],
                            self.data@[ci as int].value == s0[ci as int].value,
                            self.data@[ci as int].row_id == s0[ci as int].row_id,
                            self.data@[ci as int].column_id == s0[ci as int].column_id,
                            self.data@[ci as int].grid < 0x200,
                            forall|j2: int|
                                0 <= j2 < 9 ==> #[trigger] has_bit(self.data@[ci as int].grid, j2)
                                    == (has_bit(s0[ci as int].grid, j2) && !(has_bit(vsg, j2) && j2
                                    < b)),
                        decreases 9 - b,
                    {
                        if (vsg & (1u32 << (b as u32))) != 0 {
                            let ghost prev = self.data@;
                            proof {
                                assert(has_bit(vsg, b as int));
                            }
                            self.clear_cell_bit(ci, b);
                            proof {
                                crate::board::lemma_narrowed_trans(s0, prev, self.data@);
                                assert forall|j2: int| 0 <= j2 < 9 implies has_bit(
                                    self.data@[ci as int].grid,
                                    j2,
                                ) == (has_bit(prev[ci as int].grid, j2) && j2 != b) by {
                                    lemma_clear_bit(prev[ci as int].grid, b as int, j2);
                                }
                                assert forall|j2: int| 0 <= j2 < 9 implies #[trigger] has_bit(
                                    self.data@[ci as int].grid,
                                    j2,
                                ) == (has_bit(s0[ci as int].grid, j2) && !(has_bit(vsg, j2) && j2
                                    < b + 1)) by {
                                    assert(has_bit(prev[ci as int].grid, j2) == (has_bit(
                                        s0[ci as int].grid,
                                        j2,
                                    ) && !(has_bit(vsg, j2) && j2 < b)));
                                }
                                if pair_clears_noop(s0, kind, u as int, vsg) {
                                    assert(prev == s0);
                                    assert(s0[unit_slot(kind, u as int, k as int)].grid != vsg);
                                    assert(!(has_bit(vsg, b as int) && has_bit(
                                        s0[ci as int].grid,
                                        b as int,
                                    )));
                                    assert(self.data@ == s0);
                                }
                            }
                        } else {
                            proof {
                                assert(!has_bit(vsg, b as int));
                                assert forall|j2: int| 0 <= j2 < 9 implies #[trigger] has_bit(
                                    self.data@[ci as int].grid,
                                    j2,
                                ) == (has_bit(s0[ci as int].grid, j2) && !(has_bit(vsg, j2) && j2
                                    < b + 1)) by {
                                    assert(has_bit(self.data@[ci as int].grid, j2) == (has_bit(
                                        s0[ci as int].grid,
                                        j2,
                                    ) && !(has_bit(vsg, j2) && j2 < b)));
                                    if j2 == b {
                                        assert(!has_bit(vsg, j2));
                                    }
                                }
                            }
                        }
                        b += 1;
                    }
                    proof {
                        assert forall|j2: int| 0 <= j2 < 9 implies has_bit(
                            self.data@[ci as int].grid,
                            j2,
                        ) == has_bit(s0[ci as int].grid & !vsg, j2) by {
                            lemma_and_not(s0[ci as int].grid, vsg, j2);
                        }
                        lemma_and_not(s0[ci as int].grid, vsg, 0);
                        lemma_mask_ext(self.data@[ci as int].grid, s0[ci as int].grid & !vsg);
                        assert forall|i: int| 0 <= i < 81 implies self.data@[i]
                            == pair_partial_spec(s0, kind, u as int, vsg, k as int + 1)[i] by {
                            lemma_unit_slot_inverse(kind, i);
                            if i != ci {
                                assert(!(unit_of(kind, i) == u as int && slot_of(kind, i)
                                    == k as int));
                            }
                        }
                        assert(self.data@ =~= pair_partial_spec(
                            s0,
                            kind,
                            u as int,
                            vsg,
                            k as int + 1,
                        ));
                    }
                } else {
                    proof {
                        assert(s0[ci as int].grid == vsg);
                        assert forall|i: int| 0 <= i < 81 implies self.data@[i]
                            == pair_partial_spec(s0, kind, u as int, vsg, k as int + 1)[i] by {
                            lemma_unit_slot_inverse(kind, i);
                            if i != ci {
                                assert(!(unit_of(kind, i) == u as int && slot_of(kind, i)
                                    == k as int));
                            }
                        }
                        assert(self.data@ =~= pair_partial_spec(
                            s0,
                            kind,
                            u as int,
                            vsg,
                            k as int + 1,
                        ));
                    }
                }
                k += 1;
            }
        }
        proof {
            let s2 = self.data@;
            lemma_count_congruence(|i: int| s0[i].value == 0, |i: int| s2[i].value == 0, 81);
            if found {
                assert(s2 == pair_partial_spec(s0, kind, u as int, vsg, 9));
                assert forall|i: int| 0 <= i < 81 implies s2[i] == pair_unit_result(
                    s0,
                    kind,
                    u as int,
                )[i] by {
                    lemma_unit_slot_inverse(kind, i);
                }
                assert(s2 =~= pair_unit_result(s0, kind, u as int));
            } else {
                assert forall|i: int| 0 <= i < 81 implies s2[i] == pair_unit_result(
                    s0,
                    kind,
                    u as int,
                )[i] by {
                    lemma_unit_slot_inverse(kind, i);
                }
                assert(s2 =~= pair_unit_result(s0, kind, u as int));
            }
            if found {
                let li = choose|i: int|
                    0 <= i < 9 && #[trigger] pair_at(s0, kind, u as int, i) && vsg == s0[unit_slot(
                        kind,
                        u as int,
                        i,
                    )].grid && (forall|i2: int| i < i2 < 9 ==> !pair_at(s0, kind, u as int, i2));
                if s2 == s0 {
                    // nothing moved, so every prescribed clear was a no-op
                    assert forall|i: int|
                        0 <= i < 9 && #[trigger] pair_at(s0, kind, u as int, i) && (forall|i2: int|
                            i < i2 < 9 ==> !pair_at(s0, kind, u as int, i2)) implies pair_clears_noop(
                        s0,
                        kind,
                        u as int,
                        s0[unit_slot(kind, u as int, i)].grid,
                    ) by {
                        if i < li {
                            assert(pair_at(s0, kind, u as int, li));
                            assert(false);
                        } else if li < i {
                            assert(pair_at(s0, kind, u as int, i));
                            assert(false);
                        }
                        assert(s0[unit_slot(kind, u as int, i)].grid == vsg);
                    }
                } else {
                    // some clear took effect, so the last pair prescribed one
                    assert(candidate_total(s2) < candidate_total(s0));
                    if no_pair_action(s0, kind, u as int) {
                        assert(pair_clears_noop(s0, kind, u as int, vsg));
                        assert(false);
                    }
                }
            } else {
                assert(s2 == s0);
                assert forall|i: int|
                    0 <= i < 9 && #[trigger] pair_at(s0, kind, u as int, i) && (forall|i2: int|
                        i < i2 < 9 ==> !pair_at(s0, kind, u as int, i2)) implies pair_clears_noop(
                    s0,
                    kind,
                    u as int,
                    s0[unit_slot(kind, u as int, i)].grid,
                ) by {
                    assert(false);
                }
            }
        }
    }

    /// The naked-pair passes of one kind over all nine units, in order, each
    /// acting on the state the previous one left.
    #[verifier::rlimit(60)]
    pub(crate) fn naked_pair_kind(&mut self, kind: UnitKind)
        requires
            old(self).wf(),
        ensures
            final(self).wf(),
            narrowed(old(self).data@, final(self).data@),
            forall|i: int|
                0 <= i < 81 ==> (#[trigger] final(self).data@[i]).value == old(self).data@[i].value,
            candidate_total(final(self).data@) <= candidate_total(old(self).data@),
            candidate_total(final(self).data@) == candidate_total(old(self).data@) ==> final(self).data@ == old(self).data@ && pair_stalled(old(self).data@, kind),
            pair_stalled(old(self).data@, kind) ==> final(self).data@ == old(self).data@,
            final(self).data@ == pair_stage_spec(old(self).data@, kind),
    {
        let ghost s0 = self.data@;
        let mut u: usize = 0;
        while u < 9
            invariant
                u <= 9,
                self.wf(),
                board_wf(s0),
                narrowed(s0, self.data@),
                forall|i: int| 0 <= i < 81 ==> (#[trigger] self.data@[i]).value == s0[i].value,
                candidate_total(self.data@) <= candidate_total(s0),
                candidate_total(self.data@) == candidate_total(s0) ==> self.data@ == s0 && (
                forall|u2: int| 0 <= u2 < u ==> #[trigger] no_pair_action(s0, kind, u2)),
                pair_stalled(s0, kind) ==> self.data@ == s0,
                self.data@ == pair_stage_partial(s0, kind, u as int),
            decreases 9 - u,
        {
            let ghost prev = self.data@;
            self.naked_pair_unit(kind, u);
            proof {
                crate::board::lemma_narrowed_trans(s0, prev, self.data@);
                // the unit's cells were untouched by the earlier units, so
                // the step acted exactly as it would have on the entry board
                assert forall|k2: int| 0 <= k2 < 9 implies prev[#[trigger] unit_slot(
                    kind,
                    u as int,
                    k2,
                )] == s0[unit_slot(kind, u as int, k2)] by {
                    lemma_unit_slot_range(kind, u as int, k2);
                }
                lemma_pair_cell_congruence(s0, prev, kind, u as int);
                assert forall|i: int| 0 <= i < 81 implies self.data@[i] == pair_stage_partial(
                    s0,
                    kind,
                    u as int + 1,
                )[i] by {
                    lemma_unit_slot_inverse(kind, i);
                    assert(self.data@[i] == pair_unit_result(prev, kind, u as int)[i]);
                }
                assert(self.data@ =~= pair_stage_partial(s0, kind, u as int + 1));
                if pair_stalled(s0, kind) {
                    assert(prev == s0);
                    assert(no_pair_action(prev, kind, u as int));
                    assert(self.data@ == s0);
                }
                if candidate_total(self.data@) == candidate_total(s0) {
                    assert(candidate_total(prev) == candidate_total(s0));
                    assert(prev == s0);
                    assert(no_pair_action(s0, kind, u as int));
                }
            }
            u += 1;
        }
    }

    /// The naked-pair technique: rows, then columns, then blocks, each unit
    /// acting on the state the previous pass left. Values never move; the
    /// board changes exactly when some unit of some kind prescribes an
    /// effective clear, and the result is exactly the three per-kind stages
    /// composed: in each unit the acting pair's two digits are removed from
    /// every other-masked cell.
    pub fn check_2and2(&mut self)
        requires
            old(self).wf(),
        ensures
            final(self).wf(),
            narrowed(old(self).data@, final(self).data@),
            forall|i: int|
                0 <= i < 81 ==> (#[trigger] final(self).data@[i]).value == old(self).data@[i].value,
            unassigned_count(final(self).data@) == unassigned_count(old(self).data@),
            candidate_total(final(self).data@) <= candidate_total(old(self).data@),
            candidate_total(final(self).data@) == candidate_total(old(self).data@) ==> final(self).data@ == old(self).data@,
            final(self).data@ == old(self).data@ <==> (pair_stalled(old(self).data@, UnitKind::Row)
                && pair_stalled(old(self).data@, UnitKind::Column) && pair_stalled(
                old(self).data@,
                UnitKind::Block,
            )),
            final(self).data@ == pair_stage_spec(
                pair_stage_spec(pair_stage_spec(old(self).data@, UnitKind::Row), UnitKind::Column),
                UnitKind::Block,
            ),
    {
        let ghost s0 = self.data@;
        let ghost sa = self.data@;
        self.naked_pair_kind(UnitKind::Row);
        let ghost sb = self.data@;
        self.naked_pair_kind(UnitKind::Column);
        let ghost sc = self.data@;
        self.naked_pair_kind(UnitKind::Block);
        proof {
            let s3 = self.data@;
            crate::board::lemma_narrowed_trans(s0, sb, sc);
            crate::board::lemma_narrowed_trans(s0, sc, s3);
            lemma_count_congruence(|i: int| s0[i].value == 0, |i: int| s3[i].value == 0, 81);
            if candidate_total(s3) == candidate_total(s0) {
                assert(candidate_total(sc) == candidate_total(s0));
                assert(candidate_total(sb) == candidate_total(s0));
                assert(sb == s0);
                assert(sc == s0);
                assert(s3 == s0);
            }
            if s3 == s0 {
                assert(candidate_total(s3) == candidate_total(s0));
                assert(pair_stalled(s0, UnitKind::Row) && pair_stalled(s0, UnitKind::Column)
                    && pair_stalled(s0, UnitKind::Block));
            }
            if pair_stalled(s0, UnitKind::Row) && pair_stalled(s0, UnitKind::Column)
                && pair_stalled(s0, UnitKind::Block) {
                assert(sb == s0);
                assert(sc == s0);
                assert(s3 == s0);
            }
        }
    }
}

} // verus!
