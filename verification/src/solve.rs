//! The fixed-point driver and the shallow guess fallback.

use vstd::prelude::*;

use crate::board::{
    board_wf, candidate_total, is_solved, lemma_placements_trans, lemma_set_value_spec, narrowed,
    placements_supported, pos_index, set_value_rel, set_value_spec, unassigned_count, Sudoku,
    UnitKind,
};
use crate::cell::{has_bit, lemma_mask_values, mask_count, mask_values, Cell};
use crate::rules::{boxline_spec, lemma_total_bound, pair_stage_spec, stalled};
use crate::singles::{hidden_spec, naked_spec};
use crate::text::{board_text, lemma_round_trip, restore_spec};

verus! {

/// One full propagation cycle, exactly as the driver runs it: naked singles,
/// hidden singles per row, column and block, naked pairs, box-line reduction.
pub open spec fn pass_spec(s: Seq<Cell>) -> Seq<Cell> {
    boxline_spec(
        pair_stage_spec(
            pair_stage_spec(
                pair_stage_spec(
                    hidden_spec(
                        hidden_spec(hidden_spec(naked_spec(s), UnitKind::Row), UnitKind::Column),
                        UnitKind::Block,
                    ),
                    UnitKind::Row,
                ),
                UnitKind::Column,
            ),
            UnitKind::Block,
        ),
    )
}

/// The driver's result within the given number of cycles: cycles repeat
/// until one leaves the progress counts unchanged.
pub open spec fn propagate_fuel(s: Seq<Cell>, fuel: nat) -> Seq<Cell>
    decreases fuel,
{
    if fuel == 0 {
        s
    } else {
        let p = pass_spec(s);
        if unassigned_count(p) == unassigned_count(s) && candidate_total(p) == candidate_total(s) {
            p
        } else {
            propagate_fuel(p, (fuel - 1) as nat)
        }
    }
}

/// The driver's fixed point. Every cycle that continues lowers the measure
/// `730 * unassigned + candidates`, which starts below 59860, so this fuel
/// always reaches the fixed point.
pub open spec fn propagate(s: Seq<Cell>) -> Seq<Cell> {
    propagate_fuel(s, 59860)
}

/// A candidate digit of a two- or three-candidate cell: what the guess
/// fallback tries.
pub open spec fn eligible_guess(s: Seq<Cell>, i: int, b: int) -> bool {
    &&& 0 <= i < 81
    &&& 0 <= b < 9
    &&& (mask_count(s[i].grid) == 2 || mask_count(s[i].grid) == 3)
    &&& has_bit(s[i].grid, b)
}

/// The first guess in the fallback's scan order: cells ascending, digits
/// ascending within a cell.
pub open spec fn first_eligible(s: Seq<Cell>, i: int, b: int) -> bool {
    eligible_guess(s, i, b) && forall|i2: int, b2: int|
        #[trigger] eligible_guess(s, i2, b2) ==> i * 9 + b <= i2 * 9 + b2
}

/// The cell a guess entry targets.
pub open spec fn guess_target(e: ((usize, usize), Vec<usize>)) -> int {
    pos_index(e.0.0 as int, e.0.1 as int)
}

/// A recorded guess candidate: a 1-based position and its remaining digits.
pub open spec fn guess_entry_valid(e: ((usize, usize), Vec<usize>)) -> bool {
    &&& 1 <= e.0.0 <= 9
    &&& 1 <= e.0.1 <= 9
    &&& e.1@.len() >= 1
    &&& forall|j: int| 0 <= j < e.1@.len() ==> 1 <= #[trigger] e.1@[j] <= 9
}

/// Every assigned cell's mask has collapsed to its single digit, as every
/// assignment made through `set_value` leaves it.
pub open spec fn givens_collapsed(s: Seq<Cell>) -> bool {
    forall|i: int| 0 <= i < 81 && (#[trigger] s[i]).value != 0 ==> mask_count(s[i].grid) == 1
}

/// Every value assigned in `s1` is still assigned, unchanged, in `s2`.
pub open spec fn values_preserved(s1: Seq<Cell>, s2: Seq<Cell>) -> bool {
    forall|i: int| 0 <= i < 81 && (#[trigger] s1[i]).value != 0 ==> s2[i].value == s1[i].value
}

impl Sudoku {
    /// Runs the propagation techniques - naked single, hidden single per row,
    /// column and block, naked pair, box-line reduction - in a loop until one
    /// full cycle leaves the progress counts unchanged. The result is a fixed
    /// point: no technique can still act. A board that is already at a fixed
    /// point is left exactly as it is, so a second call in a row changes
    /// nothing. Values are only added and candidates of still-unassigned
    /// cells only removed, and every digit placed was still a candidate of
    /// its cell at entry.
    #[verifier::rlimit(60)]
    pub fn calculate(&mut self)
        requires
            old(self).wf(),
        ensures
            final(self).wf(),
            narrowed(old(self).data@, final(self).data@),
            placements_supported(old(self).data@, final(self).data@),
            unassigned_count(final(self).data@) <= unassigned_count(old(self).data@),
            stalled(final(self).data@),
            stalled(old(self).data@) ==> final(self).data@ == old(self).data@,
            final(self).data@ == propagate(old(self).data@),
    {
        let ghost orig = self.data@;
        let ghost mut fuel: nat = 59860;
        proof {
            crate::counting::lemma_count_bound(|i: int| orig[i].value == 0, 81);
            lemma_total_bound(orig);
        }
        loop
            invariant
                self.wf(),
                board_wf(orig),
                narrowed(orig, self.data@),
                placements_supported(orig, self.data@),
                unassigned_count(self.data@) <= unassigned_count(orig),
                stalled(orig) ==> self.data@ == orig,
                fuel >= 730 * unassigned_count(self.data@) + candidate_total(self.data@) + 1,
                propagate(orig) == propagate_fuel(self.data@, fuel),
            ensures
                stalled(self.data@),
                self.data@ == propagate(orig),
            decreases 730 * unassigned_count(self.data@) + candidate_total(self.data@),
        {
            let r = self.remaining_count();
            let ghost s0 = self.data@;
            self.check_all_cells();
            let ghost s1 = self.data@;
            self.check_row();
            let ghost s2 = self.data@;
            self.check_column();
            let ghost s3 = self.data@;
            self.check_block();
            let ghost s4 = self.data@;
            self.check_2and2();
            let ghost s5 = self.data@;
            self.check_row_column_in_block();
            let ghost s6 = self.data@;
            let r2 = self.remaining_count();
            proof {
                assert(s6 == pass_spec(s0));
                crate::board::lemma_narrowed_trans(s0, s1, s2);
                crate::board::lemma_narrowed_trans(s0, s2, s3);
                crate::board::lemma_narrowed_trans(s0, s3, s4);
                crate::board::lemma_narrowed_trans(s0, s4, s5);
                crate::board::lemma_narrowed_trans(s0, s5, s6);
                crate::board::lemma_narrowed_trans(orig, s0, s6);
                lemma_placements_trans(s0, s1, s2);
                lemma_placements_trans(s0, s2, s3);
                lemma_placements_trans(s0, s3, s4);
                lemma_placements_trans(s0, s4, s5);
                lemma_placements_trans(s0, s5, s6);
                lemma_placements_trans(orig, s0, s6);
                if stalled(orig) {
                    assert(s0 == orig);
                    assert(s1 == s0);
                    assert(s2 == s1);
                    assert(s3 == s2);
                    assert(s4 == s3);
                    assert(s5 == s4);
                    assert(s6 == s5);
                }
                if unassigned_count(s6) == unassigned_count(s0) && candidate_total(s6)
                    == candidate_total(s0) {
                    assert(unassigned_count(s1) == unassigned_count(s0));
                    assert(s1 == s0);
                    assert(unassigned_count(s2) == unassigned_count(s1));
                    assert(s2 == s1);
                    assert(unassigned_count(s3) == unassigned_count(s2));
                    assert(s3 == s2);
                    assert(unassigned_count(s4) == unassigned_count(s3));
                    assert(s4 == s3);
                    assert(candidate_total(s5) <= candidate_total(s4));
                    assert(candidate_total(s6) <= candidate_total(s5));
                    assert(candidate_total(s5) == candidate_total(s4));
                    assert(s5 == s4);
                    assert(candidate_total(s6) == candidate_total(s5));
                    assert(s6 == s5);
                    assert(s6 == s0);
                    assert(stalled(s0));
                }
            }
            if r.0 == r2.0 && r.1 == r2.1 {
                proof {
                    assert(stalled(self.data@));
                    assert(fuel >= 1);
                    assert(propagate_fuel(s0, fuel) == pass_spec(s0));
                    assert(self.data@ == propagate(orig));
                }
                break;
            }
            proof {
                assert(fuel >= 1);
                assert(!(unassigned_count(s6) == unassigned_count(s0) && candidate_total(s6)
                    == candidate_total(s0)));
                assert(propagate_fuel(s0, fuel) == propagate_fuel(s6, (fuel - 1) as nat));
                fuel = (fuel - 1) as nat;
                lemma_total_bound(s6);
                if unassigned_count(s6) == unassigned_count(s0) {
                    assert(s1 == s0 && s2 == s1 && s3 == s2 && s4 == s3);
                    assert(candidate_total(s6) <= candidate_total(s5) <= candidate_total(s4));
                    if candidate_total(s6) == candidate_total(s0) {
                        assert(s6 == s0);
                        assert(false);
                    }
                    assert(candidate_total(s6) < candidate_total(s0));
                } else {
                    assert(unassigned_count(s6) < unassigned_count(s0));
                    assert(730 * unassigned_count(s6) + candidate_total(s6) < 730
                        * unassigned_count(s0) + candidate_total(s0));
                }
            }
        }
    }

    /// The shallow guess fallback: snapshots the board as text, then, for
    /// every cell that had two or three candidates at entry, tries each of its
    /// digits in ascending order - assigning it, propagating to a fixed point,
    /// and keeping the board on success, or restoring the snapshot (and
    /// re-propagating it) on failure. With no such cell the board is left
    /// untouched; otherwise the board ends solved or exactly at the
    /// propagation of the restored snapshot. A solving guess is kept: if the
    /// first guess in scan order solves from the entry board, or any later
    /// one solves from the restored propagation (the board every later trial
    /// starts from), the result is solved. On a board whose assigned cells
    /// all have collapsed masks, every assigned value survives, solved or
    /// not.
    #[verifier::rlimit(60)]
    pub fn try_guess(&mut self)
        requires
            old(self).wf(),
        ensures
            final(self).wf(),
            (exists|i: int|
                0 <= i < 81 && (mask_count((#[trigger] old(self).data@[i]).grid) == 2 || mask_count(
                    old(self).data@[i].grid,
                ) == 3)) ==> stalled(final(self).data@),
            (exists|i: int|
                0 <= i < 81 && (mask_count((#[trigger] old(self).data@[i]).grid) == 2 || mask_count(
                    old(self).data@[i].grid,
                ) == 3)) ==> (is_solved(final(self).data@) || final(self).data@ == propagate(
                restore_spec(old(self).data@),
            )),
            !(exists|i: int|
                0 <= i < 81 && (mask_count((#[trigger] old(self).data@[i]).grid) == 2 || mask_count(
                    old(self).data@[i].grid,
                ) == 3)) ==> final(self).data@ == old(self).data@,
            givens_collapsed(old(self).data@) ==> values_preserved(
                old(self).data@,
                final(self).data@,
            ),
            forall|i: int, b: int|
                #[trigger] first_eligible(old(self).data@, i, b) && is_solved(
                    propagate(set_value_spec(old(self).data@, i, (b + 1) as u8)),
                ) ==> is_solved(final(self).data@),
            (exists|i: int, b: int|
                #[trigger] eligible_guess(old(self).data@, i, b) && !first_eligible(
                    old(self).data@,
                    i,
                    b,
                ) && is_solved(
                    propagate(
                        set_value_spec(
                            propagate(restore_spec(old(self).data@)),
                            i,
                            (b + 1) as u8,
                        ),
                    ),
                )) ==> is_solved(final(self).data@),
    {
        let ghost s0 = self.data@;
        let mut ps: Vec<((usize, usize), Vec<usize>)> = Vec::new();
        let mut i: usize = 0;
        while i < 81
            invariant
                i <= 81,
                self.wf(),
                old(self).data@ == s0,
                self.data@ == s0,
                forall|j: int| 0 <= j < ps@.len() ==> guess_entry_valid(#[trigger] ps@[j]),
                forall|j: int|
                    0 <= j < ps@.len() ==> (mask_count(
                        s0[pos_index(
                            (#[trigger] ps@[j]).0.0 as int,
                            ps@[j].0.1 as int,
                        )].grid,
                    ) == 2 || mask_count(
                        s0[pos_index(ps@[j].0.0 as int, ps@[j].0.1 as int)].grid,
                    ) == 3),
                ps@.len() == 0 ==> forall|i0: int|
                    0 <= i0 < i ==> (mask_count((#[trigger] s0[i0]).grid) != 2 && mask_count(
                        s0[i0].grid,
                    ) != 3),
                ps@.len() > 0 ==> exists|i0: int|
                    0 <= i0 < 81 && (mask_count((#[trigger] s0[i0]).grid) == 2 || mask_count(
                        s0[i0].grid,
                    ) == 3),
                forall|j: int|
                    0 <= j < ps@.len() ==> (#[trigger] ps@[j]).1@ == mask_values(
                        s0[guess_target(ps@[j])].grid,
                    ),
                forall|j1: int, j2: int|
                    0 <= j1 < j2 < ps@.len() ==> guess_target(ps@[j1]) < guess_target(ps@[j2]),
                forall|j: int| 0 <= j < ps@.len() ==> 0 <= guess_target(#[trigger] ps@[j]) < i,
                forall|i0: int|
                    0 <= i0 < i && (mask_count((#[trigger] s0[i0]).grid) == 2 || mask_count(
                        s0[i0].grid,
                    ) == 3) ==> exists|j: int|
                        0 <= j < ps@.len() && guess_target(#[trigger] ps@[j]) == i0,
            decreases 81 - i,
        {
            let c = self.data[i].count();
            if c == 2 || c == 3 {
                let vals = self.data[i].get_values();
                proof {
                    lemma_mask_values(self.data@[i as int].grid, 9);
                    assert(vals@.len() == mask_count(s0[i as int].grid));
                    assert(guess_entry_valid(((self.data@[i as int].row_id, self.data@[i as int].column_id), vals)));
                    assert(pos_index(
                        self.data@[i as int].row_id as int,
                        self.data@[i as int].column_id as int,
                    ) == i as int);
                }
                let ghost before = ps@;
                ps.push(((self.data[i].row_id, self.data[i].column_id), vals));
                proof {
                    assert(forall|j2: int|
                        0 <= j2 < before.len() ==> #[trigger] ps@[j2] == before[j2]);
                    assert(guess_target(ps@[before.len() as int]) == i as int);
                    assert forall|i0: int|
                        0 <= i0 < i + 1 && (mask_count((#[trigger] s0[i0]).grid) == 2
                            || mask_count(s0[i0].grid) == 3) implies exists|j: int|
                        0 <= j < ps@.len() && guess_target(#[trigger] ps@[j]) == i0 by {
                        if i0 < i {
                            let j = choose|j: int|
                                0 <= j < before.len() && guess_target(#[trigger] before[j]) == i0;
                            assert(guess_target(ps@[j]) == i0);
                        } else {
                            assert(guess_target(ps@[before.len() as int]) == i0);
                        }
                    }
                }
            }
            i += 1;
        }
        let store = self.to_string();
        let mut pi: usize = 0;
        while pi < ps.len()
            invariant
                pi <= ps@.len(),
                self.wf(),
                old(self).data@ == s0,
                board_wf(s0),
                store@ == board_text(s0),
                forall|j: int| 0 <= j < ps@.len() ==> guess_entry_valid(#[trigger] ps@[j]),
                forall|j: int|
                    0 <= j < ps@.len() ==> (mask_count(
                        s0[pos_index(
                            (#[trigger] ps@[j]).0.0 as int,
                            ps@[j].0.1 as int,
                        )].grid,
                    ) == 2 || mask_count(
                        s0[pos_index(ps@[j].0.0 as int, ps@[j].0.1 as int)].grid,
                    ) == 3),
                ps@.len() > 0 ==> exists|i0: int|
                    0 <= i0 < 81 && (mask_count((#[trigger] s0[i0]).grid) == 2 || mask_count(
                        s0[i0].grid,
                    ) == 3),
                forall|j: int|
                    0 <= j < ps@.len() ==> (#[trigger] ps@[j]).1@ == mask_values(
                        s0[guess_target(ps@[j])].grid,
                    ),
                forall|j1: int, j2: int|
                    0 <= j1 < j2 < ps@.len() ==> guess_target(ps@[j1]) < guess_target(ps@[j2]),
                forall|j: int| 0 <= j < ps@.len() ==> 0 <= guess_target(#[trigger] ps@[j]) < 81,
                forall|i0: int|
                    0 <= i0 < 81 && (mask_count((#[trigger] s0[i0]).grid) == 2 || mask_count(
                        s0[i0].grid,
                    ) == 3) ==> exists|j: int|
                        0 <= j < ps@.len() && guess_target(#[trigger] ps@[j]) == i0,
                (pi > 0) ==> (forall|i2: int, b2: int|
                    #[trigger] first_eligible(s0, i2, b2) ==> !is_solved(
                        propagate(set_value_spec(s0, i2, (b2 + 1) as u8)),
                    )),
                forall|i2: int, b2: int|
                    #[trigger] eligible_guess(s0, i2, b2) && !first_eligible(s0, i2, b2) && (
                    exists|j: int| 0 <= j < pi && guess_target(#[trigger] ps@[j]) == i2) ==> !is_solved(
                        propagate(
                            set_value_spec(
                                propagate(restore_spec(s0)),
                                i2,
                                (b2 + 1) as u8,
                            ),
                        ),
                    ),
                pi == 0 ==> self.data@ == s0,
                pi > 0 ==> stalled(self.data@) && narrowed(restore_spec(s0), self.data@)
                    && self.data@ == propagate(restore_spec(s0)),
                givens_collapsed(s0) ==> values_preserved(s0, self.data@),
            decreases ps@.len() - pi,
        {
            let n = ps[pi].1.len();
            let mut vi: usize = 0;
            while vi < n
                invariant
                    vi <= n,
                    pi < ps@.len(),
                    old(self).data@ == s0,
                    board_wf(s0),
                    n == ps@[pi as int].1@.len(),
                    self.wf(),
                    store@ == board_text(s0),
                    forall|j: int| 0 <= j < ps@.len() ==> guess_entry_valid(#[trigger] ps@[j]),
                    forall|j: int|
                        0 <= j < ps@.len() ==> (mask_count(
                            s0[pos_index(
                                (#[trigger] ps@[j]).0.0 as int,
                                ps@[j].0.1 as int,
                            )].grid,
                        ) == 2 || mask_count(
                            s0[pos_index(ps@[j].0.0 as int, ps@[j].0.1 as int)].grid,
                        ) == 3),
                    ps@.len() > 0 ==> exists|i0: int|
                        0 <= i0 < 81 && (mask_count((#[trigger] s0[i0]).grid) == 2 || mask_count(
                            s0[i0].grid,
                        ) == 3),
                    forall|j: int|
                        0 <= j < ps@.len() ==> (#[trigger] ps@[j]).1@ == mask_values(
                            s0[guess_target(ps@[j])].grid,
                        ),
                    forall|j1: int, j2: int|
                        0 <= j1 < j2 < ps@.len() ==> guess_target(ps@[j1]) < guess_target(
                            ps@[j2],
                        ),
                    forall|j: int| 0 <= j < ps@.len() ==> 0 <= guess_target(#[trigger] ps@[j]) < 81,
                    forall|i0: int|
                        0 <= i0 < 81 && (mask_count((#[trigger] s0[i0]).grid) == 2 || mask_count(
                            s0[i0].grid,
                        ) == 3) ==> exists|j: int|
                            0 <= j < ps@.len() && guess_target(#[trigger] ps@[j]) == i0,
                    (pi > 0 || vi > 0) ==> (forall|i2: int, b2: int|
                        #[trigger] first_eligible(s0, i2, b2) ==> !is_solved(
                            propagate(set_value_spec(s0, i2, (b2 + 1) as u8)),
                        )),
                    forall|i2: int, b2: int|
                        #[trigger] eligible_guess(s0, i2, b2) && !first_eligible(s0, i2, b2) && ((
                        exists|j: int| 0 <= j < pi && guess_target(#[trigger] ps@[j]) == i2) || (
                        i2 == guess_target(ps@[pi as int]) && (exists|jv: int|
                            0 <= jv < vi && ps@[pi as int].1@[jv] == b2 + 1))) ==> !is_solved(
                            propagate(
                                set_value_spec(
                                    propagate(restore_spec(s0)),
                                    i2,
                                    (b2 + 1) as u8,
                                ),
                            ),
                        ),
                    (pi == 0 && vi == 0) ==> self.data@ == s0,
                    (pi > 0 || vi > 0) ==> stalled(self.data@) && narrowed(
                        restore_spec(s0),
                        self.data@,
                    ) && self.data@ == propagate(restore_spec(s0)),
                    givens_collapsed(s0) ==> values_preserved(s0, self.data@),
                decreases n - vi,
            {
                let pos = ps[pi].0;
                let v = ps[pi].1[vi];
                let ghost before_guess = self.data@;
                self.set_value(pos, v as u8);
                let ghost after_set = self.data@;
                self.calculate();
                proof {
                    if givens_collapsed(s0) {
                        let t = pos_index(pos.0 as int, pos.1 as int);
                        assert(s0[t].value == 0);
                        assert(values_preserved(s0, after_set));
                        assert(values_preserved(s0, self.data@));
                    }
                }
                let solved_now = self.exam();
                proof {
                    let ghost rr = propagate(restore_spec(s0));
                    if !(pi == 0 && vi == 0) && !solved_now {
                        // a later trial runs on the restored propagation, so
                        // its failure refutes that guess there
                        let tpi = guess_target(ps@[pi as int]);
                        assert(before_guess == rr);
                        assert(pos_index(pos.0 as int, pos.1 as int) == tpi);
                        assert(set_value_rel(rr, after_set, tpi, v as u8));
                        lemma_set_value_spec(rr, after_set, tpi, v as u8);
                        assert(self.data@ == propagate(set_value_spec(rr, tpi, v as u8)));
                        lemma_mask_values(s0[tpi].grid, 9);
                        assert(ps@[pi as int].1@ == mask_values(s0[tpi].grid));
                        assert(v == ps@[pi as int].1@[vi as int]);
                        assert(has_bit(s0[tpi].grid, v - 1));
                        assert(!is_solved(propagate(set_value_spec(rr, tpi, ((v - 1) + 1) as u8))));
                        assert forall|i2: int, b2: int|
                            #[trigger] eligible_guess(s0, i2, b2) && !first_eligible(s0, i2, b2)
                                && ((exists|j: int|
                                0 <= j < pi && guess_target(#[trigger] ps@[j]) == i2) || (i2
                                == guess_target(ps@[pi as int]) && (exists|jv: int|
                                0 <= jv < vi + 1 && ps@[pi as int].1@[jv] == b2 + 1))) implies !is_solved(
                            propagate(set_value_spec(rr, i2, (b2 + 1) as u8)),
                        ) by {
                            if !((exists|j: int|
                                0 <= j < pi && guess_target(#[trigger] ps@[j]) == i2) || (i2 == tpi
                                && (exists|jv: int|
                                0 <= jv < vi && ps@[pi as int].1@[jv] == b2 + 1))) {
                                let jv = choose|jv: int|
                                    0 <= jv < vi + 1 && ps@[pi as int].1@[jv] == b2 + 1;
                                assert(jv == vi as int);
                                assert(b2 == v - 1);
                            }
                        }
                    }
                    if pi == 0 && vi == 0 && !solved_now {
                        // the first trial tried exactly the first eligible
                        // guess, so its failure refutes that guess
                        let t0 = guess_target(ps@[0]);
                        assert(before_guess == s0);
                        assert(pos_index(pos.0 as int, pos.1 as int) == t0);
                        assert(set_value_rel(s0, after_set, t0, v as u8));
                        lemma_set_value_spec(s0, after_set, t0, v as u8);
                        assert(self.data@ == propagate(set_value_spec(s0, t0, v as u8)));
                        let vals = ps@[0].1@;
                        lemma_mask_values(s0[t0].grid, 9);
                        assert(vals == mask_values(s0[t0].grid));
                        assert(v == vals[0]);
                        assert(has_bit(s0[t0].grid, v - 1));
                        assert forall|i2: int, b2: int|
                            #[trigger] first_eligible(s0, i2, b2) implies !is_solved(
                            propagate(set_value_spec(s0, i2, (b2 + 1) as u8)),
                        ) by {
                            // the lex-first eligible guess is this cell's
                            // smallest candidate
                            crate::counting::lemma_count_pos_exists(
                                |bb: int| has_bit(s0[t0].grid, bb),
                                9,
                            );
                            let b0 = choose|bb: int| 0 <= bb < 9 && has_bit(s0[t0].grid, bb);
                            assert(eligible_guess(s0, t0, b0));
                            assert(i2 * 9 + b2 <= t0 * 9 + b0);
                            assert(i2 <= t0);
                            assert(eligible_guess(s0, i2, b2));
                            let j = choose|j: int|
                                0 <= j < ps@.len() && guess_target(#[trigger] ps@[j]) == i2;
                            if j > 0 {
                                assert(guess_target(ps@[0]) < guess_target(ps@[j]));
                            }
                            assert(t0 <= i2);
                            assert(i2 == t0);
                            // b2 is at most every set bit, and itself set
                            assert forall|bb: int|
                                0 <= bb < 9 && #[trigger] has_bit(s0[t0].grid, bb) implies b2
                                <= bb by {
                                assert(eligible_guess(s0, t0, bb));
                                assert(i2 * 9 + b2 <= t0 * 9 + bb);
                            }
                            assert(b2 <= v - 1);
                            let jv = choose|jv: int|
                                0 <= jv < vals.len() && vals[jv] == b2 + 1;
                            assert(vals[jv] >= vals[0]) by {
                                if jv > 0 {
                                    assert(vals[0] < vals[jv]);
                                }
                            }
                            assert(b2 >= v - 1);
                            assert(b2 == v - 1);
                            assert((b2 + 1) as u8 == v as u8);
                            assert(!is_solved(self.data@));
                        }
                        // the tried pair is itself the lex-first eligible one
                        assert(eligible_guess(s0, t0, v - 1));
                        assert forall|i2: int, b2: int|
                            #[trigger] eligible_guess(s0, i2, b2) implies t0 * 9 + (v - 1) <= i2
                            * 9 + b2 by {
                            let j = choose|j: int|
                                0 <= j < ps@.len() && guess_target(#[trigger] ps@[j]) == i2;
                            if j > 0 {
                                assert(guess_target(ps@[0]) < guess_target(ps@[j]));
                            }
                            assert(t0 <= i2);
                            if i2 == t0 {
                                let jv = choose|jv: int|
                                    0 <= jv < vals.len() && vals[jv] == b2 + 1;
                                assert(vals[jv] >= vals[0]) by {
                                    if jv > 0 {
                                        assert(vals[0] < vals[jv]);
                                    }
                                }
                            }
                        }
                        assert(first_eligible(s0, t0, v - 1));
                        assert forall|i2: int, b2: int|
                            #[trigger] eligible_guess(s0, i2, b2) && !first_eligible(s0, i2, b2)
                                && ((exists|j: int|
                                0 <= j < pi && guess_target(#[trigger] ps@[j]) == i2) || (i2
                                == guess_target(ps@[pi as int]) && (exists|jv: int|
                                0 <= jv < vi + 1 && ps@[pi as int].1@[jv] == b2 + 1))) implies !is_solved(
                            propagate(
                                set_value_spec(propagate(restore_spec(s0)), i2, (b2 + 1) as u8),
                            ),
                        ) by {
                            let jv = choose|jv: int|
                                0 <= jv < vi + 1 && ps@[pi as int].1@[jv] == b2 + 1;
                            assert(jv == 0);
                            assert(b2 == v - 1 && i2 == t0);
                            assert(first_eligible(s0, i2, b2));
                            assert(false);
                        }
                    }
                }
                if !solved_now {
                    self.clean();
                    let ghost cleaned = self.data@;
                    self.init(store.as_str());
                    proof {
                        assert(cleaned == crate::board::fresh_spec());
                        assert(self.data@ == restore_spec(s0));
                        lemma_round_trip(s0, cleaned);
                        assert forall|i0: int| 0 <= i0 < 81 implies (#[trigger] self.data@[i0]).value
                            == s0[i0].value by {
                            assert(self.data@[i0].value == crate::text::parsed_value(
                                cleaned[i0].value,
                                store@,
                                i0,
                            ));
                        }
                    }
                    let ghost restored = self.data@;
                    self.calculate();
                    proof {
                        if givens_collapsed(s0) {
                            assert(narrowed(restored, self.data@));
                            assert forall|i0: int|
                                0 <= i0 < 81 && (#[trigger] s0[i0]).value != 0 implies self.data@[i0].value
                                == s0[i0].value by {
                                assert(restored[i0].value == s0[i0].value);
                            }
                        }
                    }
                } else {
                    return ;
                }
                vi += 1;
            }
            proof {
                let ghost rr = propagate(restore_spec(s0));
                let tpi = guess_target(ps@[pi as int]);
                lemma_mask_values(s0[tpi].grid, 9);
                assert forall|i2: int, b2: int|
                    #[trigger] eligible_guess(s0, i2, b2) && !first_eligible(s0, i2, b2) && (
                    exists|j: int| 0 <= j < pi + 1 && guess_target(#[trigger] ps@[j]) == i2) implies !is_solved(
                    propagate(set_value_spec(rr, i2, (b2 + 1) as u8)),
                ) by {
                    let j = choose|j: int|
                        0 <= j < pi + 1 && guess_target(#[trigger] ps@[j]) == i2;
                    if j == pi {
                        assert(i2 == tpi);
                        assert(has_bit(s0[i2].grid, b2));
                        let jv = choose|jv: int|
                            0 <= jv < ps@[pi as int].1@.len() && ps@[pi as int].1@[jv] == b2 + 1;
                        assert(exists|jv2: int|
                            0 <= jv2 < n && ps@[pi as int].1@[jv2] == b2 + 1);
                    }
                }
            }
            pi += 1;
        }
        proof {
            let ghost rr = propagate(restore_spec(s0));
            assert forall|i2: int, b2: int|
                #[trigger] eligible_guess(s0, i2, b2) && !first_eligible(s0, i2, b2) implies !is_solved(
                propagate(set_value_spec(rr, i2, (b2 + 1) as u8)),
            ) by {
                assert(mask_count(s0[i2].grid) == 2 || mask_count(s0[i2].grid) == 3);
                let j = choose|j: int|
                    0 <= j < ps@.len() && guess_target(#[trigger] ps@[j]) == i2;
                assert(0 <= j < pi);
            }
            if ps@.len() == 0 {
                assert(self.data@ == s0);
            } else {
                assert(stalled(self.data@));
            }
        }
    }
}

} // verus!
