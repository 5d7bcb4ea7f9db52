//! Read-only views of the board: rows, columns, blocks, the combined peer
//! view, the unassigned-cell listing and small counting queries.

use vstd::prelude::*;

use crate::board::{
    board_wf, pos_index, unit_of, unit_slot, Sudoku, UnitKind,
};
use crate::cell::Cell;
use crate::counting::count_upto;

verus! {

/// 1-based block id of the 1-based position `(r, c)`, row-major 3x3 tiling.
pub open spec fn block_id(r: int, c: int) -> int {
    ((r - 1) / 3) * 3 + (c - 1) / 3 + 1
}

/// The block id of a position matches the block unit of its cell index.
pub proof fn lemma_block_id(r: int, c: int)
    requires
        1 <= r <= 9,
        1 <= c <= 9,
    ensures
        block_id(r, c) == unit_of(UnitKind::Block, pos_index(r, c)) + 1,
        0 <= pos_index(r, c) < 81,
{
    let ru = r as u32;
    let cu = c as u32;
    assert((((ru - 1) * 9 + (cu - 1)) / 27) * 3 + (((ru - 1) * 9 + (cu - 1)) % 9) / 3 == ((ru - 1)
        / 3) * 3 + (cu - 1) / 3)
        by (bit_vector)
        requires
            1u32 <= ru <= 9u32 && 1u32 <= cu <= 9u32,
    ;
}

/// Exec computation of the cell index of unit slot `k` of unit `u`.
pub fn unit_index(kind: UnitKind, u: usize, k: usize) -> (i: usize)
    requires
        u < 9,
        k < 9,
    ensures
        i == unit_slot(kind, u as int, k as int),
        i < 81,
{
    proof {
        crate::board::lemma_unit_slot_range(kind, u as int, k as int);
    }
    match kind {
        UnitKind::Row => u * 9 + k,
        UnitKind::Column => k * 9 + u,
        UnitKind::Block => (u / 3) * 27 + (k / 3) * 9 + (u % 3) * 3 + (k % 3),
    }
}

/// Every unassigned cell as `(row, column, block)`, 1-based, row-major, among
/// the first `n` cells.
pub open spec fn empties_upto(s: Seq<Cell>, n: int) -> Seq<(usize, usize, usize)>
    decreases n,
{
    if n <= 0 {
        Seq::empty()
    } else {
        empties_upto(s, n - 1) + if s[n - 1].value == 0 {
            seq![
                (
                    ((n - 1) / 9 + 1) as usize,
                    ((n - 1) % 9 + 1) as usize,
                    block_id((n - 1) / 9 + 1, (n - 1) % 9 + 1) as usize,
                ),
            ]
        } else {
            Seq::empty()
        }
    }
}

impl Sudoku {
    /// The 9 cells of a unit, in canonical order (ascending slot).
    fn get_unit(&self, kind: UnitKind, u: usize) -> (r: Vec<&Cell>)
        requires
            self.wf(),
            u < 9,
        ensures
            r@.len() == 9,
            forall|k: int|
                0 <= k < 9 ==> *(#[trigger] r@[k]) == self.data@[unit_slot(kind, u as int, k)],
    {
        let mut r: Vec<&Cell> = Vec::new();
        let mut k: usize = 0;
        while k < 9
            invariant
                k <= 9,
                u < 9,
                self.wf(),
                r@.len() == k,
                forall|j: int|
                    0 <= j < k ==> *(#[trigger] r@[j]) == self.data@[unit_slot(kind, u as int, j)],
            decreases 9 - k,
        {
            let i = unit_index(kind, u, k);
            r.push(&self.data[i]);
            k += 1;
        }
        r
    }

    /// The 9 cells of row `row` (1-based), left to right.
    pub fn get_row(&self, row: usize) -> (r: Vec<&Cell>)
        requires
            self.wf(),
            1 <= row <= 9,
        ensures
            r@.len() == 9,
            forall|k: int|
                0 <= k < 9 ==> *(#[trigger] r@[k]) == self.data@[unit_slot(
                    UnitKind::Row,
                    row - 1,
                    k,
                )],
    {
        self.get_unit(UnitKind::Row, row - 1)
    }

    /// The 9 cells of column `column` (1-based), top to bottom.
    pub fn get_column(&self, column: usize) -> (r: Vec<&Cell>)
        requires
            self.wf(),
            1 <= column <= 9,
        ensures
            r@.len() == 9,
            forall|k: int|
                0 <= k < 9 ==> *(#[trigger] r@[k]) == self.data@[unit_slot(
                    UnitKind::Column,
                    column - 1,
                    k,
                )],
    {
        self.get_unit(UnitKind::Column, column - 1)
    }

    /// The 9 cells of block `block` (1-based, row-major tiling), row-major
    /// within the block. A block id outside 1 to 9 falls back to block 1.
    pub fn get_block(&self, block: usize) -> (r: Vec<&Cell>)
        requires
            self.wf(),
        ensures
            r@.len() == 9,
            forall|k: int|
                0 <= k < 9 ==> *(#[trigger] r@[k]) == self.data@[unit_slot(
                    UnitKind::Block,
                    (if 1 <= block <= 9 {
                        block - 1
                    } else {
                        0
                    }) as int,
                    k,
                )],
    {
        let u: usize = if 1 <= block && block <= 9 {
            block - 1
        } else {
            0
        };
        self.get_unit(UnitKind::Block, u)
    }

    /// The row, column and block of a position, concatenated: 27 cells with
    /// the position itself and some peers repeated.
    pub fn get_3vec(&self, pos: (usize, usize)) -> (r: Vec<&Cell>)
        requires
            self.wf(),
            1 <= pos.0 <= 9,
            1 <= pos.1 <= 9,
        ensures
            r@.len() == 27,
            forall|k: int|
                0 <= k < 9 ==> *(#[trigger] r@[k]) == self.data@[unit_slot(
                    UnitKind::Row,
                    pos.0 - 1,
                    k,
                )],
            forall|k: int|
                9 <= k < 18 ==> *(#[trigger] r@[k]) == self.data@[unit_slot(
                    UnitKind::Column,
                    pos.1 - 1,
                    k - 9,
                )],
            forall|k: int|
                18 <= k < 27 ==> *(#[trigger] r@[k]) == self.data@[unit_slot(
                    UnitKind::Block,
                    block_id(pos.0 as int, pos.1 as int) - 1,
                    k - 18,
                )],
    {
        proof {
            lemma_block_id(pos.0 as int, pos.1 as int);
        }
        let mut v = self.get_row(pos.0);
        let mut v2 = self.get_column(pos.1);
        let mut v3 = self.get_block(((pos.0 - 1) / 3) * 3 + (pos.1 - 1) / 3 + 1);
        v.append(&mut v2);
        v.append(&mut v3);
        v
    }

    /// 1-based block id of a position; 0 when the position is out of range.
    pub fn get_block_index(&self, pos: (usize, usize)) -> (r: usize)
        ensures
            r == if 1 <= pos.0 <= 9 && 1 <= pos.1 <= 9 {
                block_id(pos.0 as int, pos.1 as int)
            } else {
                0
            },
    {
        if 1 <= pos.0 && pos.0 <= 9 && 1 <= pos.1 && pos.1 <= 9 {
            ((pos.0 - 1) / 3) * 3 + (pos.1 - 1) / 3 + 1
        } else {
            0
        }
    }

    /// Every unassigned cell as `(row, column, block)`, 1-based, row-major.
    pub fn get_empty(&self) -> (r: Vec<(usize, usize, usize)>)
        requires
            self.wf(),
        ensures
            r@ == empties_upto(self.data@, 81),
    {
        let mut r: Vec<(usize, usize, usize)> = Vec::new();
        let mut n: usize = 0;
        while n < 81
            invariant
                n <= 81,
                self.wf(),
                r@ == empties_upto(self.data@, n as int),
            decreases 81 - n,
        {
            if self.data[n].value == 0 {
                let i = n / 9 + 1;
                let j = n % 9 + 1;
                let b = self.get_block_index((i, j));
                r.push((i, j, b));
            }
            n += 1;
        }
        r
    }

    /// True when exactly one entry of `v` lies in block `x`.
    pub fn is_unique_element(&self, v: &Vec<(usize, usize, usize)>, x: usize) -> (r: bool)
        ensures
            r == (count_upto(|k: int| v@[k].2 == x, v@.len() as int) == 1),
    {
        let mut count: usize = 0;
        let mut k: usize = 0;
        while k < v.len()
            invariant
                k <= v@.len(),
                count == count_upto(|j: int| v@[j].2 == x, k as int),
                count <= k,
            decreases v@.len() - k,
        {
            if v[k].2 == x {
                count += 1;
            }
            k += 1;
        }
        count == 1
    }

    /// Number of cells whose assigned value equals `value`.
    pub fn get_value_count(&self, value: u8) -> (r: usize)
        requires
            self.wf(),
        ensures
            r == count_upto(|i: int| self.data@[i].value == value, 81),
    {
        let mut count: usize = 0;
        let mut i: usize = 0;
        while i < 81
            invariant
                i <= 81,
                self.wf(),
                count == count_upto(|j: int| self.data@[j].value == value, i as int),
                count <= i,
            decreases 81 - i,
        {
            if self.data[i].value == value {
                count += 1;
            }
            i += 1;
        }
        count
    }
}

} // verus!
