//! Serialization of the board as an 81-character digit string (0 for unknown,
//! row-major) and parsing such a string back by assigning every digit found.

use vstd::prelude::*;
use vstd::string::StrSliceExecFns;
use vstd::string::StringExecFns;

use crate::board::{
    board_wf, fresh_board, fresh_spec, lemma_set_value_spec, pos_index, set_value_rel,
    set_value_spec, Sudoku,
};
use crate::cell::Cell;

verus! {

/// The character that serializes an assigned value (0 for unknown).
pub open spec fn digit_char(v: u8) -> char {
    if v == 1 {
        '1'
    } else if v == 2 {
        '2'
    } else if v == 3 {
        '3'
    } else if v == 4 {
        '4'
    } else if v == 5 {
        '5'
    } else if v == 6 {
        '6'
    } else if v == 7 {
        '7'
    } else if v == 8 {
        '8'
    } else if v == 9 {
        '9'
    } else {
        '0'
    }
}

/// A character that `init` treats as an assignment.
pub open spec fn is_digit19(ch: char) -> bool {
    ch == '1' || ch == '2' || ch == '3' || ch == '4' || ch == '5' || ch == '6' || ch == '7' || ch
        == '8' || ch == '9'
}

/// The digit a character stands for (meaningful only under `is_digit19`).
pub open spec fn digit_of(ch: char) -> u8 {
    if ch == '1' {
        1
    } else if ch == '2' {
        2
    } else if ch == '3' {
        3
    } else if ch == '4' {
        4
    } else if ch == '5' {
        5
    } else if ch == '6' {
        6
    } else if ch == '7' {
        7
    } else if ch == '8' {
        8
    } else {
        9
    }
}

/// The value cell `i` holds after parsing `text` over a board whose cell `i`
/// held `v0`: the digit at position `i` when there is one, `v0` otherwise.
pub open spec fn parsed_value(v0: u8, text: Seq<char>, i: int) -> u8 {
    if 0 <= i < text.len() && is_digit19(text[i]) {
        digit_of(text[i])
    } else {
        v0
    }
}

/// The exact board `init` produces from the first `n` characters: each digit
/// is applied at its position through `set_value_spec`, in order; every other
/// character leaves the board alone.
pub open spec fn init_spec(s: Seq<Cell>, text: Seq<char>, n: int) -> Seq<Cell>
    decreases n,
{
    if n <= 0 {
        s
    } else {
        let p = init_spec(s, text, n - 1);
        if n - 1 < 81 && is_digit19(text[n - 1]) {
            set_value_spec(p, n - 1, digit_of(text[n - 1]))
        } else {
            p
        }
    }
}

/// The 81-character serialization of a board.
pub open spec fn board_text(s: Seq<Cell>) -> Seq<char> {
    Seq::new(81, |i: int| digit_char(s[i].value))
}

/// The board that restoring a snapshot of `s` produces: a fresh board parsed
/// from `s`'s serialization, so exactly `s`'s assigned values with the peer
/// eliminations they imply.
pub open spec fn restore_spec(s: Seq<Cell>) -> Seq<Cell> {
    init_spec(fresh_spec(), board_text(s), 81)
}

/// Round-trip law: parsing the serialized text of a board over a fresh board
/// reproduces exactly the assigned values of every cell (candidate masks are
/// not carried by the text).
pub proof fn lemma_round_trip(s: Seq<Cell>, f: Seq<Cell>)
    requires
        board_wf(s),
        fresh_board(f),
        f.len() == 81,
    ensures
        forall|i: int|
            0 <= i < 81 ==> parsed_value(f[i].value, board_text(s), i) == s[i].value,
{
    assert forall|i: int| 0 <= i < 81 implies parsed_value(f[i].value, board_text(s), i)
        == s[i].value by {
        assert(s[i].value <= 9);
        assert(board_text(s)[i] == digit_char(s[i].value));
    }
}

/// The exec serialization of one value.
fn digit_str(v: u8) -> (r: &'static str)
    requires
        v <= 9,
    ensures
        r@.len() == 1,
        r@[0] == digit_char(v),
{
    proof {
        reveal_strlit("0");
        reveal_strlit("1");
        reveal_strlit("2");
        reveal_strlit("3");
        reveal_strlit("4");
        reveal_strlit("5");
        reveal_strlit("6");
        reveal_strlit("7");
        reveal_strlit("8");
        reveal_strlit("9");
    }
    match v {
        1 => "1",
        2 => "2",
        3 => "3",
        4 => "4",
        5 => "5",
        6 => "6",
        7 => "7",
        8 => "8",
        9 => "9",
        _ => "0",
    }
}

impl Sudoku {
    /// The 81-character row-major serialization: the assigned digit of each
    /// cell, `'0'` while unknown. Candidate masks are not serialized.
    pub fn to_string(&self) -> (r: String)
        requires
            self.wf(),
        ensures
            r@ == board_text(self.data@),
    {
        let mut data = String::new();
        let mut i: usize = 0;
        while i < 81
            invariant
                i <= 81,
                self.wf(),
                data@.len() == i,
                forall|j: int| 0 <= j < i ==> data@[j] == digit_char(self.data@[j].value),
            decreases 81 - i,
        {
            data.append(digit_str(self.data[i].value));
            i += 1;
        }
        proof {
            assert(data@ =~= board_text(self.data@));
        }
        data
    }

    /// Parses the text positionally: each digit `'1'` to `'9'` among the
    /// first 81 characters is assigned at its row-major position through
    /// `set_value` (so the cell's mask collapses and peers lose that digit's
    /// candidate); every other character leaves its cell as it was. A digit
    /// past position 80 would have no cell, so the precondition rules only
    /// those out.
    pub fn init(&mut self, text: &str)
        requires
            old(self).wf(),
            forall|i: int| 81 <= i < text@.len() ==> !is_digit19(text@[i]),
        ensures
            final(self).wf(),
            final(self).data@ == init_spec(old(self).data@, text@, text@.len() as int),
            forall|i: int|
                0 <= i < 81 ==> (#[trigger] final(self).data@[i]).value == parsed_value(
                    old(self).data@[i].value,
                    text@,
                    i,
                ),
    {
        let n = text.unicode_len();
        let mut index: usize = 0;
        while index < n
            invariant
                index <= n,
                n == text@.len(),
                forall|i: int| 81 <= i < text@.len() ==> !is_digit19(text@[i]),
                self.wf(),
                self.data@ == init_spec(old(self).data@, text@, index as int),
                forall|i: int|
                    0 <= i < 81 ==> (#[trigger] self.data@[i]).value == if i < index {
                        parsed_value(old(self).data@[i].value, text@, i)
                    } else {
                        old(self).data@[i].value
                    },
            decreases n - index,
        {
            let ch = text.get_char(index);
            let d: u8 = if ch == '1' {
                1
            } else if ch == '2' {
                2
            } else if ch == '3' {
                3
            } else if ch == '4' {
                4
            } else if ch == '5' {
                5
            } else if ch == '6' {
                6
            } else if ch == '7' {
                7
            } else if ch == '8' {
                8
            } else if ch == '9' {
                9
            } else {
                0
            };
            if d >= 1 {
                proof {
                    assert(is_digit19(text@[index as int]));
                    assert(index < 81);
                }
                let ghost prev = self.data@;
                self.set_value((index / 9 + 1, index % 9 + 1), d);
                proof {
                    assert(pos_index(index as int / 9 + 1, index as int % 9 + 1) == index as int);
                    assert(set_value_rel(prev, self.data@, index as int, d));
                    lemma_set_value_spec(prev, self.data@, index as int, d);
                    assert(d == digit_of(text@[index as int]));
                }
            }
            index += 1;
        }
    }
}

} // verus!
