//! Reading a puzzle description from text and rendering a grid back to text.

use vstd::prelude::*;
use vstd::string::StringExecFns;
use crate::board::{grid_wf, pos_in_range, pos_key, Board, Pos};

verus! {

/// Line separators carry no cell and are skipped when reading a puzzle.
pub open spec fn is_sep(c: char) -> bool {
    c == '\n' || c == '\r'
}

/// A decimal digit character.
pub open spec fn is_digit_char(c: char) -> bool {
    48 <= c as u32 <= 57
}

/// The value a cell character stands for: its decimal value for a digit
/// character, 0 (a blank cell) for any other character.
pub open spec fn char_digit(c: char) -> u8 {
    if is_digit_char(c) {
        (c as u32 - 48) as u8
    } else {
        0
    }
}

/// The cell characters among the first `n` characters of `s`: everything but
/// line separators, in input order.
pub open spec fn kept_prefix(s: Seq<char>, n: int) -> Seq<char>
    decreases n,
{
    if n <= 0 {
        Seq::empty()
    } else if is_sep(s[n - 1]) {
        kept_prefix(s, n - 1)
    } else {
        kept_prefix(s, n - 1).push(s[n - 1])
    }
}

/// All cell characters of the input.
pub open spec fn puzzle_chars(s: Seq<char>) -> Seq<char> {
    kept_prefix(s, s.len() as int)
}

/// The free cells of a puzzle whose cell characters are `p`: the coordinates,
/// in scan order, of the non-digit characters among the first `n`.
pub open spec fn blank_positions(p: Seq<char>, n: int) -> Seq<Pos>
    decreases n,
{
    if n <= 0 {
        Seq::empty()
    } else if is_digit_char(p[n - 1]) {
        blank_positions(p, n - 1)
    } else {
        blank_positions(p, n - 1).push((((n - 1) % 9) as usize, ((n - 1) / 9) as usize))
    }
}

/// Reading more characters never shrinks the kept prefix.
proof fn lemma_kept_len_mono(s: Seq<char>, m: int, n: int)
    requires
        m <= n,
    ensures
        kept_prefix(s, m).len() <= kept_prefix(s, n).len(),
    decreases n - m,
{
    if m < n {
        lemma_kept_len_mono(s, m, n - 1);
    }
}

/// The blank positions depend only on the first `n` cell characters.
proof fn lemma_blank_positions_agree(p1: Seq<char>, p2: Seq<char>, n: int)
    requires
        forall|m: int| 0 <= m < n ==> p1[m] == p2[m],
    ensures
        blank_positions(p1, n) == blank_positions(p2, n),
    decreases n,
{
    if n > 0 {
        lemma_blank_positions_agree(p1, p2, n - 1);
    }
}

/// Shape of the blank-position list: each entry is an on-grid coordinate whose
/// flat index is the scan position of a non-digit cell character, the flat
/// indices grow strictly, and every non-digit position is listed.
proof fn lemma_blank_positions_props(p: Seq<char>, n: int)
    requires
        0 <= n <= 81,
    ensures
        forall|j: int|
            0 <= j < blank_positions(p, n).len() ==> pos_in_range(
                #[trigger] blank_positions(p, n)[j],
            ) && 0 <= pos_key(blank_positions(p, n)[j]) < n && !is_digit_char(
                p[pos_key(blank_positions(p, n)[j])],
            ),
        forall|j1: int, j2: int|
            0 <= j1 < j2 < blank_positions(p, n).len() ==> pos_key(
                #[trigger] blank_positions(p, n)[j1],
            ) < pos_key(#[trigger] blank_positions(p, n)[j2]),
        forall|m: int|
            0 <= m < n && !is_digit_char(p[m]) ==> blank_positions(p, n).contains(
                ((m % 9) as usize, (m / 9) as usize),
            ),
    decreases n,
{
    if n > 0 {
        lemma_blank_positions_props(p, n - 1);
        if !is_digit_char(p[n - 1]) {
            let b = blank_positions(p, n);
            assert(b[b.len() - 1] == (((n - 1) % 9) as usize, ((n - 1) / 9) as usize));
            assert(pos_key(b[b.len() - 1]) == n - 1);
            assert forall|m: int|
                0 <= m < n && !is_digit_char(p[m]) implies blank_positions(p, n).contains(
                ((m % 9) as usize, (m / 9) as usize),
            ) by {
                if m < n - 1 {
                    let prev = blank_positions(p, n - 1);
                    assert(prev.contains(((m % 9) as usize, (m / 9) as usize)));
                    let j = choose|j: int|
                        0 <= j < prev.len() && prev[j] == ((m % 9) as usize, (m / 9) as usize);
                    assert(b[j] == prev[j]);
                }
            }
        }
    }
}

impl Board {
    /// Read a board from the characters of a puzzle description.
    ///
    /// Carriage returns and newlines are skipped; every other character is one
    /// cell, a digit character giving a fixed value and anything else a blank,
    /// recorded in the free-cell list in scan order. Returns the board when
    /// the text holds exactly 81 cells, and nothing otherwise.
    pub fn from_chars(cells: &Vec<char>) -> (r: Option<Board>)
        ensures
            r is Some <==> puzzle_chars(cells@).len() == 81,
            r is Some ==> {
                let b = r.unwrap();
                let p = puzzle_chars(cells@);
                &&& b.wf()
                &&& b.free_cells_blank()
                &&& forall|k: int| 0 <= k < 81 ==> b.board@[k] == char_digit(p[k])
                &&& b.modify@ == blank_positions(p, 81)
            },
    {
        let mut board_data: Vec<u8> = vec![0u8; 81];
        let mut modify_data: Vec<Pos> = Vec::new();
        let mut count: usize = 0;
        let mut ci: usize = 0;
        while ci < cells.len()
            invariant
                ci <= cells.len(),
                count <= 81,
                count == kept_prefix(cells@, ci as int).len(),
                board_data@.len() == 81,
                forall|m: int|
                    0 <= m < count ==> board_data@[m] == char_digit(
                        kept_prefix(cells@, ci as int)[m],
                    ),
                forall|m: int| count <= m < 81 ==> board_data@[m] == 0,
                modify_data@ == blank_positions(kept_prefix(cells@, ci as int), count as int),
            decreases cells@.len() - ci,
        {
            let c = cells[ci];
            if c == '\n' || c == '\r' {
                ci += 1;
                continue ;
            }
            let ghost kept_old = kept_prefix(cells@, ci as int);
            proof {
                assert(kept_prefix(cells@, ci + 1) == kept_old.push(c));
            }
            if count == 81 {
                proof {
                    lemma_kept_len_mono(cells@, ci + 1, cells@.len() as int);
                }
                return None;
            }
            let u = c as u32;
            let num: u8;
            if 48 <= u && u <= 57 {
                num = (u - 48) as u8;
            } else {
                modify_data.push((count % 9, count / 9));
                num = 0;
            }
            board_data[count] = num;
            proof {
                lemma_blank_positions_agree(kept_old, kept_old.push(c), count as int);
            }
            count += 1;
            ci += 1;
        }
        if count != 81 {
            return None;
        }
        let ghost p = puzzle_chars(cells@);
        let b = Board { board: board_data, modify: modify_data };
        proof {
            lemma_blank_positions_props(p, 81);
            assert forall|j1: int, j2: int|
                0 <= j1 < j2 < b.modify@.len() implies b.modify@[j1] != b.modify@[j2] by {
                assert(pos_key(b.modify@[j1]) < pos_key(b.modify@[j2]));
            }
            assert(grid_wf(b.board@));
        }
        Some(b)
    }

    /// The character a cell is shown as: its digit, or `_` for a blank.
    pub open spec fn cell_char(v: u8) -> char {
        if v == 1 {
            '1'
        } else if v == 2 {
            '2'
        } else if v == 3 {
            '3'
        } else if v == 4 {
            '4'
        } else if v == 5 {
            '5'
        } else if v == 6 {
            '6'
        } else if v == 7 {
            '7'
        } else if v == 8 {
            '8'
        } else if v == 9 {
            '9'
        } else {
            '_'
        }
    }

    /// The text of the first `n` cells: each cell as its character and a
    /// space, with a newline after every ninth cell except the last.
    pub open spec fn grid_text(g: Seq<u8>, n: int) -> Seq<char>
        decreases n,
    {
        if n <= 0 {
            Seq::empty()
        } else if n % 9 == 0 && n != 81 {
            Self::grid_text(g, n - 1) + seq![Self::cell_char(g[n - 1]), ' ', '\n']
        } else {
            Self::grid_text(g, n - 1) + seq![Self::cell_char(g[n - 1]), ' ']
        }
    }

    /// Render the grid as nine lines of nine space-separated tokens, each a
    /// digit or `_` for a cell still blank.
    #[verifier::loop_isolation(false)]
    pub fn to_text(&self) -> (r: String)
        requires
            self.board@.len() == 81,
        ensures
            r@ == Self::grid_text(self.board@, 81),
    {
        let mut board_txt = String::new();
        let mut i: usize = 0;
        while i < 81
            invariant
                i <= 81,
                board_txt@ == Self::grid_text(self.board@, i as int),
            decreases 81 - i,
        {
            let num = self.board[i];
            let token: &str = if num == 1 {
                "1 "
            } else if num == 2 {
                "2 "
            } else if num == 3 {
                "3 "
            } else if num == 4 {
                "4 "
            } else if num == 5 {
                "5 "
            } else if num == 6 {
                "6 "
            } else if num == 7 {
                "7 "
            } else if num == 8 {
                "8 "
            } else if num == 9 {
                "9 "
            } else {
                "_ "
            };
            proof {
                reveal_strlit("1 ");
                reveal_strlit("2 ");
                reveal_strlit("3 ");
                reveal_strlit("4 ");
                reveal_strlit("5 ");
                reveal_strlit("6 ");
                reveal_strlit("7 ");
                reveal_strlit("8 ");
                reveal_strlit("9 ");
                reveal_strlit("_ ");
                assert(token@ =~= seq![Self::cell_char(num), ' ']);
            }
            board_txt.append(token);
            if (i + 1) % 9 == 0 && i != 80 {
                proof {
                    reveal_strlit("\n");
                }
                board_txt.append("\n");
            }
            proof {
                assert(board_txt@ =~= Self::grid_text(self.board@, i as int + 1));
            }
            i += 1;
        }
        board_txt
    }
}

} // verus!
