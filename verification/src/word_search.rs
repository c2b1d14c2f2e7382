//! Word-search grid scanner.
//!
//! A character grid addressed by linear index; `check_xmas` looks for the
//! letters M, A, S in a straight line after a starting cell, `check_x_mas`
//! for two crossed M/S diagonals around an A.

use vstd::prelude::*;

verus! {

use crate::parse::chars_of;

/// The eight scan directions.
pub enum Directions {
    N,
    S,
    E,
    W,
    NE,
    NW,
    SE,
    SW,
}

impl Directions {
    /// Every direction, in scan order.
    pub fn all() -> (r: Vec<Directions>)
        ensures
            r@ == seq![
                Directions::N,
                Directions::S,
                Directions::E,
                Directions::W,
                Directions::NE,
                Directions::NW,
                Directions::SE,
                Directions::SW,
            ],
    {
        let mut r: Vec<Directions> = Vec::new();
        r.push(Directions::N);
        r.push(Directions::S);
        r.push(Directions::E);
        r.push(Directions::W);
        r.push(Directions::NE);
        r.push(Directions::NW);
        r.push(Directions::SE);
        r.push(Directions::SW);
        proof {
            assert(r@ =~= seq![
                Directions::N,
                Directions::S,
                Directions::E,
                Directions::W,
                Directions::NE,
                Directions::NW,
                Directions::SE,
                Directions::SW,
            ]);
        }
        r
    }
}

/// Linear-index offset of one step in a direction, on a grid `cols` wide.
pub open spec fn offset_of(d: Directions, cols: int) -> int {
    match d {
        Directions::N => -cols,
        Directions::S => cols,
        Directions::E => 1,
        Directions::W => -1,
        Directions::NE => -cols + 1,
        Directions::NW => -cols - 1,
        Directions::SE => cols + 1,
        Directions::SW => cols - 1,
    }
}

/// Width of the first line: the index of the first newline, or the whole
/// length.
pub open spec fn line_width(s: Seq<char>, i: int) -> int
    decreases s.len() - i,
{
    if i < 0 || i >= s.len() {
        s.len() as int
    } else if s[i] == '\n' {
        i
    } else {
        line_width(s, i + 1)
    }
}

/// Number of newline characters.
pub open spec fn newline_count(s: Seq<char>) -> nat
    decreases s.len(),
{
    if s.len() == 0 {
        0
    } else {
        newline_count(s.drop_last()) + if s.last() == '\n' {
            1nat
        } else {
            0nat
        }
    }
}

proof fn lemma_newline_count_le(s: Seq<char>)
    ensures
        newline_count(s) <= s.len(),
    decreases s.len(),
{
    if s.len() > 0 {
        lemma_newline_count_le(s.drop_last());
    }
}

/// Number of lines of the text, counted as `str::lines` does: a trailing
/// newline opens no further line.
pub open spec fn rows_of(s: Seq<char>) -> nat {
    if s.len() == 0 {
        0
    } else {
        newline_count(s) + if s.last() == '\n' {
            0nat
        } else {
            1nat
        }
    }
}

/// The characters of the text with newlines removed.
pub open spec fn non_newlines(s: Seq<char>) -> Seq<char>
    decreases s.len(),
{
    if s.len() == 0 {
        Seq::empty()
    } else {
        non_newlines(s.drop_last()) + if s.last() == '\n' {
            Seq::<char>::empty()
        } else {
            seq![s.last()]
        }
    }
}

/// The cell `offset_of(d, cols)` away from `index`, when it carries `letter`.
pub open spec fn letter_at(
    cells: Seq<char>,
    cols: int,
    d: Directions,
    index: int,
    letter: char,
) -> Option<int> {
    let t = index + offset_of(d, cols);
    if 0 <= t < cells.len() && cells[t] == letter {
        Some(t)
    } else {
        None
    }
}

/// The letters M, A, S found in a straight line after `start`.
pub open spec fn xmas_at(cells: Seq<char>, cols: int, d: Directions, start: int) -> bool {
    match letter_at(cells, cols, d, start, 'M') {
        None => false,
        Some(i1) => match letter_at(cells, cols, d, i1, 'A') {
            None => false,
            Some(i2) => letter_at(cells, cols, d, i2, 'S') is Some,
        },
    }
}

/// Two crossed M/S diagonals around `start`: all four diagonal cells lie in
/// the grid, hold two M and two S, and opposite corners differ.
pub open spec fn x_mas_at(cells: Seq<char>, cols: int, start: int) -> bool {
    let ne = start + offset_of(Directions::NE, cols);
    let nw = start + offset_of(Directions::NW, cols);
    let se = start + offset_of(Directions::SE, cols);
    let sw = start + offset_of(Directions::SW, cols);
    if 0 <= ne < cells.len() && 0 <= nw < cells.len() && 0 <= se < cells.len() && 0 <= sw
        < cells.len() {
        let m_count = (if cells[ne] == 'M' {
            1int
        } else {
            0int
        }) + (if cells[nw] == 'M' {
            1int
        } else {
            0int
        }) + (if cells[se] == 'M' {
            1int
        } else {
            0int
        }) + (if cells[sw] == 'M' {
            1int
        } else {
            0int
        });
        let s_count = (if cells[ne] == 'S' {
            1int
        } else {
            0int
        }) + (if cells[nw] == 'S' {
            1int
        } else {
            0int
        }) + (if cells[se] == 'S' {
            1int
        } else {
            0int
        }) + (if cells[sw] == 'S' {
            1int
        } else {
            0int
        });
        m_count == 2 && s_count == 2 && cells[ne] != cells[sw] && cells[nw] != cells[se]
    } else {
        false
    }
}

/// Matches starting at cell `i`: the number of directions spelling XMAS from
/// an X, and whether an A anchors a crossed M/S pair.
pub open spec fn xmas_at_cell(cells: Seq<char>, cols: int, i: int) -> nat {
    if cells[i] == 'X' {
        ((if xmas_at(cells, cols, Directions::N, i) {
            1int
        } else {
            0int
        }) + (if xmas_at(cells, cols, Directions::S, i) {
            1int
        } else {
            0int
        }) + (if xmas_at(cells, cols, Directions::E, i) {
            1int
        } else {
            0int
        }) + (if xmas_at(cells, cols, Directions::W, i) {
            1int
        } else {
            0int
        }) + (if xmas_at(cells, cols, Directions::NE, i) {
            1int
        } else {
            0int
        }) + (if xmas_at(cells, cols, Directions::NW, i) {
            1int
        } else {
            0int
        }) + (if xmas_at(cells, cols, Directions::SE, i) {
            1int
        } else {
            0int
        }) + (if xmas_at(cells, cols, Directions::SW, i) {
            1int
        } else {
            0int
        })) as nat
    } else {
        0
    }
}

/// Total straight-line matches over the first `i` cells.
pub open spec fn xmas_total(cells: Seq<char>, cols: int, i: int) -> nat
    decreases i,
{
    if i <= 0 {
        0
    } else {
        xmas_total(cells, cols, i - 1) + xmas_at_cell(cells, cols, i - 1)
    }
}

/// Total crossed matches over the first `i` cells.
pub open spec fn x_mas_total(cells: Seq<char>, cols: int, i: int) -> nat
    decreases i,
{
    if i <= 0 {
        0
    } else {
        x_mas_total(cells, cols, i - 1) + if cells[i - 1] == 'A' && x_mas_at(cells, cols, i - 1) {
            1nat
        } else {
            0nat
        }
    }
}

/// The word-search grid.
pub struct Grid {
    cols: usize,
    rows: usize,
    data: Vec<char>,
}

impl Grid {
    /// The grid's cells.
    pub closed spec fn cells(&self) -> Seq<char> {
        self.data@
    }

    /// The grid's width.
    pub closed spec fn width(&self) -> int {
        self.cols as int
    }

    /// The grid's height.
    pub closed spec fn height(&self) -> int {
        self.rows as int
    }

    /// Sizes small enough for the index arithmetic below.
    pub closed spec fn bounded(&self) -> bool {
        self.cols < 0x7fff_ffff && self.data@.len() < 0x7fff_ffff
    }

    /// Whether the grid is small enough for the scanning functions; they
    /// require it, and a caller establishes it with this test.
    pub fn is_bounded(&self) -> (r: bool)
        ensures
            r == self.bounded(),
    {
        self.cols < 0x7fff_ffff && self.data.len() < 0x7fff_ffff
    }

    /// Loads a grid: the width is the first line's length, the height the
    /// line count, the cells every character but the newlines.
    pub fn new(input: &str) -> (g: Grid)
        ensures
            g.cells() == non_newlines(input@),
            g.width() == line_width(input@, 0),
            g.height() == rows_of(input@),
    {
        let cs = chars_of(input);
        let mut cols: usize = 0;
        loop
            invariant
                cs@ == input@,
                0 <= cols <= cs@.len(),
                line_width(input@, 0) == line_width(input@, cols as int),
            ensures
                cols as int == line_width(input@, 0),
            decreases cs@.len() - cols,
        {
            if cols >= cs.len() {
                break;
            }
            if cs[cols] == '\n' {
                break;
            }
            cols += 1;
        }
        let mut data: Vec<char> = Vec::new();
        let mut nl: usize = 0;
        let mut i: usize = 0;
        while i < cs.len()
            invariant
                cs@ == input@,
                0 <= i <= cs@.len(),
                nl <= i,
                nl == newline_count(cs@.take(i as int)),
                data@ == non_newlines(cs@.take(i as int)),
            decreases cs@.len() - i,
        {
            let c = cs[i];
            proof {
                assert(cs@.take(i + 1 as int).drop_last() =~= cs@.take(i as int));
                assert(cs@.take(i + 1 as int).last() == cs@[i as int]);
            }
            if c == '\n' {
                nl += 1;
            } else {
                data.push(c);
                proof {
                    assert(data@ =~= non_newlines(cs@.take(i + 1 as int)));
                }
            }
            i += 1;
        }
        proof {
            assert(cs@.take(cs@.len() as int) =~= cs@);
        }
        let rows = if cs.len() == 0 {
            0
        } else if cs[cs.len() - 1] == '\n' {
            nl
        } else {
            proof {
                assert(cs@.last() == cs@[cs@.len() - 1]);
                assert(newline_count(cs@) == newline_count(cs@.drop_last()));
                lemma_newline_count_le(cs@.drop_last());
            }
            nl + 1
        };
        proof {
            if cs@.len() > 0 {
                assert(cs@.last() == cs@[cs@.len() - 1]);
            }
        }
        Grid { cols, rows, data }
    }

    /// Linear offset of one step in the given direction.
    pub fn direction_offset(&self, direction: &Directions) -> (r: i32)
        requires
            self.bounded(),
        ensures
            r as int == offset_of(*direction, self.width()),
    {
        let c = self.cols as i32;
        match direction {
            Directions::N => -c,
            Directions::S => c,
            Directions::E => 1,
            Directions::W => -1,
            Directions::NE => -c + 1,
            Directions::NW => -c - 1,
            Directions::SE => c + 1,
            Directions::SW => c - 1,
        }
    }

    /// Whether the linear index lies inside the cell array.
    pub fn is_in_bounds(&self, index: i32) -> (r: bool)
        requires
            self.bounded(),
        ensures
            r == (0 <= index && (index as int) < self.cells().len()),
    {
        index >= 0 && index < self.data.len() as i32
    }

    /// The cell one step from `index` in direction `direction`, when it
    /// carries `letter`.
    pub fn check_letter(&self, direction: &Directions, index: usize, letter: char) -> (r: Option<
        usize,
    >)
        requires
            self.bounded(),
            index < self.cells().len(),
        ensures
            r is Some <==> letter_at(self.cells(), self.width(), *direction, index as int, letter)
                is Some,
            r matches Some(n) ==> Some(n as int) == letter_at(
                self.cells(),
                self.width(),
                *direction,
                index as int,
                letter,
            ),
    {
        let offset = self.direction_offset(direction);
        let next_index: i64 = index as i64 + offset as i64;
        if next_index >= 0 && next_index < self.data.len() as i64 {
            let n = next_index as usize;
            if self.data[n] == letter {
                Some(n)
            } else {
                None
            }
        } else {
            None
        }
    }

    /// Whether M, A, S follow in a straight line after `start`.
    pub fn check_xmas(&self, direction: &Directions, start: usize) -> (r: bool)
        requires
            self.bounded(),
            start < self.cells().len(),
        ensures
            r == xmas_at(self.cells(), self.width(), *direction, start as int),
    {
        if let Some(i1) = self.check_letter(direction, start, 'M') {
            if let Some(i2) = self.check_letter(direction, i1, 'A') {
                self.check_letter(direction, i2, 'S').is_some()
            } else {
                false
            }
        } else {
            false
        }
    }

    /// Whether two crossed M/S diagonals surround `start`.
    pub fn check_x_mas(&self, start: usize) -> (r: bool)
        requires
            self.bounded(),
            start < self.cells().len(),
        ensures
            r == x_mas_at(self.cells(), self.width(), start as int),
    {
        let c = self.cols as i64;
        let s = start as i64;
        let len = self.data.len() as i64;
        let ne = s - c + 1;
        let nw = s - c - 1;
        let se = s + c + 1;
        let sw = s + c - 1;
        if ne < 0 || ne >= len || nw < 0 || nw >= len || se < 0 || se >= len || sw < 0 || sw >= len {
            return false;
        }
        let a = self.data[ne as usize];
        let b = self.data[nw as usize];
        let x = self.data[se as usize];
        let y = self.data[sw as usize];
        let mut m_count: u32 = 0;
        let mut s_count: u32 = 0;
        if a == 'M' {
            m_count += 1;
        }
        if b == 'M' {
            m_count += 1;
        }
        if x == 'M' {
            m_count += 1;
        }
        if y == 'M' {
            m_count += 1;
        }
        if a == 'S' {
            s_count += 1;
        }
        if b == 'S' {
            s_count += 1;
        }
        if x == 'S' {
            s_count += 1;
        }
        if y == 'S' {
            s_count += 1;
        }
        m_count == 2 && s_count == 2 && a != y && b != x
    }

    /// Counts every straight-line and every crossed match of the grid.
    pub fn count_matches(&self) -> (r: (u64, u64))
        requires
            self.bounded(),
        ensures
            r.0 == xmas_total(self.cells(), self.width(), self.cells().len() as int),
            r.1 == x_mas_total(self.cells(), self.width(), self.cells().len() as int),
    {
        let mut total_xmas: u64 = 0;
        let mut total_x_mas: u64 = 0;
        let mut i: usize = 0;
        while i < self.data.len()
            invariant
                self.bounded(),
                0 <= i <= self.cells().len(),
                total_xmas == xmas_total(self.cells(), self.width(), i as int),
                total_xmas <= 8 * i,
                total_x_mas == x_mas_total(self.cells(), self.width(), i as int),
                total_x_mas <= i,
            decreases self.cells().len() - i,
        {
            let ch = self.data[i];
            if ch == 'X' {
                let mut found: u64 = 0;
                if self.check_xmas(&Directions::N, i) {
                    found += 1;
                }
                if self.check_xmas(&Directions::S, i) {
                    found += 1;
                }
                if self.check_xmas(&Directions::E, i) {
                    found += 1;
                }
                if self.check_xmas(&Directions::W, i) {
                    found += 1;
                }
                if self.check_xmas(&Directions::NE, i) {
                    found += 1;
                }
                if self.check_xmas(&Directions::NW, i) {
                    found += 1;
                }
                if self.check_xmas(&Directions::SE, i) {
                    found += 1;
                }
                if self.check_xmas(&Directions::SW, i) {
                    found += 1;
                }
                total_xmas += found;
            } else if ch == 'A' && self.check_x_mas(i) {
                total_x_mas += 1;
            }
            i += 1;
        }
        (total_xmas, total_x_mas)
    }
}

} // verus!
