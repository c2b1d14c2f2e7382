//! Grid-traversal simulator.
//!
//! A rectangular grid holds one moving marker with a facing.  Each step either
//! detects a revisited (position, facing) state, walks the marker one cell in
//! its facing, turns it clockwise at an obstacle, or reports that the next
//! cell lies outside the grid.

use vstd::prelude::*;

verus! {

use vstd::pervasive::unreached;
use vstd::arithmetic::div_mod::lemma_fundamental_div_mod;
use crate::parse::{split_by, split_chars, chars_of};

/// The four facings of the marker.
pub enum Directions {
    N,
    S,
    E,
    W,
}

/// Terminal result of a full simulation run.
#[derive(PartialEq, Eq, Structural, Clone, Copy, Debug)]
pub enum Outcome {
    LoopDetected,
    OutOfBounds,
}

/// The marker characters, one per facing.
pub open spec fn is_marker(c: char) -> bool {
    c == '^' || c == '>' || c == 'v' || c == '<'
}

/// The characters that block the marker.
pub open spec fn is_obstacle(c: char) -> bool {
    c == '#' || c == 'O'
}

/// Every character a grid may hold.
pub open spec fn is_grid_char(c: char) -> bool {
    c == '.' || is_marker(c) || is_obstacle(c)
}

/// A distinct slot per facing, used to index per-state bookkeeping.
pub open spec fn dir_index(c: char) -> int {
    if c == '^' {
        0
    } else if c == '>' {
        1
    } else if c == 'v' {
        2
    } else {
        3
    }
}

/// The facing after a clockwise quarter turn.
pub open spec fn rotate_spec(c: char) -> char {
    if c == '^' {
        '>'
    } else if c == '>' {
        'v'
    } else if c == 'v' {
        '<'
    } else {
        '^'
    }
}

/// Turns a marker character a quarter turn clockwise; `None` for any other
/// character.
pub fn rotate(c: char) -> (r: Option<char>)
    ensures
        r == if is_marker(c) {
            Some(rotate_spec(c))
        } else {
            None::<char>
        },
{
    match c {
        '^' => Some('>'),
        '>' => Some('v'),
        'v' => Some('<'),
        '<' => Some('^'),
        _ => None,
    }
}

/// Number of set flags in a sequence of booleans.
pub open spec fn count_true(s: Seq<bool>) -> nat
    decreases s.len(),
{
    if s.len() == 0 {
        0
    } else {
        count_true(s.drop_last()) + if s.last() {
            1nat
        } else {
            0nat
        }
    }
}

proof fn lemma_count_true_le(s: Seq<bool>)
    ensures
        count_true(s) <= s.len(),
    decreases s.len(),
{
    if s.len() > 0 {
        lemma_count_true_le(s.drop_last());
    }
}

proof fn lemma_count_true_update(s: Seq<bool>, i: int)
    requires
        0 <= i < s.len(),
    ensures
        count_true(s.update(i, true)) == count_true(s) + if s[i] {
            0nat
        } else {
            1nat
        },
    decreases s.len(),
{
    if i == s.len() - 1 {
        assert(s.update(i, true).drop_last() =~= s.drop_last());
        assert(s.update(i, true).last());
    } else {
        assert(s.update(i, true).drop_last() =~= s.drop_last().update(i, true));
        assert(s.update(i, true).last() == s.last());
        lemma_count_true_update(s.drop_last(), i);
        assert(s.drop_last()[i] == s[i]);
    }
}

/// The set of flagged positions of a flag sequence.
pub open spec fn flagged_set(s: Seq<bool>) -> Set<int> {
    Set::new(|i: int| 0 <= i < s.len() && s[i])
}

/// The flag counter counts exactly the cardinality of the flagged set; in
/// particular `visited_cell_count` returns the number of distinct cells the
/// marker has stood on.
pub proof fn lemma_count_true_is_card(s: Seq<bool>)
    ensures
        flagged_set(s).finite(),
        count_true(s) == flagged_set(s).len(),
    decreases s.len(),
{
    if s.len() == 0 {
        assert(flagged_set(s) =~= Set::empty());
    } else {
        lemma_count_true_is_card(s.drop_last());
        if s.last() {
            assert(flagged_set(s) =~= flagged_set(s.drop_last()).insert(s.len() - 1));
            assert(!flagged_set(s.drop_last()).contains(s.len() - 1));
        } else {
            assert(flagged_set(s) =~= flagged_set(s.drop_last()));
        }
    }
}

/// Number of marker characters in a cell sequence.
pub open spec fn marker_count(s: Seq<char>) -> nat
    decreases s.len(),
{
    if s.len() == 0 {
        0
    } else {
        marker_count(s.drop_last()) + if is_marker(s.last()) {
            1nat
        } else {
            0nat
        }
    }
}

/// The mathematical state of a simulation.
#[verifier::ext_equal]
pub ghost struct GridModel {
    pub cols: nat,
    pub rows: nat,
    pub cells: Seq<char>,
    pub pos: nat,
    pub facing: char,
    pub seen: Seq<bool>,
    pub seen_cells: Seq<bool>,
}

impl GridModel {
    /// Number of cells.
    pub open spec fn len(self) -> nat {
        self.cells.len()
    }

    /// Shape and content invariant of a simulation state.
    pub open spec fn wf(self) -> bool {
        &&& self.cols > 0
        &&& self.rows > 0
        &&& self.cols * self.rows == self.cells.len()
        &&& 4 * self.cells.len() <= usize::MAX
        &&& self.pos < self.cells.len()
        &&& is_marker(self.facing)
        &&& self.seen.len() == 4 * self.cells.len()
        &&& self.seen_cells.len() == self.cells.len()
        &&& forall|i: int| 0 <= i < self.cells.len() ==> is_grid_char(self.cells[i])
    }

    /// The bookkeeping slot of the current (position, facing) state.
    pub open spec fn slot(self) -> int {
        4 * self.pos + dir_index(self.facing)
    }

    /// The cell one step ahead in the current facing, if it lies inside the
    /// grid.
    pub open spec fn next_pos(self) -> Option<int> {
        let x = self.pos as int % self.cols as int;
        let y = self.pos as int / self.cols as int;
        if self.facing == '^' {
            if y > 0 {
                Some((y - 1) * self.cols + x)
            } else {
                None
            }
        } else if self.facing == 'v' {
            if y + 1 < self.rows {
                Some((y + 1) * self.cols + x)
            } else {
                None
            }
        } else if self.facing == '>' {
            if x + 1 < self.cols {
                Some(y * self.cols + (x + 1))
            } else {
                None
            }
        } else {
            if x > 0 {
                Some(y * self.cols + (x - 1))
            } else {
                None
            }
        }
    }

    /// No cell of the grid blocks the marker.
    pub open spec fn no_obstacles(self) -> bool {
        forall|i: int| 0 <= i < self.cells.len() ==> !is_obstacle(self.cells[i])
    }

    /// No state has been recorded yet.
    pub open spec fn unexplored(self) -> bool {
        forall|i: int| 0 <= i < self.seen.len() ==> !self.seen[i]
    }
}

/// One simulation step, exactly as `Grid::move_guard` performs it:
/// a revisited state reports `Some(2)` and changes nothing; otherwise the
/// current state is recorded, the marker's cell is overwritten with its
/// facing character, and the marker leaves the grid (`None`), turns at an
/// obstacle, or moves ahead (`Some(1)`).
pub open spec fn step_model(g: GridModel) -> (GridModel, Option<usize>) {
    if g.seen[g.slot()] {
        (g, Some(2usize))
    } else {
        let m = GridModel {
            cells: g.cells.update(g.pos as int, g.facing),
            seen: g.seen.update(g.slot(), true),
            seen_cells: g.seen_cells.update(g.pos as int, true),
            ..g
        };
        match g.next_pos() {
            None => (m, None),
            Some(np) => {
                if is_obstacle(m.cells[np]) {
                    (GridModel { facing: rotate_spec(g.facing), ..m }, Some(1usize))
                } else {
                    (GridModel { pos: np as nat, ..m }, Some(1usize))
                }
            },
        }
    }
}

/// The simulation driven to a terminal step.  `fuel` bounds the recursion;
/// a `None` outcome means the fuel ran out, which cannot happen when the fuel
/// covers the number of unrecorded states.
pub open spec fn run_model(g: GridModel, fuel: nat) -> (GridModel, Option<Outcome>)
    decreases fuel,
{
    let (g1, r) = step_model(g);
    if r == Some(2usize) {
        (g1, Some(Outcome::LoopDetected))
    } else if r is None {
        (g1, Some(Outcome::OutOfBounds))
    } else if fuel == 0 {
        (g1, None)
    } else {
        run_model(g1, (fuel - 1) as nat)
    }
}

/// The grid simulator: a character grid plus the marker state and the
/// bookkeeping of visited states.
pub struct Grid {
    cols: usize,
    rows: usize,
    data: Vec<char>,
    guard_pos: usize,
    guard_char: char,
    visited: Vec<bool>,
    visited_count: usize,
    cell_visited: Vec<bool>,
    cell_count: usize,
}

impl View for Grid {
    type V = GridModel;

    closed spec fn view(&self) -> GridModel {
        GridModel {
            cols: self.cols as nat,
            rows: self.rows as nat,
            cells: self.data@,
            pos: self.guard_pos as nat,
            facing: self.guard_char,
            seen: self.visited@,
            seen_cells: self.cell_visited@,
        }
    }
}

impl Grid {
    /// The state invariant: the model is well formed and the two counters
    /// track the number of recorded states and of visited cells.
    pub closed spec fn wf(&self) -> bool {
        &&& self@.wf()
        &&& self.visited_count == count_true(self.visited@)
        &&& self.cell_count == count_true(self.cell_visited@)
    }

    /// Number of distinct cells the marker has stood on.
    pub fn visited_cell_count(&self) -> (n: usize)
        requires
            self.wf(),
        ensures
            n == count_true(self@.seen_cells),
    {
        self.cell_count
    }

    /// The marker's current cell as a linear index.
    pub fn guard_position(&self) -> (p: usize)
        ensures
            p == self@.pos,
    {
        self.guard_pos
    }

    /// The marker's current facing character.
    pub fn guard_marker(&self) -> (c: char)
        ensures
            c == self@.facing,
    {
        self.guard_char
    }

    /// Linear offset of one step in the given direction.
    pub fn direction_offset(&self, direction: &Directions) -> (r: i32)
        requires
            self@.cols < 0x8000_0000,
        ensures
            r as int == match *direction {
                Directions::N => -(self@.cols as int),
                Directions::S => self@.cols as int,
                Directions::E => 1int,
                Directions::W => -1int,
            },
    {
        let c = self.cols as i32;
        match direction {
            Directions::N => -c,
            Directions::S => c,
            Directions::E => 1,
            Directions::W => -1,
        }
    }

    /// Coordinate offset of one step in the given direction.
    pub fn direction_offset_vec(&self, direction: &Directions) -> (r: (i32, i32))
        ensures
            r == match *direction {
                Directions::N => (0i32, -1i32),
                Directions::S => (0i32, 1i32),
                Directions::E => (1i32, 0i32),
                Directions::W => (-1i32, 0i32),
            },
    {
        match direction {
            Directions::N => (0, -1),
            Directions::S => (0, 1),
            Directions::E => (1, 0),
            Directions::W => (-1, 0),
        }
    }

    /// Whether the coordinate pair lies inside the grid.
    pub fn is_in_bounds_vec(&self, x: i32, y: i32) -> (r: bool)
        requires
            self@.cols < 0x8000_0000,
            self@.rows < 0x8000_0000,
        ensures
            r == (0 <= x && (x as int) < self@.cols && 0 <= y && (y as int) < self@.rows),
    {
        x >= 0 && x < self.cols as i32 && y >= 0 && y < self.rows as i32
    }

    /// Linear index of the coordinate pair.
    pub fn coord_to_linear(&self, x: usize, y: usize) -> (r: usize)
        requires
            self@.wf(),
            x < self@.cols,
            y < self@.rows,
        ensures
            r == y * self@.cols + x,
    {
        proof {
            assert(y * self@.cols + x < self@.rows * self@.cols) by (nonlinear_arith)
                requires
                    y < self@.rows,
                    x < self@.cols,
                    self@.cols > 0,
            ;
            assert(self@.rows * self@.cols == self@.cols * self@.rows) by (nonlinear_arith);
        }
        (y * self.cols) + x
    }

    /// Coordinate pair of the linear index.
    pub fn linear_to_coord(&self, i: usize) -> (r: (usize, usize))
        requires
            self@.wf(),
        ensures
            r.0 == i as int % self@.cols as int,
            r.1 == i as int / self@.cols as int,
    {
        let x = i % self.cols;
        proof {
            lemma_fundamental_div_mod(i as int, self@.cols as int);
            assert(i as int - x as int == self@.cols as int * (i as int / self@.cols as int));
            assert(self@.cols as int * (i as int / self@.cols as int) >= 0) by (nonlinear_arith)
                requires
                    self@.cols as int > 0,
                    i as int / self@.cols as int >= 0,
            ;
            vstd::arithmetic::div_mod::lemma_div_multiples_vanish(
                i as int / self@.cols as int,
                self@.cols as int,
            );
        }
        let y = (i - x) / self.cols;
        (x, y)
    }

    /// Performs one simulation step; see `step_model` for the exact effect.
    /// `Some(2)` reports a revisited state, `None` reports that the marker
    /// left the grid, `Some(1)` reports an ordinary step or turn.
    pub fn move_guard(&mut self) -> (r: Option<usize>)
        requires
            old(self).wf(),
        ensures
            final(self).wf(),
            final(self)@ == step_model(old(self)@).0,
            r == step_model(old(self)@).1,
    {
        let d: usize = match self.guard_char {
            '^' => 0,
            '>' => 1,
            'v' => 2,
            '<' => 3,
            _ => unreached(),
        };
        let slot = 4 * self.guard_pos + d;
        if self.visited[slot] {
            return Some(2);
        }
        proof {
            lemma_count_true_update(self.visited@, slot as int);
            lemma_count_true_le(self.visited@.update(slot as int, true));
            lemma_count_true_update(self.cell_visited@, self.guard_pos as int);
            lemma_count_true_le(self.cell_visited@.update(self.guard_pos as int, true));
        }
        self.data[self.guard_pos] = self.guard_char;
        self.visited[slot] = true;
        self.visited_count += 1;
        if !self.cell_visited[self.guard_pos] {
            self.cell_visited[self.guard_pos] = true;
            self.cell_count += 1;
        } else {
            self.cell_visited[self.guard_pos] = true;
        }
        let x = self.guard_pos % self.cols;
        let y = self.guard_pos / self.cols;
        let ghost c = self@.cols as int;
        let ghost rws = self@.rows as int;
        let ghost pos = self.guard_pos as int;
        let ghost xi = x as int;
        let ghost yi = y as int;
        proof {
            lemma_fundamental_div_mod(pos, c);
            assert(pos == c * yi + xi);
            assert(c * rws == self@.len() as int);
            assert(yi < rws) by (nonlinear_arith)
                requires
                    c * yi + xi < c * rws,
                    xi >= 0,
                    c > 0,
            ;
        }
        let step: (bool, usize) = match self.guard_char {
            '^' => {
                if y > 0 {
                    proof {
                        assert(pos >= c && (yi - 1) * c + xi == pos - c) by (nonlinear_arith)
                            requires
                                pos == c * yi + xi,
                                yi >= 1,
                                xi >= 0,
                                c > 0,
                        ;
                    }
                    (true, self.guard_pos - self.cols)
                } else {
                    (false, 0)
                }
            },
            'v' => {
                if y + 1 < self.rows {
                    proof {
                        assert(pos + c < c * rws && (yi + 1) * c + xi == pos + c) by (nonlinear_arith)
                            requires
                                pos == c * yi + xi,
                                yi + 1 < rws,
                                0 <= xi < c,
                        ;
                    }
                    (true, self.guard_pos + self.cols)
                } else {
                    (false, 0)
                }
            },
            '>' => {
                if x + 1 < self.cols {
                    proof {
                        assert(pos + 1 < c * rws && yi * c + (xi + 1) == pos + 1) by (nonlinear_arith)
                            requires
                                pos == c * yi + xi,
                                0 <= yi < rws,
                                xi + 1 < c,
                                c > 0,
                        ;
                    }
                    (true, self.guard_pos + 1)
                } else {
                    (false, 0)
                }
            },
            '<' => {
                if x > 0 {
                    proof {
                        assert(yi * c + (xi - 1) == pos - 1) by (nonlinear_arith)
                            requires
                                pos == c * yi + xi,
                        ;
                    }
                    (true, self.guard_pos - 1)
                } else {
                    (false, 0)
                }
            },
            _ => unreached(),
        };
        let in_bounds = step.0;
        let next = step.1;
        if !in_bounds {
            return None;
        }
        let next_sq = self.data[next];
        match next_sq {
            '#' | 'O' => {
                let new_g = match rotate(self.guard_char) {
                    Some(g) => g,
                    None => unreached(),
                };
                self.guard_char = new_g;
            },
            _ => {
                self.guard_pos = next;
            },
        }
        Some(1)
    }
}

/// The lines of a grid text: its nonempty newline-separated segments.
pub open spec fn grid_lines(s: Seq<char>) -> Seq<Seq<char>> {
    split_by(s, seq!['\n'])
}

/// The cells of a grid, line after line.
pub open spec fn concat_lines(ls: Seq<Seq<char>>) -> Seq<char>
    decreases ls.len(),
{
    if ls.len() == 0 {
        Seq::empty()
    } else {
        concat_lines(ls.drop_last()) + ls.last()
    }
}

/// At least one line, all lines nonempty and of equal width.
pub open spec fn lines_rectangular(ls: Seq<Seq<char>>) -> bool {
    &&& ls.len() > 0
    &&& ls[0].len() > 0
    &&& forall|i: int| 0 <= i < ls.len() ==> (#[trigger] ls[i]).len() == ls[0].len()
}

/// A text denotes a grid when its lines are rectangular, it holds exactly one
/// marker, every character is recognized, and the per-state bookkeeping fits
/// in memory.
pub open spec fn grid_text_ok(s: Seq<char>) -> bool {
    let ls = grid_lines(s);
    let cells = concat_lines(ls);
    &&& lines_rectangular(ls)
    &&& 4 * cells.len() <= usize::MAX
    &&& marker_count(cells) == 1
    &&& forall|i: int| 0 <= i < cells.len() ==> is_grid_char(cells[i])
}

/// The state a freshly loaded grid is in.
pub open spec fn new_grid_spec(s: Seq<char>, m: GridModel) -> bool {
    let ls = grid_lines(s);
    let cells = concat_lines(ls);
    &&& m.wf()
    &&& m.cols == ls[0].len()
    &&& m.rows == ls.len()
    &&& m.cells == cells
    &&& m.pos < cells.len()
    &&& is_marker(cells[m.pos as int])
    &&& forall|j: int| 0 <= j < m.pos ==> !is_marker(cells[j])
    &&& m.facing == cells[m.pos as int]
    &&& m.unexplored()
    &&& forall|i: int| 0 <= i < m.seen_cells.len() ==> !m.seen_cells[i]
}

proof fn lemma_concat_lines_len(ls: Seq<Seq<char>>, w: int)
    requires
        forall|j: int| 0 <= j < ls.len() ==> ls[j].len() == w,
    ensures
        concat_lines(ls).len() == ls.len() * w,
    decreases ls.len(),
{
    if ls.len() == 0 {
    } else {
        assert(forall|j: int|
            0 <= j < ls.drop_last().len() ==> ls.drop_last()[j].len() == w) by {
            assert(forall|j: int| 0 <= j < ls.len() - 1 ==> ls.drop_last()[j] == ls[j]);
        }
        lemma_concat_lines_len(ls.drop_last(), w);
        assert(ls.last().len() == w);
        assert((ls.len() - 1) * w + w == ls.len() * w) by (nonlinear_arith);
    }
}

proof fn lemma_count_true_all_false(s: Seq<bool>)
    requires
        forall|i: int| 0 <= i < s.len() ==> !s[i],
    ensures
        count_true(s) == 0,
    decreases s.len(),
{
    if s.len() > 0 {
        assert(forall|i: int| 0 <= i < s.len() - 1 ==> s.drop_last()[i] == s[i]);
        lemma_count_true_all_false(s.drop_last());
    }
}

impl Grid {
    /// Loads a grid from its text.  Returns `None` exactly when the text does
    /// not denote a grid: ragged or empty lines, no marker or several, an
    /// unrecognized character, or a grid too large to track.
    pub fn new(input: &str) -> (r: Option<Grid>)
        ensures
            r is Some <==> grid_text_ok(input@),
            r matches Some(g) ==> g.wf() && new_grid_spec(input@, g@),
    {
        let cs = chars_of(input);
        let mut nl: Vec<char> = Vec::new();
        nl.push('\n');
        proof {
            assert(nl@ =~= seq!['\n']);
        }
        let lines = split_chars(&cs, &nl);
        let ghost ls = lines.deep_view();
        proof {
            assert(ls == grid_lines(input@));
        }
        if lines.len() == 0 {
            return None;
        }
        proof {
            assert(ls[0] == lines@[0]@);
        }
        let cols = lines[0].len();
        if cols == 0 {
            return None;
        }
        let rows = lines.len();
        let mut data: Vec<char> = Vec::new();
        let mut i: usize = 0;
        while i < lines.len()
            invariant
                ls == lines.deep_view(),
                ls == grid_lines(input@),
                lines@.len() == ls.len(),
                0 <= i <= ls.len(),
                0 < ls.len(),
                cols == ls[0].len(),
                forall|j: int| 0 <= j < i ==> ls[j].len() == cols,
                data@ == concat_lines(ls.take(i as int)),
            decreases ls.len() - i,
        {
            proof {
                assert(ls[i as int] == lines@[i as int]@);
            }
            if lines[i].len() != cols {
                proof {
                    assert(!lines_rectangular(ls)) by {
                        assert(ls[i as int].len() != ls[0].len());
                    }
                }
                return None;
            }
            let line = &lines[i];
            let mut k: usize = 0;
            while k < line.len()
                invariant
                    0 <= i < ls.len(),
                    line@ == ls[i as int],
                    0 <= k <= line@.len(),
                    data@ == concat_lines(ls.take(i as int)) + ls[i as int].take(k as int),
                decreases line@.len() - k,
            {
                data.push(line[k]);
                proof {
                    assert(data@ =~= concat_lines(ls.take(i as int)) + ls[i as int].take(
                        k + 1 as int,
                    ));
                }
                k += 1;
            }
            proof {
                assert(ls[i as int].take(ls[i as int].len() as int) =~= ls[i as int]);
                assert(ls.take(i + 1 as int).drop_last() =~= ls.take(i as int));
                assert(ls.take(i + 1 as int).last() == ls[i as int]);
                assert(data@ =~= concat_lines(ls.take(i + 1 as int)));
            }
            i += 1;
        }
        proof {
            assert(ls.take(ls.len() as int) =~= ls);
        }
        let mut count: usize = 0;
        let mut first: usize = 0;
        let mut k: usize = 0;
        while k < data.len()
            invariant
                ls == grid_lines(input@),
                data@ == concat_lines(ls),
                0 <= k <= data@.len(),
                count == marker_count(data@.take(k as int)),
                count <= k,
                forall|j: int| 0 <= j < k ==> is_grid_char(data@[j]),
                count == 0 ==> forall|j: int| 0 <= j < k ==> !is_marker(data@[j]),
                count > 0 ==> first < k && is_marker(data@[first as int]) && (forall|j: int|
                    0 <= j < first ==> !is_marker(data@[j])),
            decreases data@.len() - k,
        {
            let ch = data[k];
            let okc = match ch {
                '.' | '#' | 'O' | '^' | '>' | 'v' | '<' => true,
                _ => false,
            };
            if !okc {
                proof {
                    assert(!is_grid_char(data@[k as int]));
                }
                return None;
            }
            let mk = match ch {
                '^' | '>' | 'v' | '<' => true,
                _ => false,
            };
            proof {
                assert(data@.take(k + 1 as int).drop_last() =~= data@.take(k as int));
                assert(data@.take(k + 1 as int).last() == data@[k as int]);
            }
            if mk {
                if count == 0 {
                    first = k;
                }
                count += 1;
            }
            k += 1;
        }
        proof {
            assert(data@.take(data@.len() as int) =~= data@);
        }
        if count != 1 {
            return None;
        }
        let four = match data.len().checked_mul(4) {
            Some(f) => f,
            None => {
                return None;
            },
        };
        let mut visited: Vec<bool> = Vec::new();
        let mut v: usize = 0;
        while v < four
            invariant
                visited@.len() == v,
                0 <= v <= four,
                forall|j: int| 0 <= j < v ==> !visited@[j],
            decreases four - v,
        {
            visited.push(false);
            v += 1;
        }
        let mut cellv: Vec<bool> = Vec::new();
        let mut w: usize = 0;
        while w < data.len()
            invariant
                cellv@.len() == w,
                0 <= w <= data@.len(),
                forall|j: int| 0 <= j < w ==> !cellv@[j],
            decreases data@.len() - w,
        {
            cellv.push(false);
            w += 1;
        }
        let guard_char = data[first];
        proof {
            lemma_concat_lines_len(ls, cols as int);
            assert(cols as int * rows as int == rows as int * cols as int) by (nonlinear_arith);
            lemma_count_true_all_false(visited@);
            lemma_count_true_all_false(cellv@);
        }
        Some(
            Grid {
                cols,
                rows,
                data,
                guard_pos: first,
                guard_char,
                visited,
                visited_count: 0,
                cell_visited: cellv,
                cell_count: 0,
            },
        )
    }

    /// Drives the simulation to its terminal step.  The result and the final
    /// state are exactly those of `run_model` with fuel for every state; a
    /// grid with nothing recorded and no obstacle always ends out of bounds.
    pub fn run_simulation(&mut self) -> (r: Outcome)
        requires
            old(self).wf(),
        ensures
            final(self).wf(),
            final(self)@ == run_model(old(self)@, 4 * old(self)@.len()).0,
            Some(r) == run_model(old(self)@, 4 * old(self)@.len()).1,
            old(self)@.unexplored() && ray_clear(old(self)@) ==> r == Outcome::OutOfBounds,
            old(self)@.unexplored() && old(self)@.no_obstacles() ==> r == Outcome::OutOfBounds,
    {
        let ghost g0 = self@;
        let ghost fuel0: nat = 4 * g0.len();
        let ghost mut f: nat = fuel0;
        proof {
            lemma_count_true_le(self.visited@);
            if g0.unexplored() && (ray_clear(g0) || g0.no_obstacles()) {
                assert(ray_clear(g0));
                lemma_run_clear_ray(g0, fuel0);
            }
        }
        loop
            invariant
                self.wf(),
                g0 == old(self)@,
                fuel0 == 4 * old(self)@.len(),
                f + count_true(self@.seen) >= 4 * self@.len(),
                self@.len() == g0.len(),
                run_model(g0, fuel0) == run_model(self@, f),
                g0.unexplored() && (ray_clear(g0) || g0.no_obstacles()) ==> run_model(
                    g0,
                    fuel0,
                ).1 == Some(Outcome::OutOfBounds),
            decreases f,
        {
            let ghost pre = self@;
            let r = self.move_guard();
            match r {
                Some(2) => {
                    return Outcome::LoopDetected;
                },
                None => {
                    return Outcome::OutOfBounds;
                },
                _ => {
                    proof {
                        assert(!pre.seen[pre.slot()]);
                        assert(0 <= pre.slot() < pre.seen.len());
                        lemma_count_true_update(pre.seen, pre.slot());
                        lemma_count_true_le(pre.seen.update(pre.slot(), true));
                        assert(f >= 1);
                        f = (f - 1) as nat;
                    }
                },
            }
        }
    }

    /// The same grid with an obstacle written into cell `p`.
    pub fn with_obstacle(&self, p: usize) -> (g: Grid)
        requires
            self.wf(),
            p < self@.len(),
        ensures
            g.wf(),
            g@ == obstructed(self@, p as int),
    {
        let mut data = copy_chars(&self.data);
        data[p] = 'O';
        let g = Grid {
            cols: self.cols,
            rows: self.rows,
            data,
            guard_pos: self.guard_pos,
            guard_char: self.guard_char,
            visited: copy_flags(&self.visited),
            visited_count: self.visited_count,
            cell_visited: copy_flags(&self.cell_visited),
            cell_count: self.cell_count,
        };
        proof {
            assert(g@ =~= obstructed(self@, p as int));
        }
        g
    }

    /// Number of recorded cells whose blocking traps the marker in a loop.
    /// `explored` is a finished run over this same grid; each of its visited
    /// cells is blocked in turn on a fresh copy of `self` and the simulation
    /// re-run.
    pub fn count_loop_positions(&self, explored: &Grid) -> (n: usize)
        requires
            self.wf(),
            explored.wf(),
            explored@.len() == self@.len(),
        ensures
            n == blocked_loop_count(self@, explored@.seen_cells, self@.len() as int),
    {
        let mut n: usize = 0;
        let mut p: usize = 0;
        while p < self.data.len()
            invariant
                self.wf(),
                explored.wf(),
                explored@.len() == self@.len(),
                0 <= p <= self@.len(),
                n <= p,
                n == blocked_loop_count(self@, explored@.seen_cells, p as int),
            decreases self@.len() - p,
        {
            if explored.cell_visited[p] {
                let mut trial = self.with_obstacle(p);
                let ghost t0 = trial@;
                let r = trial.run_simulation();
                proof {
                    assert(t0.len() == self@.len());
                }
                if r == Outcome::LoopDetected {
                    n += 1;
                }
            }
            p += 1;
        }
        n
    }

    /// Renders the grid, one line per row.
    pub fn show(&self) -> (r: String)
        requires
            self.wf(),
        ensures
            r@ == rendered(self@.cells, self@.cols as int, self@.len() as int),
    {
        let mut outstr = String::new();
        let mut ctr: usize = 0;
        while ctr < self.data.len()
            invariant
                self.wf(),
                0 <= ctr <= self@.len(),
                outstr@ == rendered(self@.cells, self@.cols as int, ctr as int),
            decreases self@.len() - ctr,
        {
            let c = self.data[ctr];
            push_char(&mut outstr, c);
            ctr += 1;
            if ctr % self.cols == 0 {
                push_char(&mut outstr, '\n');
                proof {
                    assert(outstr@ =~= rendered(self@.cells, self@.cols as int, ctr as int));
                }
            } else {
                proof {
                    assert(outstr@ =~= rendered(self@.cells, self@.cols as int, ctr as int));
                }
            }
        }
        outstr
    }
}

/// The grid text rendered back: cell after cell, a newline after each row.
pub open spec fn rendered(cells: Seq<char>, cols: int, i: int) -> Seq<char>
    decreases i,
{
    if i <= 0 {
        Seq::empty()
    } else {
        rendered(cells, cols, i - 1) + seq![cells[i - 1]] + if i % cols == 0 {
            seq!['\n']
        } else {
            Seq::<char>::empty()
        }
    }
}

/// The model with an obstacle written into cell `p`.
pub open spec fn obstructed(g: GridModel, p: int) -> GridModel {
    GridModel { cells: g.cells.update(p, 'O'), ..g }
}

/// Whether blocking cell `p` makes the simulation end in a detected loop.
pub open spec fn loops_when_blocked(g: GridModel, p: int) -> bool {
    run_model(obstructed(g, p), 4 * g.len()).1 == Some(Outcome::LoopDetected)
}

/// Number of cells below `i` that are flagged in `seen_cells` and loop when
/// blocked.
pub open spec fn blocked_loop_count(g: GridModel, seen_cells: Seq<bool>, i: int) -> nat
    decreases i,
{
    if i <= 0 {
        0
    } else {
        blocked_loop_count(g, seen_cells, i - 1) + if seen_cells[i - 1] && loops_when_blocked(
            g,
            i - 1,
        ) {
            1nat
        } else {
            0nat
        }
    }
}

/// Relies on String::push: appends exactly the one character.
#[verifier::external_body]
fn push_char(s: &mut String, c: char)
    ensures
        final(s)@ == old(s)@.push(c),
{
    s.push(c);
}

fn copy_chars(v: &Vec<char>) -> (r: Vec<char>)
    ensures
        r@ == v@,
{
    let mut r: Vec<char> = Vec::new();
    let mut i: usize = 0;
    while i < v.len()
        invariant
            0 <= i <= v@.len(),
            r@ == v@.take(i as int),
        decreases v@.len() - i,
    {
        r.push(v[i]);
        proof {
            assert(r@ =~= v@.take(i + 1 as int));
        }
        i += 1;
    }
    proof {
        assert(v@.take(v@.len() as int) =~= v@);
    }
    r
}

fn copy_flags(v: &Vec<bool>) -> (r: Vec<bool>)
    ensures
        r@ == v@,
{
    let mut r: Vec<bool> = Vec::new();
    let mut i: usize = 0;
    while i < v.len()
        invariant
            0 <= i <= v@.len(),
            r@ == v@.take(i as int),
        decreases v@.len() - i,
    {
        r.push(v[i]);
        proof {
            assert(r@ =~= v@.take(i + 1 as int));
        }
        i += 1;
    }
    proof {
        assert(v@.take(v@.len() as int) =~= v@);
    }
    r
}

/// The cell `p` lies strictly ahead of coordinate (x, y) in facing `f`.
pub open spec fn ahead(p: int, x: int, y: int, f: char, cols: int) -> bool {
    if f == '^' {
        p % cols == x && p / cols < y
    } else if f == 'v' {
        p % cols == x && p / cols > y
    } else if f == '>' {
        p / cols == y && p % cols > x
    } else {
        p / cols == y && p % cols < x
    }
}

/// No obstacle stands anywhere ahead of the marker on its current ray: the
/// marker can reach no obstacle, since an unblocked marker never turns.
pub open spec fn ray_clear(g: GridModel) -> bool {
    let c = g.cols as int;
    let x = g.pos as int % c;
    let y = g.pos as int / c;
    forall|p: int|
        0 <= p < g.cells.len() && is_obstacle(#[trigger] g.cells[p]) ==> !ahead(
            p,
            x,
            y,
            g.facing,
            c,
        )
}

/// Every recorded state lies strictly behind the marker on its current ray.
pub open spec fn behind(p: int, cur: int, f: char, cols: int) -> bool {
    if f == '^' {
        p % cols == cur % cols && p / cols > cur / cols
    } else if f == 'v' {
        p % cols == cur % cols && p / cols < cur / cols
    } else if f == '>' {
        p / cols == cur / cols && p % cols < cur % cols
    } else {
        p / cols == cur / cols && p % cols > cur % cols
    }
}

/// All recorded states share the marker's facing and lie behind it.
pub open spec fn ray_ok(g: GridModel) -> bool {
    forall|s: int|
        0 <= s < g.seen.len() && #[trigger] g.seen[s] ==> s % 4 == dir_index(g.facing)
            && behind(s / 4, g.pos as int, g.facing, g.cols as int)
}

/// Coordinates of the cell ahead: it lies inside the grid, differs from the
/// current cell, and sits one row or column over in the facing's direction.
proof fn lemma_next_coords(g: GridModel)
    requires
        g.wf(),
    ensures
        ({
            let c = g.cols as int;
            let x = g.pos as int % c;
            let y = g.pos as int / c;
            match g.next_pos() {
                Some(np) => {
                    &&& 0 <= np < g.len()
                    &&& np != g.pos as int
                    &&& (g.facing == '^' ==> np % c == x && np / c == y - 1)
                    &&& (g.facing == 'v' ==> np % c == x && np / c == y + 1)
                    &&& (g.facing == '>' ==> np / c == y && np % c == x + 1)
                    &&& (g.facing == '<' ==> np / c == y && np % c == x - 1)
                },
                None => true,
            }
        }),
{
    let c = g.cols as int;
    let rws = g.rows as int;
    let pos = g.pos as int;
    let x = pos % c;
    let y = pos / c;
    lemma_fundamental_div_mod(pos, c);
    assert(0 <= x < c) by (nonlinear_arith)
        requires
            c > 0,
            x == pos % c,
    ;
    assert(0 <= y < rws) by (nonlinear_arith)
        requires
            pos == c * y + x,
            0 <= x < c,
            0 <= pos < c * rws,
    ;
    match g.next_pos() {
        None => {},
        Some(np) => {
        if g.facing == '^' {
            assert(np == (y - 1) * c + x);
            assert(0 <= np < c * rws) by (nonlinear_arith)
                requires
                    np == (y - 1) * c + x,
                    1 <= y < rws,
                    0 <= x < c,
            ;
            vstd::arithmetic::div_mod::lemma_fundamental_div_mod_converse(np, c, y - 1, x);
        } else if g.facing == 'v' {
            assert(np == (y + 1) * c + x);
            assert(0 <= np < c * rws) by (nonlinear_arith)
                requires
                    np == (y + 1) * c + x,
                    0 <= y,
                    y + 1 < rws,
                    0 <= x < c,
            ;
            vstd::arithmetic::div_mod::lemma_fundamental_div_mod_converse(np, c, y + 1, x);
        } else if g.facing == '>' {
            assert(np == y * c + (x + 1));
            assert(0 <= np < c * rws) by (nonlinear_arith)
                requires
                    np == y * c + (x + 1),
                    0 <= y < rws,
                    0 <= x,
                    x + 1 < c,
            ;
            vstd::arithmetic::div_mod::lemma_fundamental_div_mod_converse(np, c, y, x + 1);
        } else {
            assert(np == y * c + (x - 1));
            assert(0 <= np < c * rws) by (nonlinear_arith)
                requires
                    np == y * c + (x - 1),
                    0 <= y < rws,
                    1 <= x < c,
            ;
            vstd::arithmetic::div_mod::lemma_fundamental_div_mod_converse(np, c, y, x - 1);
        }
        assert(np / c != y || np % c != x);
        assert(pos / c == y && pos % c == x);
        },
    }
}

/// On a grid whose recorded states all lie behind the marker and whose ray
/// ahead is clear of obstacles, the simulation always ends out of bounds:
/// the marker never turns, so it walks a straight ray and can revisit no
/// state.
proof fn lemma_run_clear_ray(g: GridModel, fuel: nat)
    requires
        g.wf(),
        ray_clear(g),
        ray_ok(g),
        fuel + count_true(g.seen) >= 4 * g.len(),
    ensures
        run_model(g, fuel).1 == Some(Outcome::OutOfBounds),
    decreases fuel,
{
    let c = g.cols as int;
    let pos = g.pos as int;
    let x = pos % c;
    let y = pos / c;
    let d = dir_index(g.facing);
    let slot = g.slot();
    vstd::arithmetic::div_mod::lemma_fundamental_div_mod_converse(slot, 4, pos, d);
    assert(!g.seen[slot]) by {
        if g.seen[slot] {
            assert(behind(pos, pos, g.facing, c));
        }
    }
    lemma_count_true_update(g.seen, slot);
    lemma_count_true_le(g.seen.update(slot, true));
    lemma_next_coords(g);
    let stepped = step_model(g);
    match g.next_pos() {
        None => {
        },
        Some(np) => {
            assert(ahead(np, x, y, g.facing, c));
            assert(!is_obstacle(g.cells[np]));
            assert(!is_obstacle(g.cells.update(pos, g.facing)[np]));
            let m = stepped.0;
            assert(m.pos == np && m.facing == g.facing);
            assert(fuel > 0);
            lemma_fundamental_div_mod(pos, c);
            let nx = np % c;
            let ny = np / c;
            assert(ray_clear(m)) by {
                assert forall|q: int|
                    0 <= q < m.cells.len() && is_obstacle(#[trigger] m.cells[q]) implies !ahead(
                    q,
                    nx,
                    ny,
                    m.facing,
                    c,
                ) by {
                    assert(q != pos);
                    assert(m.cells[q] == g.cells[q]);
                    assert(!ahead(q, x, y, g.facing, c));
                }
            }
            assert(ray_ok(m)) by {
                assert forall|s: int|
                    0 <= s < m.seen.len() && #[trigger] m.seen[s] implies s % 4 == dir_index(
                    m.facing,
                ) && behind(s / 4, m.pos as int, m.facing, m.cols as int) by {
                    if s == slot {
                        assert(s % 4 == d && s / 4 == pos);
                        assert(behind(pos, np, g.facing, c));
                    } else {
                        assert(g.seen[s]);
                        assert(behind(s / 4, pos, g.facing, c));
                        assert(behind(s / 4, np, g.facing, c));
                    }
                }
            }
            lemma_run_clear_ray(m, (fuel - 1) as nat);
        },
    }
}

/// An obstacle directly ahead of a fresh marker turns it clockwise on the
/// first step; the marker does not move.
pub proof fn lemma_obstacle_ahead_turns(g: GridModel, np: int)
    requires
        g.wf(),
        g.unexplored(),
        g.next_pos() == Some(np),
        is_obstacle(g.cells[np]),
    ensures
        step_model(g).1 == Some(1usize),
        step_model(g).0.pos == g.pos,
        step_model(g).0.facing == rotate_spec(g.facing),
{
    let pos = g.pos as int;
    let d = dir_index(g.facing);
    let slot = g.slot();
    vstd::arithmetic::div_mod::lemma_fundamental_div_mod_converse(slot, 4, pos, d);
    assert(0 <= slot < g.seen.len());
    assert(!g.seen[slot]);
    lemma_next_coords(g);
    assert(np != pos);
    assert(g.cells.update(pos, g.facing)[np] == g.cells[np]);
}

} // verus!
