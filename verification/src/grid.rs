//! The cell grid: topology, neighbour counting, and one-generation steps.

use vstd::prelude::*;
use crate::rule::{conway_rule, Rule};
use crate::state::{DEAD, LIVE, REFRACTORY};

pub use crate::state;

verus! {

/// Grids with this many cells (or more) are worth stepping in bands of rows
/// on several threads (see `Grid::life_rows` and `Grid::brain_rows`); the
/// result is the same as a row-order step.
pub const PARALLEL_THRESHOLD: usize = 20000;

/// Cellular-automaton grid with cell ages and topology.
///
/// Cells are `u8` states: for binary Life-like rules, `0` = dead and `1` = live.
/// Multi-state rules (e.g. Brian's Brain) use more values; see [`state`].
#[derive(Clone, Debug)]
pub struct Grid {
    pub w: usize,
    pub h: usize,
    /// When `true` (default), edges wrap toroidally; when `false`, out-of-bounds
    /// neighbours count as dead.
    pub wrap: bool,
    /// Maximum number of distinct cell states (2 = binary, 3 = Brian's Brain).
    pub states: u8,
    /// Cell values: `0` = dead; non-zero meaning depends on automaton.
    pub cells: Vec<u8>,
    /// Age of each cell: 0 = dead, 1 = newborn, increases each step while non-zero.
    pub ages: Vec<u16>,
}

/// Births and deaths produced by one step.
#[derive(Debug, Clone, Copy, PartialEq, Eq, Default, Structural)]
pub struct StepStats {
    pub births: usize,
    pub deaths: usize,
}

/// Whether a neighbour cell value counts: equal to `m`, or non-zero when `m` is `None`.
pub open spec fn cell_hit(c: u8, m: Option<u8>) -> bool {
    match m {
        Some(s) => c == s,
        None => c != 0,
    }
}

/// Whether the neighbour at offset `(dx, dy)` of `(x, y)` counts. With `wrap`
/// the offset is taken modulo the dimensions; otherwise an off-grid neighbour
/// does not count.
pub open spec fn neighbour_hit(
    cells: Seq<u8>,
    w: int,
    h: int,
    wrap: bool,
    x: int,
    y: int,
    dx: int,
    dy: int,
    m: Option<u8>,
) -> bool {
    let nx = x + dx;
    let ny = y + dy;
    if wrap {
        cell_hit(cells[(ny % h) * w + nx % w], m)
    } else if 0 <= nx < w && 0 <= ny < h {
        cell_hit(cells[ny * w + nx], m)
    } else {
        false
    }
}

pub open spec fn b2i(b: bool) -> int {
    if b {
        1
    } else {
        0
    }
}

/// Number of the eight neighbours of `(x, y)` that count.
pub open spec fn neighbour_count(
    cells: Seq<u8>,
    w: int,
    h: int,
    wrap: bool,
    x: int,
    y: int,
    m: Option<u8>,
) -> int {
    b2i(neighbour_hit(cells, w, h, wrap, x, y, -1, -1, m)) + b2i(
        neighbour_hit(cells, w, h, wrap, x, y, 0, -1, m),
    ) + b2i(neighbour_hit(cells, w, h, wrap, x, y, 1, -1, m)) + b2i(
        neighbour_hit(cells, w, h, wrap, x, y, -1, 0, m),
    ) + b2i(neighbour_hit(cells, w, h, wrap, x, y, 1, 0, m)) + b2i(
        neighbour_hit(cells, w, h, wrap, x, y, -1, 1, m),
    ) + b2i(neighbour_hit(cells, w, h, wrap, x, y, 0, 1, m)) + b2i(
        neighbour_hit(cells, w, h, wrap, x, y, 1, 1, m),
    )
}

/// Inputs for which neighbour counting is defined: the cells cover the grid,
/// the coordinates fit the `i32` offsets, and a wrapping grid is non-empty.
pub open spec fn neighbour_args_ok(
    len: int,
    w: int,
    h: int,
    wrap: bool,
    x: int,
    y: int,
) -> bool {
    &&& w * h <= len
    &&& w <= i32::MAX
    &&& h <= i32::MAX
    &&& x < i32::MAX
    &&& y < i32::MAX
    &&& (wrap ==> w > 0 && h > 0)
}

/// `u16` addition that stops at `u16::MAX`.
pub open spec fn sat_inc(a: u16) -> u16 {
    if a == u16::MAX {
        a
    } else {
        (a + 1) as u16
    }
}

/// Brian's Brain transition of one cell of age `age`: `(next_state,
/// next_age)`, birth flag, death flag. A dead cell with exactly two firing
/// neighbours is born firing (age 1); a firing cell turns refractory and ages
/// by one (saturating); any other non-zero cell dies, which counts as a death.
pub open spec fn spec_brians_next(cur: u8, firing: u8, age: u16) -> ((u8, u16), usize, usize) {
    if cur == DEAD {
        if firing == 2 {
            ((LIVE, 1), 1, 0)
        } else {
            ((DEAD, 0), 0, 0)
        }
    } else if cur == LIVE {
        ((REFRACTORY, sat_inc(age)), 0, 0)
    } else {
        ((DEAD, 0), 0, 1)
    }
}

proof fn lemma_index_bound(x: int, y: int, w: int, h: int)
    requires
        0 <= x < w,
        0 <= y < h,
    ensures
        0 <= y * w + x < w * h,
        y * w + x + 1 <= w * h,
{
    assert(y * w + x < w * h) by (nonlinear_arith)
        requires
            0 <= x < w,
            0 <= y < h,
    ;
    assert(0 <= y * w) by (nonlinear_arith)
        requires
            0 <= x < w,
            0 <= y < h,
    ;
}

proof fn lemma_index_split(i: int, x: int, y: int, w: int)
    requires
        0 <= x < w,
        0 <= y,
        i == y * w + x,
    ensures
        i % w == x,
        i / w == y,
{
    vstd::arithmetic::div_mod::lemma_fundamental_div_mod_converse(i, w, y, x);
}

/// Whether one neighbour, at offset `(dx, dy)` with each in `-1..=1`, counts.
fn neighbour_hits(
    cells: &[u8],
    w: usize,
    h: usize,
    wrap: bool,
    x: usize,
    y: usize,
    dx: i32,
    dy: i32,
    m: Option<u8>,
) -> (b: bool)
    requires
        neighbour_args_ok(cells@.len() as int, w as int, h as int, wrap, x as int, y as int),
        -1 <= dx <= 1,
        -1 <= dy <= 1,
    ensures
        b == neighbour_hit(cells@, w as int, h as int, wrap, x as int, y as int, dx as int, dy as int, m),
{
    let cell: u8;
    if wrap {
        let nx: usize = if dx < 0 {
            if x == 0 {
                w - 1
            } else {
                (x - 1) % w
            }
        } else if dx > 0 {
            (x + 1) % w
        } else {
            x % w
        };
        let ny: usize = if dy < 0 {
            if y == 0 {
                h - 1
            } else {
                (y - 1) % h
            }
        } else if dy > 0 {
            (y + 1) % h
        } else {
            y % h
        };
        proof {
            if x == 0 && dx < 0 {
                vstd::arithmetic::div_mod::lemma_fundamental_div_mod_converse(-1, w as int, -1, w - 1);
            }
            if y == 0 && dy < 0 {
                vstd::arithmetic::div_mod::lemma_fundamental_div_mod_converse(-1, h as int, -1, h - 1);
            }
            assert(nx as int == (x + dx) % (w as int));
            assert(ny as int == (y + dy) % (h as int));
            lemma_index_bound(nx as int, ny as int, w as int, h as int);
            assert(cells@.len() == cells.len());
            assert(ny * w + nx < cells.len());
            assert(ny * w <= ny * w + nx);
        }
        cell = cells[ny * w + nx];
    } else {
        let in_x = if dx < 0 {
            x >= 1 && x - 1 < w
        } else if dx > 0 {
            x + 1 < w
        } else {
            x < w
        };
        let in_y = if dy < 0 {
            y >= 1 && y - 1 < h
        } else if dy > 0 {
            y + 1 < h
        } else {
            y < h
        };
        if !(in_x && in_y) {
            return false;
        }
        let nx: usize = if dx < 0 {
            x - 1
        } else if dx > 0 {
            x + 1
        } else {
            x
        };
        let ny: usize = if dy < 0 {
            y - 1
        } else if dy > 0 {
            y + 1
        } else {
            y
        };
        proof {
            lemma_index_bound(nx as int, ny as int, w as int, h as int);
            assert(cells@.len() == cells.len());
            assert(ny * w + nx < cells.len());
            assert(ny * w <= ny * w + nx);
        }
        cell = cells[ny * w + nx];
    }
    match m {
        Some(s) => cell == s,
        None => cell != 0,
    }
}

/// Neighbour count against a cell slice.
///
/// If `match_state` is `None`, counts any non-zero cell; otherwise counts cells
/// equal to that state (used for Brian's Brain firing neighbours).
pub fn count_neighbors_slice(
    cells: &[u8],
    w: usize,
    h: usize,
    wrap: bool,
    x: usize,
    y: usize,
    match_state: Option<u8>,
) -> (n: u8)
    requires
        neighbour_args_ok(cells@.len() as int, w as int, h as int, wrap, x as int, y as int),
    ensures
        n as int == neighbour_count(cells@, w as int, h as int, wrap, x as int, y as int, match_state),
        n <= 8,
{
    let mut n: u8 = 0;
    if neighbour_hits(cells, w, h, wrap, x, y, -1, -1, match_state) {
        n += 1;
    }
    if neighbour_hits(cells, w, h, wrap, x, y, 0, -1, match_state) {
        n += 1;
    }
    if neighbour_hits(cells, w, h, wrap, x, y, 1, -1, match_state) {
        n += 1;
    }
    if neighbour_hits(cells, w, h, wrap, x, y, -1, 0, match_state) {
        n += 1;
    }
    if neighbour_hits(cells, w, h, wrap, x, y, 1, 0, match_state) {
        n += 1;
    }
    if neighbour_hits(cells, w, h, wrap, x, y, -1, 1, match_state) {
        n += 1;
    }
    if neighbour_hits(cells, w, h, wrap, x, y, 0, 1, match_state) {
        n += 1;
    }
    if neighbour_hits(cells, w, h, wrap, x, y, 1, 1, match_state) {
        n += 1;
    }
    n
}

/// `(next_state, next_age)`, birth flag (0/1), death flag (0/1).
fn brians_next(cur: u8, firing_neighbors: u8, age: u16) -> (r: ((u8, u16), usize, usize))
    ensures
        r == spec_brians_next(cur, firing_neighbors, age),
{
    if cur == DEAD {
        if firing_neighbors == 2 {
            ((LIVE, 1), 1, 0)
        } else {
            ((DEAD, 0), 0, 0)
        }
    } else if cur == LIVE {
        ((REFRACTORY, age.saturating_add(1)), 0, 0)
    } else {
        ((DEAD, 0), 0, 1)
    }
}


impl Grid {
    /// Cell and age buffers cover the grid.
    pub open spec fn wf(&self) -> bool {
        &&& self.cells@.len() == self.w * self.h
        &&& self.ages@.len() == self.w * self.h
    }

    /// A grid whose dimensions fit the `i32` neighbour offsets.
    pub open spec fn steppable(&self) -> bool {
        &&& self.wf()
        &&& self.w <= i32::MAX
        &&& self.h <= i32::MAX
    }

    /// State of cell `(x, y)`, or 0 off the grid.
    pub open spec fn state_at(&self, x: int, y: int) -> u8 {
        if 0 <= x < self.w && 0 <= y < self.h {
            self.cells@[y * self.w + x]
        } else {
            0
        }
    }

    /// Age of cell `(x, y)`, or 0 off the grid.
    pub open spec fn spec_age_at(&self, x: int, y: int) -> u16 {
        if 0 <= x < self.w && 0 <= y < self.h {
            self.ages@[y * self.w + x]
        } else {
            0
        }
    }

    /// Non-dead neighbours of the cell with index `i` (row-major).
    pub open spec fn live_neighbours(&self, i: int) -> int {
        neighbour_count(
            self.cells@,
            self.w as int,
            self.h as int,
            self.wrap,
            i % (self.w as int),
            i / (self.w as int),
            None,
        )
    }

    /// Firing neighbours of the cell with index `i` (row-major).
    pub open spec fn firing_neighbours(&self, i: int) -> int {
        neighbour_count(
            self.cells@,
            self.w as int,
            self.h as int,
            self.wrap,
            i % (self.w as int),
            i / (self.w as int),
            Some(LIVE),
        )
    }

    /// Liveness of cell `i` after one Life-like step.
    pub open spec fn life_next_alive(&self, rule: Rule, i: int) -> bool {
        rule.spec_next_alive(self.cells@[i] != 0, self.live_neighbours(i) as u8)
    }

    /// State of cell `i` after one Life-like step.
    pub open spec fn life_next_state(&self, rule: Rule, i: int) -> u8 {
        if self.life_next_alive(rule, i) {
            LIVE
        } else {
            DEAD
        }
    }

    /// Age of cell `i` after one Life-like step: dead 0, newborn 1, survivor +1
    /// (saturating).
    pub open spec fn life_next_age(&self, rule: Rule, i: int) -> u16 {
        if self.life_next_alive(rule, i) {
            if self.cells@[i] != 0 {
                sat_inc(self.ages@[i])
            } else {
                1
            }
        } else {
            0
        }
    }

    /// Cells among the first `k` that are born in a Life-like step.
    pub open spec fn life_births_upto(&self, rule: Rule, k: int) -> nat
        decreases k,
    {
        if k <= 0 {
            0
        } else {
            self.life_births_upto(rule, k - 1) + if self.cells@[k - 1] == 0
                && self.life_next_alive(rule, k - 1) {
                1nat
            } else {
                0nat
            }
        }
    }

    /// Cells among the first `k` that die in a Life-like step.
    pub open spec fn life_deaths_upto(&self, rule: Rule, k: int) -> nat
        decreases k,
    {
        if k <= 0 {
            0
        } else {
            self.life_deaths_upto(rule, k - 1) + if self.cells@[k - 1] != 0
                && !self.life_next_alive(rule, k - 1) {
                1nat
            } else {
                0nat
            }
        }
    }

    /// Brian's Brain transition of cell `i`.
    pub open spec fn brain_next(&self, i: int) -> ((u8, u16), usize, usize) {
        spec_brians_next(self.cells@[i], self.firing_neighbours(i) as u8, self.ages@[i])
    }

    /// Sum of the Brian's Brain birth flags of the first `k` cells.
    pub open spec fn brain_births_upto(&self, k: int) -> nat
        decreases k,
    {
        if k <= 0 {
            0
        } else {
            self.brain_births_upto(k - 1) + self.brain_next(k - 1).1 as nat
        }
    }

    /// Sum of the Brian's Brain death flags of the first `k` cells.
    pub open spec fn brain_deaths_upto(&self, k: int) -> nat
        decreases k,
    {
        if k <= 0 {
            0
        } else {
            self.brain_deaths_upto(k - 1) + self.brain_next(k - 1).2 as nat
        }
    }

    /// Number of cells among the first `k` that satisfy `p`.
    pub open spec fn count_cells(cells: Seq<u8>, k: int, p: spec_fn(u8) -> bool) -> nat
        decreases k,
    {
        if k <= 0 {
            0
        } else {
            Self::count_cells(cells, k - 1, p) + if p(cells[k - 1]) {
                1nat
            } else {
                0nat
            }
        }
    }

    /// Number of non-dead cells.
    pub open spec fn spec_population(&self) -> nat {
        Self::count_cells(self.cells@, self.cells@.len() as int, |c: u8| c != 0)
    }

    /// Create a toroidal (wrap-around) binary grid.
    pub fn new(w: usize, h: usize) -> (g: Self)
        requires
            w * h <= usize::MAX,
        ensures
            g.wf(),
            g.w == w,
            g.h == h,
            g.wrap,
            g.states == 2,
            g.cells@ == Seq::new((w * h) as nat, |i: int| 0u8),
            g.ages@ == Seq::new((w * h) as nat, |i: int| 0u16),
    {
        Self::with_wrap(w, h, true)
    }

    /// Create a binary grid with explicit topology.
    pub fn with_wrap(w: usize, h: usize, wrap: bool) -> (g: Self)
        requires
            w * h <= usize::MAX,
        ensures
            g.wf(),
            g.w == w,
            g.h == h,
            g.wrap == wrap,
            g.states == 2,
            g.cells@ == Seq::new((w * h) as nat, |i: int| 0u8),
            g.ages@ == Seq::new((w * h) as nat, |i: int| 0u16),
    {
        Self::with_states(w, h, wrap, 2)
    }

    /// Create a grid with explicit topology and max state count (at least 2).
    pub fn with_states(w: usize, h: usize, wrap: bool, states: u8) -> (g: Self)
        requires
            w * h <= usize::MAX,
        ensures
            g.wf(),
            g.w == w,
            g.h == h,
            g.wrap == wrap,
            g.states == (if states < 2 { 2 } else { states }),
            g.cells@ == Seq::new((w * h) as nat, |i: int| 0u8),
            g.ages@ == Seq::new((w * h) as nat, |i: int| 0u16),
    {
        let states = if states < 2 {
            2
        } else {
            states
        };
        let n = w * h;
        let mut cells: Vec<u8> = Vec::new();
        let mut ages: Vec<u16> = Vec::new();
        let mut i: usize = 0;
        while i < n
            invariant
                i <= n,
                cells@ == Seq::new(i as nat, |j: int| 0u8),
                ages@ == Seq::new(i as nat, |j: int| 0u16),
            decreases n - i,
        {
            cells.push(0);
            ages.push(0);
            i += 1;
        }
        Grid { w, h, wrap, states, cells, ages }
    }

    /// Row-major index of `(x, y)`.
    pub fn idx(&self, x: usize, y: usize) -> (i: usize)
        requires
            y * self.w + x <= usize::MAX,
        ensures
            i == y * self.w + x,
    {
        y * self.w + x
    }

    /// True if cell is non-dead (any non-zero state).
    pub fn get(&self, x: usize, y: usize) -> (b: bool)
        requires
            self.wf(),
        ensures
            b == (self.state_at(x as int, y as int) != 0),
    {
        self.get_state(x, y) != 0
    }

    /// Raw cell state at (x, y), or 0 if out of bounds.
    pub fn get_state(&self, x: usize, y: usize) -> (s: u8)
        requires
            self.wf(),
        ensures
            s == self.state_at(x as int, y as int),
    {
        if x < self.w && y < self.h {
            proof {
                lemma_index_bound(x as int, y as int, self.w as int, self.h as int);
                assert(self.cells.len() == self.cells@.len());
            }
            self.cells[self.idx(x, y)]
        } else {
            0
        }
    }

    /// Age of cell at (x, y), or 0 if out of bounds / dead.
    pub fn age_at(&self, x: usize, y: usize) -> (a: u16)
        requires
            self.wf(),
        ensures
            a == self.spec_age_at(x as int, y as int),
    {
        if x < self.w && y < self.h {
            proof {
                lemma_index_bound(x as int, y as int, self.w as int, self.h as int);
                assert(self.cells.len() == self.cells@.len());
            }
            self.ages[self.idx(x, y)]
        } else {
            0
        }
    }

    /// Set binary live/dead (state 0 or 1).
    pub fn set(&mut self, x: usize, y: usize, v: bool)
        requires
            old(self).wf(),
        ensures
            final(self).wf(),
            final(self).w == old(self).w,
            final(self).h == old(self).h,
            final(self).wrap == old(self).wrap,
            final(self).states == old(self).states,
            x < old(self).w && y < old(self).h ==> {
                let i = y * old(self).w + x;
                let s: u8 = if v && old(self).states >= 2 { LIVE } else { DEAD };
                &&& final(self).cells@ == old(self).cells@.update(i, s)
                &&& final(self).ages@ == old(self).ages@.update(i, if s != 0 { 1u16 } else { 0u16 })
            },
            !(x < old(self).w && y < old(self).h) ==> final(self).cells@ == old(self).cells@
                && final(self).ages@ == old(self).ages@,
    {
        self.set_state(x, y, if v { LIVE } else { DEAD });
    }

    /// Set an arbitrary cell state (clamped to `states - 1`).
    pub fn set_state(&mut self, x: usize, y: usize, v: u8)
        requires
            old(self).wf(),
        ensures
            final(self).wf(),
            final(self).w == old(self).w,
            final(self).h == old(self).h,
            final(self).wrap == old(self).wrap,
            final(self).states == old(self).states,
            x < old(self).w && y < old(self).h ==> {
                let i = y * old(self).w + x;
                let max: u8 = if old(self).states == 0 { 0 } else { (old(self).states - 1) as u8 };
                let s: u8 = if v < max { v } else { max };
                &&& final(self).cells@ == old(self).cells@.update(i, s)
                &&& final(self).ages@ == old(self).ages@.update(i, if s != 0 { 1u16 } else { 0u16 })
            },
            !(x < old(self).w && y < old(self).h) ==> final(self).cells@ == old(self).cells@
                && final(self).ages@ == old(self).ages@,
    {
        if x < self.w && y < self.h {
            proof {
                lemma_index_bound(x as int, y as int, self.w as int, self.h as int);
                assert(self.cells.len() == self.cells@.len());
            }
            let i = self.idx(x, y);
            let max = self.states.saturating_sub(1);
            let v = if v < max {
                v
            } else {
                max
            };
            self.cells.set(i, v);
            self.ages.set(i, if v != 0 { 1 } else { 0 });
        }
    }

    /// Kill every cell and reset every age.
    pub fn clear(&mut self)
        requires
            old(self).wf(),
        ensures
            final(self).wf(),
            final(self).w == old(self).w,
            final(self).h == old(self).h,
            final(self).wrap == old(self).wrap,
            final(self).states == old(self).states,
            final(self).cells@ == Seq::new(old(self).cells@.len(), |i: int| 0u8),
            final(self).ages@ == Seq::new(old(self).ages@.len(), |i: int| 0u16),
    {
        let n = self.cells.len();
        let mut i: usize = 0;
        while i < n
            invariant
                i <= n == self.cells@.len() == self.ages@.len(),
                self.w == old(self).w,
                self.h == old(self).h,
                self.wrap == old(self).wrap,
                self.states == old(self).states,
                old(self).wf(),
                forall|j: int| 0 <= j < i ==> self.cells@[j] == 0u8 && self.ages@[j] == 0u16,
            decreases n - i,
        {
            self.cells.set(i, 0);
            self.ages.set(i, 0);
            i += 1;
        }
        assert(self.cells@ =~= Seq::new(old(self).cells@.len(), |i: int| 0u8));
        assert(self.ages@ =~= Seq::new(old(self).ages@.len(), |i: int| 0u16));
    }

    /// Count non-zero neighbours (Life-like).
    pub fn count_neighbors(&self, x: usize, y: usize) -> (n: u8)
        requires
            self.wf(),
            self.w <= i32::MAX,
            self.h <= i32::MAX,
            x < i32::MAX,
            y < i32::MAX,
            self.wrap ==> self.w > 0 && self.h > 0,
        ensures
            n as int == neighbour_count(self.cells@, self.w as int, self.h as int, self.wrap, x as int, y as int, None),
    {
        count_neighbors_slice(self.cells.as_slice(), self.w, self.h, self.wrap, x, y, None)
    }

    /// Count neighbours whose state equals `match_state` (e.g. firing = 1).
    pub fn count_neighbors_state(&self, x: usize, y: usize, match_state: u8) -> (n: u8)
        requires
            self.wf(),
            self.w <= i32::MAX,
            self.h <= i32::MAX,
            x < i32::MAX,
            y < i32::MAX,
            self.wrap ==> self.w > 0 && self.h > 0,
        ensures
            n as int == neighbour_count(
                self.cells@,
                self.w as int,
                self.h as int,
                self.wrap,
                x as int,
                y as int,
                Some(match_state),
            ),
    {
        count_neighbors_slice(
            self.cells.as_slice(),
            self.w,
            self.h,
            self.wrap,
            x,
            y,
            Some(match_state),
        )
    }
}


impl Grid {
    /// Next states and ages of rows `y0..y1` under a Life-like rule, in row
    /// order, with the births and deaths among them: the share of one worker
    /// when a step is split into bands of rows.
    pub fn life_rows(&self, rule: &Rule, y0: usize, y1: usize) -> (r: (Vec<u8>, Vec<u16>, StepStats))
        requires
            self.steppable(),
            y0 <= y1 <= self.h,
        ensures
            r.0@.len() == (y1 - y0) * self.w,
            r.1@.len() == (y1 - y0) * self.w,
            forall|j: int|
                0 <= j < (y1 - y0) * self.w ==> r.0@[j] == self.life_next_state(*rule, y0 * self.w + j)
                    && r.1@[j] == self.life_next_age(*rule, y0 * self.w + j),
            r.2.births == self.life_births_upto(*rule, y1 * self.w) - self.life_births_upto(*rule, y0 * self.w),
            r.2.deaths == self.life_deaths_upto(*rule, y1 * self.w) - self.life_deaths_upto(*rule, y0 * self.w),
            r.2.births + r.2.deaths <= r.0@.len(),
    {
        let w = self.w;
        let h = self.h;
        let mut next: Vec<u8> = Vec::new();
        let mut next_ages: Vec<u16> = Vec::new();
        let mut births: usize = 0;
        let mut deaths: usize = 0;
        proof {
            assert(y0 * w <= y1 * w <= h * w) by (nonlinear_arith)
                requires
                    y0 <= y1 <= h,
            ;
            assert(h * w == w * h) by (nonlinear_arith);
            assert(self.cells@.len() <= usize::MAX) by {
                assert(self.cells.len() == self.cells@.len());
            }
        }
        let base: usize = y0 * w;
        let mut i: usize = base;
        let mut y: usize = y0;
        while y < y1
            invariant
                self.steppable(),
                w == self.w,
                h == self.h,
                y0 <= y <= y1,
                y1 <= h,
                base == y0 * w,
                i == y * w,
                next@.len() == i - base,
                next_ages@.len() == i - base,
                forall|j: int|
                    0 <= j < i - base ==> next@[j] == self.life_next_state(*rule, base + j)
                        && next_ages@[j] == self.life_next_age(*rule, base + j),
                births == self.life_births_upto(*rule, i as int) - self.life_births_upto(*rule, base as int),
                deaths == self.life_deaths_upto(*rule, i as int) - self.life_deaths_upto(*rule, base as int),
                births + deaths <= i - base,
            decreases h - y,
        {
            let mut x: usize = 0;
            while x < w
                invariant
                    self.steppable(),
                    w == self.w,
                    h == self.h,
                    y0 <= y < y1,
                    y1 <= h,
                    base == y0 * w,
                    base <= y * w,
                    x <= w,
                    i == y * w + x,
                    next@.len() == i - base,
                    next_ages@.len() == i - base,
                    forall|j: int|
                        0 <= j < i - base ==> next@[j] == self.life_next_state(*rule, base + j)
                            && next_ages@[j] == self.life_next_age(*rule, base + j),
                    births == self.life_births_upto(*rule, i as int) - self.life_births_upto(*rule, base as int),
                    deaths == self.life_deaths_upto(*rule, i as int) - self.life_deaths_upto(*rule, base as int),
                    births + deaths <= i - base,
                decreases w - x,
            {
                proof {
                    lemma_index_bound(x as int, y as int, w as int, h as int);
                    lemma_index_split(i as int, x as int, y as int, w as int);
                    assert(self.cells.len() == self.cells@.len());
                }
                let n = count_neighbors_slice(self.cells.as_slice(), w, h, self.wrap, x, y, None);
                let alive = self.cells[i] != 0;
                let next_alive = rule.next_alive(alive, n);
                if next_alive {
                    next.push(LIVE);
                    if alive {
                        next_ages.push(self.ages[i].saturating_add(1));
                    } else {
                        next_ages.push(1);
                        births += 1;
                    }
                } else {
                    next.push(DEAD);
                    next_ages.push(0);
                    if alive {
                        deaths += 1;
                    }
                }
                i += 1;
                x += 1;
            }
            proof {
                assert((y + 1) * w == y * w + w) by (nonlinear_arith);
            }
            y += 1;
        }
        proof {
            assert(i - base == (y1 - y0) * w) by (nonlinear_arith)
                requires
                    i == y * w,
                    y == y1,
                    base == y0 * w,
            ;
        }
        (next, next_ages, StepStats { births, deaths })
    }

    /// Next states and ages of rows `y0..y1` under Brian's Brain, in row
    /// order, with the births and deaths among them: the share of one worker
    /// when a step is split into bands of rows.
    pub fn brain_rows(&self, y0: usize, y1: usize) -> (r: (Vec<u8>, Vec<u16>, StepStats))
        requires
            self.steppable(),
            y0 <= y1 <= self.h,
        ensures
            r.0@.len() == (y1 - y0) * self.w,
            r.1@.len() == (y1 - y0) * self.w,
            forall|j: int|
                0 <= j < (y1 - y0) * self.w ==> r.0@[j] == self.brain_next(y0 * self.w + j).0.0
                    && r.1@[j] == self.brain_next(y0 * self.w + j).0.1,
            r.2.births == self.brain_births_upto(y1 * self.w) - self.brain_births_upto(y0 * self.w),
            r.2.deaths == self.brain_deaths_upto(y1 * self.w) - self.brain_deaths_upto(y0 * self.w),
            r.2.births + r.2.deaths <= r.0@.len(),
    {
        let w = self.w;
        let h = self.h;
        let mut next: Vec<u8> = Vec::new();
        let mut next_ages: Vec<u16> = Vec::new();
        let mut births: usize = 0;
        let mut deaths: usize = 0;
        proof {
            assert(y0 * w <= y1 * w <= h * w) by (nonlinear_arith)
                requires
                    y0 <= y1 <= h,
            ;
            assert(h * w == w * h) by (nonlinear_arith);
            assert(self.cells@.len() <= usize::MAX) by {
                assert(self.cells.len() == self.cells@.len());
            }
        }
        let base: usize = y0 * w;
        let mut i: usize = base;
        let mut y: usize = y0;
        while y < y1
            invariant
                self.steppable(),
                w == self.w,
                h == self.h,
                y0 <= y <= y1,
                y1 <= h,
                base == y0 * w,
                i == y * w,
                next@.len() == i - base,
                next_ages@.len() == i - base,
                forall|j: int|
                    0 <= j < i - base ==> next@[j] == self.brain_next(base + j).0.0 && next_ages@[j]
                        == self.brain_next(base + j).0.1,
                births == self.brain_births_upto(i as int) - self.brain_births_upto(base as int),
                deaths == self.brain_deaths_upto(i as int) - self.brain_deaths_upto(base as int),
                births + deaths <= i - base,
            decreases h - y,
        {
            let mut x: usize = 0;
            while x < w
                invariant
                    self.steppable(),
                    w == self.w,
                    h == self.h,
                    y0 <= y < y1,
                    y1 <= h,
                    base == y0 * w,
                    base <= y * w,
                    x <= w,
                    i == y * w + x,
                    next@.len() == i - base,
                    next_ages@.len() == i - base,
                    forall|j: int|
                        0 <= j < i - base ==> next@[j] == self.brain_next(base + j).0.0 && next_ages@[j]
                            == self.brain_next(base + j).0.1,
                    births == self.brain_births_upto(i as int) - self.brain_births_upto(base as int),
                    deaths == self.brain_deaths_upto(i as int) - self.brain_deaths_upto(base as int),
                    births + deaths <= i - base,
                decreases w - x,
            {
                proof {
                    lemma_index_bound(x as int, y as int, w as int, h as int);
                    lemma_index_split(i as int, x as int, y as int, w as int);
                    assert(self.cells.len() == self.cells@.len());
                }
                let n = count_neighbors_slice(
                    self.cells.as_slice(),
                    w,
                    h,
                    self.wrap,
                    x,
                    y,
                    Some(LIVE),
                );
                let (cell, birth, death) = brians_next(self.cells[i], n, self.ages[i]);
                next.push(cell.0);
                next_ages.push(cell.1);
                births += birth;
                deaths += death;
                i += 1;
                x += 1;
            }
            proof {
                assert((y + 1) * w == y * w + w) by (nonlinear_arith);
            }
            y += 1;
        }
        proof {
            assert(i - base == (y1 - y0) * w) by (nonlinear_arith)
                requires
                    i == y * w,
                    y == y1,
                    base == y0 * w,
            ;
        }
        (next, next_ages, StepStats { births, deaths })
    }

    /// Next-generation buffers and statistics for a Life-like step.
    fn life_next_buffers(&self, rule: &Rule) -> (r: (Vec<u8>, Vec<u16>, StepStats))
        requires
            self.steppable(),
        ensures
            r.0@.len() == self.w * self.h,
            r.1@.len() == self.w * self.h,
            forall|i: int|
                0 <= i < self.w * self.h ==> r.0@[i] == self.life_next_state(*rule, i)
                    && r.1@[i] == self.life_next_age(*rule, i),
            r.2.births == self.life_births_upto(*rule, self.w * self.h),
            r.2.deaths == self.life_deaths_upto(*rule, self.w * self.h),
    {
        let r = self.life_rows(rule, 0, self.h);
        proof {
            assert((self.h - 0) * self.w == self.w * self.h) by (nonlinear_arith);
            assert(self.h * self.w == self.w * self.h) by (nonlinear_arith);
        }
        r
    }

    /// Next-generation buffers and statistics for a Brian's Brain step.
    fn brain_next_buffers(&self) -> (r: (Vec<u8>, Vec<u16>, StepStats))
        requires
            self.steppable(),
        ensures
            r.0@.len() == self.w * self.h,
            r.1@.len() == self.w * self.h,
            forall|i: int|
                0 <= i < self.w * self.h ==> r.0@[i] == self.brain_next(i).0.0 && r.1@[i]
                    == self.brain_next(i).0.1,
            r.2.births == self.brain_births_upto(self.w * self.h),
            r.2.deaths == self.brain_deaths_upto(self.w * self.h),
    {
        let r = self.brain_rows(0, self.h);
        proof {
            assert((self.h - 0) * self.w == self.w * self.h) by (nonlinear_arith);
            assert(self.h * self.w == self.w * self.h) by (nonlinear_arith);
        }
        r
    }

    proof fn lemma_brain_counts_same(a: Grid, b: Grid, k: int)
        requires
            a.cells@ == b.cells@,
            a.ages@ == b.ages@,
            a.w == b.w,
            a.h == b.h,
            a.wrap == b.wrap,
        ensures
            a.brain_births_upto(k) == b.brain_births_upto(k),
            a.brain_deaths_upto(k) == b.brain_deaths_upto(k),
        decreases k,
    {
        if k > 0 {
            Self::lemma_brain_counts_same(a, b, k - 1);
        }
    }

    /// Advance one generation under Conway's rules (B3/S23).
    pub fn step(&mut self) -> (stats: StepStats)
        requires
            old(self).steppable(),
        ensures
            final(self).wf(),
            final(self).w == old(self).w,
            final(self).h == old(self).h,
            final(self).wrap == old(self).wrap,
            final(self).states == old(self).states,
            forall|i: int|
                0 <= i < old(self).w * old(self).h ==> final(self).cells@[i] == old(
                    self,
                ).life_next_state(conway_rule(), i) && final(self).ages@[i] == old(
                    self,
                ).life_next_age(conway_rule(), i),
            stats.births == old(self).life_births_upto(conway_rule(), old(self).w * old(self).h),
            stats.deaths == old(self).life_deaths_upto(conway_rule(), old(self).w * old(self).h),
    {
        self.step_with(&Rule::conway())
    }

    /// Advance one generation under the given Life-like rule (binary).
    ///
    /// Ages: dead → 0; newly born → 1; surviving live cells age +1 (saturates at u16::MAX).
    pub fn step_with(&mut self, rule: &Rule) -> (stats: StepStats)
        requires
            old(self).steppable(),
        ensures
            final(self).wf(),
            final(self).w == old(self).w,
            final(self).h == old(self).h,
            final(self).wrap == old(self).wrap,
            final(self).states == old(self).states,
            forall|i: int|
                0 <= i < old(self).w * old(self).h ==> final(self).cells@[i] == old(
                    self,
                ).life_next_state(*rule, i) && final(self).ages@[i] == old(self).life_next_age(
                    *rule,
                    i,
                ),
            stats.births == old(self).life_births_upto(*rule, old(self).w * old(self).h),
            stats.deaths == old(self).life_deaths_upto(*rule, old(self).w * old(self).h),
    {
        self.step_with_sequential(rule)
    }

    /// Life-like step computed in row order.
    pub fn step_with_sequential(&mut self, rule: &Rule) -> (stats: StepStats)
        requires
            old(self).steppable(),
        ensures
            final(self).wf(),
            final(self).w == old(self).w,
            final(self).h == old(self).h,
            final(self).wrap == old(self).wrap,
            final(self).states == old(self).states,
            forall|i: int|
                0 <= i < old(self).w * old(self).h ==> final(self).cells@[i] == old(
                    self,
                ).life_next_state(*rule, i) && final(self).ages@[i] == old(self).life_next_age(
                    *rule,
                    i,
                ),
            stats.births == old(self).life_births_upto(*rule, old(self).w * old(self).h),
            stats.deaths == old(self).life_deaths_upto(*rule, old(self).w * old(self).h),
    {
        let (next, next_ages, stats) = self.life_next_buffers(rule);
        self.cells = next;
        self.ages = next_ages;
        stats
    }

    /// At most one birth or death per cell.
    proof fn lemma_life_counts_bound(&self, rule: Rule, k: int)
        ensures
            self.life_births_upto(rule, k) + self.life_deaths_upto(rule, k) <= if k > 0 {
                k
            } else {
                0
            },
        decreases k,
    {
        if k > 0 {
            self.lemma_life_counts_bound(rule, k - 1);
        }
    }

    /// At most one birth or death per cell.
    proof fn lemma_brain_counts_bound(&self, k: int)
        ensures
            self.brain_births_upto(k) + self.brain_deaths_upto(k) <= if k > 0 {
                k
            } else {
                0
            },
        decreases k,
    {
        if k > 0 {
            self.lemma_brain_counts_bound(k - 1);
        }
    }

    /// Life-like step computed band by band: the rows are cut into `n_bands`
    /// bands of equal height (the last one shorter), each band's next rows are
    /// computed on their own and the bands are joined in order. This is how a
    /// step is shared among workers; the result is the same as the row-order
    /// step.
    pub fn step_with_bands(&mut self, rule: &Rule, n_bands: usize) -> (stats: StepStats)
        requires
            old(self).steppable(),
        ensures
            final(self).wf(),
            final(self).w == old(self).w,
            final(self).h == old(self).h,
            final(self).wrap == old(self).wrap,
            final(self).states == old(self).states,
            forall|i: int|
                0 <= i < old(self).w * old(self).h ==> final(self).cells@[i] == old(
                    self,
                ).life_next_state(*rule, i) && final(self).ages@[i] == old(self).life_next_age(
                    *rule,
                    i,
                ),
            stats.births == old(self).life_births_upto(*rule, old(self).w * old(self).h),
            stats.deaths == old(self).life_deaths_upto(*rule, old(self).w * old(self).h),
    {
        let w = self.w;
        let h = self.h;
        let n = if n_bands == 0 {
            1
        } else if n_bands > h && h > 0 {
            h
        } else {
            n_bands
        };
        let chunk_h = (h + n - 1) / n;
        proof {
            if h > 0 {
                assert(1 <= chunk_h <= h) by (nonlinear_arith)
                    requires
                        chunk_h == (h + n - 1) as int / n as int,
                        1 <= n <= h,
                ;
            } else {
                assert(chunk_h == 0) by (nonlinear_arith)
                    requires
                        chunk_h == (h + n - 1) as int / n as int,
                        1 <= n,
                        h == 0,
                ;
            }
            assert(h * w == w * h) by (nonlinear_arith);
            assert(self.cells@.len() <= usize::MAX) by {
                assert(self.cells.len() == self.cells@.len());
            }
        }
        let mut next: Vec<u8> = Vec::new();
        let mut next_ages: Vec<u16> = Vec::new();
        let mut births: usize = 0;
        let mut deaths: usize = 0;
        let mut y0: usize = 0;
        while y0 < h
            invariant
                self.steppable(),
                *self == *old(self),
                w == self.w,
                h == self.h,
                h > 0 ==> chunk_h >= 1,
                chunk_h <= h,
                y0 <= h,
                h * w <= usize::MAX,
                next@.len() == y0 * w,
                next_ages@.len() == y0 * w,
                forall|j: int|
                    0 <= j < y0 * w ==> next@[j] == self.life_next_state(*rule, j) && next_ages@[j]
                        == self.life_next_age(*rule, j),
                births == self.life_births_upto(*rule, y0 * w),
                deaths == self.life_deaths_upto(*rule, y0 * w),
                births + deaths <= y0 * w,
            decreases h - y0,
        {
            let y1 = if y0 + chunk_h < h {
                y0 + chunk_h
            } else {
                h
            };
            let (mut band, mut band_ages, band_stats) = self.life_rows(rule, y0, y1);
            proof {
                assert(y0 * w + (y1 - y0) * w == y1 * w) by (nonlinear_arith);
                assert(y1 * w <= h * w) by (nonlinear_arith)
                    requires
                        y1 <= h,
                ;
                self.lemma_life_counts_bound(*rule, y1 * w);
            }
            let ghost before = next@;
            let ghost before_ages = next_ages@;
            next.append(&mut band);
            next_ages.append(&mut band_ages);
            assert forall|j: int|
                0 <= j < y1 * w implies next@[j] == self.life_next_state(*rule, j) && next_ages@[j]
                    == self.life_next_age(*rule, j) by {
                if j >= y0 * w {
                    assert(next@[j] == next@[y0 * w + (j - y0 * w)]);
                }
            }
            births += band_stats.births;
            deaths += band_stats.deaths;
            y0 = y1;
        }
        proof {
            assert(y0 * w == w * h) by (nonlinear_arith)
                requires
                    y0 == h,
            ;
        }
        self.cells = next;
        self.ages = next_ages;
        StepStats { births, deaths }
    }

    /// Brian's Brain step computed band by band (state count unchanged): the
    /// rows are cut into `n_bands`
    /// bands of equal height (the last one shorter), each band's next rows are
    /// computed on their own and the bands are joined in order. This is how a
    /// step is shared among workers; the result is the same as the row-order
    /// step.
    pub fn step_brians_brain_bands(&mut self, n_bands: usize) -> (stats: StepStats)
        requires
            old(self).steppable(),
        ensures
            final(self).wf(),
            final(self).w == old(self).w,
            final(self).h == old(self).h,
            final(self).wrap == old(self).wrap,
            final(self).states == old(self).states,
            forall|i: int|
                0 <= i < old(self).w * old(self).h ==> final(self).cells@[i] == old(
                    self,
                ).brain_next(i).0.0 && final(self).ages@[i] == old(self).brain_next(i).0.1,
            stats.births == old(self).brain_births_upto(old(self).w * old(self).h),
            stats.deaths == old(self).brain_deaths_upto(old(self).w * old(self).h),
    {
        let w = self.w;
        let h = self.h;
        let n = if n_bands == 0 {
            1
        } else if n_bands > h && h > 0 {
            h
        } else {
            n_bands
        };
        let chunk_h = (h + n - 1) / n;
        proof {
            if h > 0 {
                assert(1 <= chunk_h <= h) by (nonlinear_arith)
                    requires
                        chunk_h == (h + n - 1) as int / n as int,
                        1 <= n <= h,
                ;
            } else {
                assert(chunk_h == 0) by (nonlinear_arith)
                    requires
                        chunk_h == (h + n - 1) as int / n as int,
                        1 <= n,
                        h == 0,
                ;
            }
            assert(h * w == w * h) by (nonlinear_arith);
            assert(self.cells@.len() <= usize::MAX) by {
                assert(self.cells.len() == self.cells@.len());
            }
        }
        let mut next: Vec<u8> = Vec::new();
        let mut next_ages: Vec<u16> = Vec::new();
        let mut births: usize = 0;
        let mut deaths: usize = 0;
        let mut y0: usize = 0;
        while y0 < h
            invariant
                self.steppable(),
                *self == *old(self),
                w == self.w,
                h == self.h,
                h > 0 ==> chunk_h >= 1,
                chunk_h <= h,
                y0 <= h,
                h * w <= usize::MAX,
                next@.len() == y0 * w,
                next_ages@.len() == y0 * w,
                forall|j: int|
                    0 <= j < y0 * w ==> next@[j] == self.brain_next(j).0.0 && next_ages@[j]
                        == self.brain_next(j).0.1,
                births == self.brain_births_upto(y0 * w),
                deaths == self.brain_deaths_upto(y0 * w),
                births + deaths <= y0 * w,
            decreases h - y0,
        {
            let y1 = if y0 + chunk_h < h {
                y0 + chunk_h
            } else {
                h
            };
            let (mut band, mut band_ages, band_stats) = self.brain_rows(y0, y1);
            proof {
                assert(y0 * w + (y1 - y0) * w == y1 * w) by (nonlinear_arith);
                assert(y1 * w <= h * w) by (nonlinear_arith)
                    requires
                        y1 <= h,
                ;
                self.lemma_brain_counts_bound(y1 * w);
            }
            let ghost before = next@;
            let ghost before_ages = next_ages@;
            next.append(&mut band);
            next_ages.append(&mut band_ages);
            assert forall|j: int|
                0 <= j < y1 * w implies next@[j] == self.brain_next(j).0.0 && next_ages@[j]
                    == self.brain_next(j).0.1 by {
                if j >= y0 * w {
                    assert(next@[j] == next@[y0 * w + (j - y0 * w)]);
                }
            }
            births += band_stats.births;
            deaths += band_stats.deaths;
            y0 = y1;
        }
        proof {
            assert(y0 * w == w * h) by (nonlinear_arith)
                requires
                    y0 == h,
            ;
        }
        self.cells = next;
        self.ages = next_ages;
        StepStats { births, deaths }
    }

    /// Brian's Brain step: 0=dead, 1=firing, 2=refractory.
    ///
    /// - dead → firing if exactly 2 firing neighbours
    /// - firing → refractory, one step older
    /// - refractory (or any other non-zero state) → dead
    ///
    /// Births = dead→firing; deaths = non-zero→dead. The grid's state count
    /// becomes at least 3.
    pub fn step_brians_brain(&mut self) -> (stats: StepStats)
        requires
            old(self).steppable(),
        ensures
            final(self).wf(),
            final(self).w == old(self).w,
            final(self).h == old(self).h,
            final(self).wrap == old(self).wrap,
            final(self).states == (if old(self).states < 3 { 3 } else { old(self).states }),
            forall|i: int|
                0 <= i < old(self).w * old(self).h ==> final(self).cells@[i] == old(
                    self,
                ).brain_next(i).0.0 && final(self).ages@[i] == old(self).brain_next(i).0.1,
            stats.births == old(self).brain_births_upto(old(self).w * old(self).h),
            stats.deaths == old(self).brain_deaths_upto(old(self).w * old(self).h),
    {
        self.states = if self.states < 3 {
            3
        } else {
            self.states
        };
        proof {
            Self::lemma_brain_counts_same(*self, *old(self), self.w * self.h);
        }
        self.step_brians_brain_sequential()
    }

    /// Brian's Brain step computed in row order (state count unchanged).
    pub fn step_brians_brain_sequential(&mut self) -> (stats: StepStats)
        requires
            old(self).steppable(),
        ensures
            final(self).wf(),
            final(self).w == old(self).w,
            final(self).h == old(self).h,
            final(self).wrap == old(self).wrap,
            final(self).states == old(self).states,
            forall|i: int|
                0 <= i < old(self).w * old(self).h ==> final(self).cells@[i] == old(
                    self,
                ).brain_next(i).0.0 && final(self).ages@[i] == old(self).brain_next(i).0.1,
            stats.births == old(self).brain_births_upto(old(self).w * old(self).h),
            stats.deaths == old(self).brain_deaths_upto(old(self).w * old(self).h),
    {
        let (next, next_ages, stats) = self.brain_next_buffers();
        self.cells = next;
        self.ages = next_ages;
        stats
    }
}


/// Largest of the first `k` ages (0 when `k` is 0).
pub open spec fn max_upto(ages: Seq<u16>, k: int) -> u16
    decreases k,
{
    if k <= 0 {
        0
    } else {
        let m = max_upto(ages, k - 1);
        if ages[k - 1] > m {
            ages[k - 1]
        } else {
            m
        }
    }
}

/// Bounding box `(min_x, min_y, max_x, max_y)` of the non-dead cells of `g`:
/// every live cell lies inside it and each of its edges touches a live cell.
pub open spec fn is_live_bounds(g: &Grid, b: (usize, usize, usize, usize)) -> bool {
    &&& forall|x: int, y: int|
        0 <= x < g.w && 0 <= y < g.h && #[trigger] g.state_at(x, y) != 0 ==> b.0 <= x <= b.2 && b.1
            <= y <= b.3
    &&& exists|y: int| 0 <= y < g.h && #[trigger] g.state_at(b.0 as int, y) != 0
    &&& exists|x: int| 0 <= x < g.w && #[trigger] g.state_at(x, b.1 as int) != 0
    &&& exists|y: int| 0 <= y < g.h && #[trigger] g.state_at(b.2 as int, y) != 0
    &&& exists|x: int| 0 <= x < g.w && #[trigger] g.state_at(x, b.3 as int) != 0
}

/// The next states of bands `0..k`, joined in order.
pub open spec fn joined_cells(parts: Seq<(Vec<u8>, Vec<u16>, StepStats)>, k: int) -> Seq<u8>
    decreases k,
{
    if k <= 0 {
        Seq::empty()
    } else {
        joined_cells(parts, k - 1) + parts[k - 1].0@
    }
}

/// The next ages of bands `0..k`, joined in order.
pub open spec fn joined_ages(parts: Seq<(Vec<u8>, Vec<u16>, StepStats)>, k: int) -> Seq<u16>
    decreases k,
{
    if k <= 0 {
        Seq::empty()
    } else {
        joined_ages(parts, k - 1) + parts[k - 1].1@
    }
}

/// Births of bands `0..k`.
pub open spec fn joined_births(parts: Seq<(Vec<u8>, Vec<u16>, StepStats)>, k: int) -> nat
    decreases k,
{
    if k <= 0 {
        0
    } else {
        joined_births(parts, k - 1) + parts[k - 1].2.births as nat
    }
}

/// Deaths of bands `0..k`.
pub open spec fn joined_deaths(parts: Seq<(Vec<u8>, Vec<u16>, StepStats)>, k: int) -> nat
    decreases k,
{
    if k <= 0 {
        0
    } else {
        joined_deaths(parts, k - 1) + parts[k - 1].2.deaths as nat
    }
}

/// Height of each band when `h` rows are shared among `n_bands` workers (at
/// least one band, at most one per row); the last band may be shorter.
pub open spec fn band_height(h: int, n_bands: int) -> int {
    let n = if n_bands <= 0 {
        1
    } else if n_bands > h && h > 0 {
        h
    } else {
        n_bands
    };
    (h + n - 1) / n
}

/// Cut rows `0..h` into bands of `band_height(h, n_bands)` rows, in order:
/// each band `(y0, y1)` is non-empty, starts where the one before it ends,
/// the first starts at row 0 and the last ends at row `h`.
pub fn row_bands(h: usize, n_bands: usize) -> (r: Vec<(usize, usize)>)
    requires
        h <= i32::MAX,
    ensures
        h == 0 <==> r@.len() == 0,
        r@.len() > 0 ==> r@[0].0 == 0 && r@[r@.len() - 1].1 == h,
        forall|k: int|
            0 <= k < r@.len() ==> (#[trigger] r@[k]).0 < r@[k].1 <= h && r@[k].1 - r@[k].0
                <= band_height(h as int, n_bands as int) && (r@[k].1 < h ==> r@[k].1 - r@[k].0
                == band_height(h as int, n_bands as int)),
        forall|k: int| 0 <= k < r@.len() - 1 ==> (#[trigger] r@[k]).1 == r@[k + 1].0,
{
    let n = if n_bands == 0 {
        1
    } else if n_bands > h && h > 0 {
        h
    } else {
        n_bands
    };
    let chunk_h = (h + n - 1) / n;
    proof {
        if h > 0 {
            assert(1 <= chunk_h <= h) by (nonlinear_arith)
                requires
                    chunk_h == (h + n - 1) as int / n as int,
                    1 <= n <= h,
            ;
        }
    }
    let mut r: Vec<(usize, usize)> = Vec::new();
    let mut y0: usize = 0;
    while y0 < h
        invariant
            h <= i32::MAX,
            chunk_h == band_height(h as int, n_bands as int),
            h > 0 ==> 1 <= chunk_h <= h,
            y0 <= h,
            r@.len() == 0 <==> y0 == 0,
            r@.len() > 0 ==> r@[0].0 == 0 && r@[r@.len() - 1].1 == y0,
            forall|k: int|
                0 <= k < r@.len() ==> (#[trigger] r@[k]).0 < r@[k].1 <= y0 && r@[k].1 - r@[k].0
                    <= chunk_h && (r@[k].1 < h ==> r@[k].1 - r@[k].0 == chunk_h),
            forall|k: int| 0 <= k < r@.len() - 1 ==> (#[trigger] r@[k]).1 == r@[k + 1].0,
        decreases h - y0,
    {
        let y1 = if y0 + chunk_h < h {
            y0 + chunk_h
        } else {
            h
        };
        r.push((y0, y1));
        y0 = y1;
    }
    r
}

/// Join the results of bands of rows, in order: their next states and ages
/// one after the other, and their births and deaths added up. Each band
/// counts at most one birth or death per cell, as `Grid::life_rows` and
/// `Grid::brain_rows` do.
pub fn join_bands(parts: Vec<(Vec<u8>, Vec<u16>, StepStats)>) -> (r: (Vec<u8>, Vec<u16>, StepStats))
    requires
        forall|k: int|
            0 <= k < parts@.len() ==> (#[trigger] parts@[k]).2.births + parts@[k].2.deaths
                <= parts@[k].0@.len(),
    ensures
        r.0@ == joined_cells(parts@, parts@.len() as int),
        r.1@ == joined_ages(parts@, parts@.len() as int),
        r.2.births == joined_births(parts@, parts@.len() as int),
        r.2.deaths == joined_deaths(parts@, parts@.len() as int),
{
    let ghost ps = parts@;
    let mut cells: Vec<u8> = Vec::new();
    let mut ages: Vec<u16> = Vec::new();
    let mut births: usize = 0;
    let mut deaths: usize = 0;
    let mut k: usize = 0;
    let n = parts.len();
    let mut rest = parts;
    while k < n
        invariant
            n == ps.len(),
            k <= n,
            rest@ == ps.subrange(k as int, n as int),
            forall|j: int|
                0 <= j < ps.len() ==> (#[trigger] ps[j]).2.births + ps[j].2.deaths <= ps[j].0@.len(),
            cells@ == joined_cells(ps, k as int),
            ages@ == joined_ages(ps, k as int),
            births == joined_births(ps, k as int),
            deaths == joined_deaths(ps, k as int),
            births + deaths <= cells@.len(),
        decreases n - k,
    {
        assert(rest@[0] == ps[k as int]);
        let (mut c, mut a, s) = rest.remove(0);
        cells.append(&mut c);
        ages.append(&mut a);
        // The joined cells fit a `Vec`, which bounds the counts below.
        let _joined_len = cells.len();
        births = births + s.births;
        deaths = deaths + s.deaths;
        assert(rest@ =~= ps.subrange(k + 1, n as int));
        k = k + 1;
    }
    (cells, ages, StepStats { births, deaths })
}

/// The next states of rows `y0..y1` under a Life-like rule, as
/// `Grid::life_rows` gives them.
pub open spec fn life_band(g: &Grid, rule: Rule, y0: int, y1: int) -> Seq<u8> {
    Seq::new(((y1 - y0) * g.w) as nat, |j: int| g.life_next_state(rule, y0 * g.w + j))
}

/// Bands join into bands: the next states of rows `a..b` followed by those of
/// rows `b..c` are the next states of rows `a..c`; the band of all rows is the
/// whole step. So bands that cover the rows in order, joined, are the step.
pub proof fn law_life_bands_join(g: &Grid, rule: Rule, a: int, b: int, c: int)
    requires
        0 <= a <= b <= c,
    ensures
        life_band(g, rule, a, b) + life_band(g, rule, b, c) == life_band(g, rule, a, c),
        life_band(g, rule, 0, g.h as int) == Seq::new(
            (g.w * g.h) as nat,
            |i: int| g.life_next_state(rule, i),
        ),
{
    lemma_band_sizes(g.w as int, g.h as int, a, b, c);
    let x = life_band(g, rule, a, b);
    let y = life_band(g, rule, b, c);
    let z = life_band(g, rule, a, c);
    assert forall|j: int| 0 <= j < z.len() implies (x + y)[j] == z[j] by {
        if j >= x.len() {
            assert((x + y)[j] == y[j - x.len()]);
            assert(b * g.w + (j - x.len()) == a * g.w + j);
        }
    }
    assert(x + y =~= z);
    assert(life_band(g, rule, 0, g.h as int) =~= Seq::new(
        (g.w * g.h) as nat,
        |i: int| g.life_next_state(rule, i),
    ));
}

/// The next states and ages of rows `y0..y1` under Brian's Brain, as
/// `Grid::brain_rows` gives them.
pub open spec fn brain_band(g: &Grid, y0: int, y1: int) -> Seq<(u8, u16)> {
    Seq::new(((y1 - y0) * g.w) as nat, |j: int| g.brain_next(y0 * g.w + j).0)
}

/// Brian's Brain bands join as Life-like ones do: rows `a..b` followed by
/// rows `b..c` are rows `a..c`, and the band of all rows is the whole step.
pub proof fn law_brain_bands_join(g: &Grid, a: int, b: int, c: int)
    requires
        0 <= a <= b <= c,
    ensures
        brain_band(g, a, b) + brain_band(g, b, c) == brain_band(g, a, c),
        brain_band(g, 0, g.h as int) == Seq::new((g.w * g.h) as nat, |i: int| g.brain_next(i).0),
{
    lemma_band_sizes(g.w as int, g.h as int, a, b, c);
    let x = brain_band(g, a, b);
    let y = brain_band(g, b, c);
    let z = brain_band(g, a, c);
    assert forall|j: int| 0 <= j < z.len() implies (x + y)[j] == z[j] by {
        if j >= x.len() {
            assert((x + y)[j] == y[j - x.len()]);
            assert(b * g.w + (j - x.len()) == a * g.w + j);
        }
    }
    assert(x + y =~= z);
    assert(brain_band(g, 0, g.h as int) =~= Seq::new((g.w * g.h) as nat, |i: int| g.brain_next(i).0));
}

proof fn lemma_band_sizes(w: int, h: int, a: int, b: int, c: int)
    requires
        0 <= w,
        0 <= a <= b <= c,
    ensures
        (b - a) * w + (c - b) * w == (c - a) * w,
        a * w + (b - a) * w == b * w,
        (h - 0) * w == w * h,
        0 <= (b - a) * w,
        0 <= (c - b) * w,
{
    assert((b - a) * w + (c - b) * w == (c - a) * w) by (nonlinear_arith);
    assert(a * w + (b - a) * w == b * w) by (nonlinear_arith);
    assert((h - 0) * w == w * h) by (nonlinear_arith);
    assert(0 <= (b - a) * w) by (nonlinear_arith)
        requires
            a <= b,
            0 <= w,
    ;
    assert(0 <= (c - b) * w) by (nonlinear_arith)
        requires
            b <= c,
            0 <= w,
    ;
}

/// Counting the non-dead cells with any predicate that means "non-dead".
proof fn lemma_count_nonzero_step(
    a: Seq<u8>,
    b: Seq<u8>,
    p: spec_fn(u8) -> bool,
    births: spec_fn(int) -> nat,
    deaths: spec_fn(int) -> nat,
    k: int,
)
    requires
        0 <= k <= a.len(),
        a.len() == b.len(),
        forall|c: u8| #[trigger] p(c) == (c != 0u8),
        births(0) == 0,
        deaths(0) == 0,
        forall|i: int|
            0 <= i < a.len() ==> #[trigger] births(i + 1) == births(i) + (if a[i] == 0 && b[i] != 0 {
                1nat
            } else {
                0nat
            }) && deaths(i + 1) == deaths(i) + (if a[i] != 0 && b[i] == 0 {
                1nat
            } else {
                0nat
            }),
    ensures
        Grid::count_cells(b, k, p) + deaths(k) == Grid::count_cells(a, k, p) + births(k),
    decreases k,
{
    if k > 0 {
        lemma_count_nonzero_step(a, b, p, births, deaths, k - 1);
        assert(births(k - 1 + 1) == births(k - 1) + (if a[k - 1] == 0 && b[k - 1] != 0 {
            1nat
        } else {
            0nat
        }));
    }
}

/// Population after a Life-like step: the old population plus the births
/// minus the deaths of that step (`g2` holds the next states of `g`, as
/// `Grid::step_with` leaves them).
pub proof fn law_life_step_population(g: &Grid, rule: Rule, g2: &Grid)
    requires
        g.wf(),
        g2.cells@.len() == g.cells@.len(),
        forall|i: int| 0 <= i < g.w * g.h ==> #[trigger] g2.cells@[i] == g.life_next_state(rule, i),
    ensures
        g2.spec_population() == g.spec_population() + g.life_births_upto(rule, g.w * g.h)
            - g.life_deaths_upto(rule, g.w * g.h),
{
    let n = g.cells@.len() as int;
    let bf = |k: int| g.life_births_upto(rule, k);
    let df = |k: int| g.life_deaths_upto(rule, k);
    assert forall|i: int| 0 <= i < n implies #[trigger] bf(i + 1) == bf(i) + (if g.cells@[i] == 0
        && g2.cells@[i] != 0 {
        1nat
    } else {
        0nat
    }) && df(i + 1) == df(i) + (if g.cells@[i] != 0 && g2.cells@[i] == 0 {
        1nat
    } else {
        0nat
    }) by {
        assert(g2.cells@[i] == g.life_next_state(rule, i));
    }
    lemma_count_nonzero_step(g.cells@, g2.cells@, |c: u8| c != 0, bf, df, n);
}

/// Population after a Brian's Brain step: the old population plus the births
/// (dead to firing) minus the deaths (non-zero to dead) of that step (`g2`
/// holds the next states of `g`, as `Grid::step_brians_brain` leaves them).
pub proof fn law_brain_step_population(g: &Grid, g2: &Grid)
    requires
        g.wf(),
        g2.cells@.len() == g.cells@.len(),
        forall|i: int| 0 <= i < g.w * g.h ==> #[trigger] g2.cells@[i] == g.brain_next(i).0.0,
    ensures
        g2.spec_population() == g.spec_population() + g.brain_births_upto(g.w * g.h)
            - g.brain_deaths_upto(g.w * g.h),
{
    let n = g.cells@.len() as int;
    let bf = |k: int| g.brain_births_upto(k);
    let df = |k: int| g.brain_deaths_upto(k);
    assert forall|i: int| 0 <= i < n implies #[trigger] bf(i + 1) == bf(i) + (if g.cells@[i] == 0
        && g2.cells@[i] != 0 {
        1nat
    } else {
        0nat
    }) && df(i + 1) == df(i) + (if g.cells@[i] != 0 && g2.cells@[i] == 0 {
        1nat
    } else {
        0nat
    }) by {
        assert(g2.cells@[i] == g.brain_next(i).0.0);
    }
    lemma_count_nonzero_step(g.cells@, g2.cells@, |c: u8| c != 0, bf, df, n);
}

/// The bounding box of the live cells is unique.
pub proof fn lemma_live_bounds_unique(g: &Grid, b: (usize, usize, usize, usize), c: (usize, usize, usize, usize))
    requires
        is_live_bounds(g, b),
        is_live_bounds(g, c),
    ensures
        b == c,
{
    let y0 = choose|y: int| 0 <= y < g.h && #[trigger] g.state_at(b.0 as int, y) != 0;
    let y1 = choose|y: int| 0 <= y < g.h && #[trigger] g.state_at(c.0 as int, y) != 0;
    let x0 = choose|x: int| 0 <= x < g.w && #[trigger] g.state_at(x, b.1 as int) != 0;
    let x1 = choose|x: int| 0 <= x < g.w && #[trigger] g.state_at(x, c.1 as int) != 0;
    let y2 = choose|y: int| 0 <= y < g.h && #[trigger] g.state_at(b.2 as int, y) != 0;
    let y3 = choose|y: int| 0 <= y < g.h && #[trigger] g.state_at(c.2 as int, y) != 0;
    let x2 = choose|x: int| 0 <= x < g.w && #[trigger] g.state_at(x, b.3 as int) != 0;
    let x3 = choose|x: int| 0 <= x < g.w && #[trigger] g.state_at(x, c.3 as int) != 0;
    assert(0 <= b.0 < g.w);
    assert(0 <= c.0 < g.w);
    assert(0 <= b.1 < g.h);
    assert(0 <= c.1 < g.h);
    assert(0 <= b.2 < g.w);
    assert(0 <= c.2 < g.w);
    assert(0 <= b.3 < g.h);
    assert(0 <= c.3 < g.h);
}

/// Some cell of `g` is non-dead.
pub open spec fn has_live(g: &Grid) -> bool {
    exists|x: int, y: int| 0 <= x < g.w && 0 <= y < g.h && #[trigger] g.state_at(x, y) != 0
}

impl Grid {
    /// After bulk-filling `cells` (e.g. random seed), sync ages so non-zero cells are age 1.
    pub fn sync_ages_from_cells(&mut self)
        requires
            old(self).wf(),
        ensures
            final(self).wf(),
            final(self).w == old(self).w,
            final(self).h == old(self).h,
            final(self).wrap == old(self).wrap,
            final(self).states == old(self).states,
            final(self).cells@ == old(self).cells@,
            forall|i: int|
                0 <= i < old(self).cells@.len() ==> final(self).ages@[i] == (if old(
                    self,
                ).cells@[i] != 0 {
                    1u16
                } else {
                    0u16
                }),
    {
        let n = self.cells.len();
        let mut i: usize = 0;
        while i < n
            invariant
                i <= n == self.cells@.len() == self.ages@.len(),
                self.w == old(self).w,
                self.h == old(self).h,
                self.wrap == old(self).wrap,
                self.states == old(self).states,
                self.cells@ == old(self).cells@,
                old(self).wf(),
                forall|j: int|
                    0 <= j < i ==> self.ages@[j] == (if self.cells@[j] != 0 {
                        1u16
                    } else {
                        0u16
                    }),
            decreases n - i,
        {
            let a: u16 = if self.cells[i] != 0 {
                1
            } else {
                0
            };
            self.ages.set(i, a);
            i += 1;
        }
    }

    /// Population = number of non-dead cells.
    pub fn population(&self) -> (n: usize)
        ensures
            n == self.spec_population(),
    {
        self.count_where_nonzero()
    }

    fn count_where_nonzero(&self) -> (n: usize)
        ensures
            n == Self::count_cells(self.cells@, self.cells@.len() as int, |c: u8| c != 0),
    {
        let mut n: usize = 0;
        let mut i: usize = 0;
        while i < self.cells.len()
            invariant
                i <= self.cells@.len(),
                n <= i,
                n == Self::count_cells(self.cells@, i as int, |c: u8| c != 0),
            decreases self.cells@.len() - i,
        {
            if self.cells[i] != 0 {
                n += 1;
            }
            i += 1;
        }
        n
    }

    /// Count cells in a specific state.
    pub fn count_state(&self, s: u8) -> (n: usize)
        ensures
            n == Self::count_cells(self.cells@, self.cells@.len() as int, |c: u8| c == s),
    {
        let mut n: usize = 0;
        let mut i: usize = 0;
        while i < self.cells.len()
            invariant
                i <= self.cells@.len(),
                n <= i,
                n == Self::count_cells(self.cells@, i as int, |c: u8| c == s),
            decreases self.cells@.len() - i,
        {
            if self.cells[i] == s {
                n += 1;
            }
            i += 1;
        }
        n
    }

    /// Maximum age over all cells (0 if there are none).
    pub fn max_age(&self) -> (m: u16)
        ensures
            m == max_upto(self.ages@, self.ages@.len() as int),
    {
        let mut m: u16 = 0;
        let mut i: usize = 0;
        while i < self.ages.len()
            invariant
                i <= self.ages@.len(),
                m == max_upto(self.ages@, i as int),
            decreases self.ages@.len() - i,
        {
            if self.ages[i] > m {
                m = self.ages[i];
            }
            i += 1;
        }
        m
    }

    /// True if every cell matches `other` (same dimensions required). Ages ignored.
    pub fn equals(&self, other: &Grid) -> (b: bool)
        ensures
            b == (self.w == other.w && self.h == other.h && self.cells@ == other.cells@),
    {
        if self.w != other.w || self.h != other.h || self.cells.len() != other.cells.len() {
            return false;
        }
        let mut i: usize = 0;
        while i < self.cells.len()
            invariant
                i <= self.cells@.len() == other.cells@.len(),
                forall|j: int| 0 <= j < i ==> self.cells@[j] == other.cells@[j],
            decreases self.cells@.len() - i,
        {
            if self.cells[i] != other.cells[i] {
                return false;
            }
            i += 1;
        }
        assert(self.cells@ =~= other.cells@);
        true
    }

    /// Bounding box of non-dead cells: (min_x, min_y, max_x, max_y), or None if empty.
    pub fn live_bounds(&self) -> (r: Option<(usize, usize, usize, usize)>)
        requires
            self.wf(),
        ensures
            match r {
                Some(b) => is_live_bounds(self, b),
                None => !has_live(self),
            },
    {
        let mut min_x = self.w;
        let mut min_y = self.h;
        let mut max_x: usize = 0;
        let mut max_y: usize = 0;
        let mut any = false;
        let ghost mut wx0: int = 0;
        let ghost mut wy0: int = 0;
        let ghost mut wx1: int = 0;
        let ghost mut wy1: int = 0;
        let ghost mut wx2: int = 0;
        let ghost mut wy2: int = 0;
        let ghost mut wx3: int = 0;
        let ghost mut wy3: int = 0;
        let mut y: usize = 0;
        while y < self.h
            invariant
                self.wf(),
                y <= self.h,
                !any ==> forall|xx: int, yy: int|
                    0 <= xx < self.w && 0 <= yy < y ==> #[trigger] self.state_at(xx, yy) == 0,
                any ==> forall|xx: int, yy: int|
                    0 <= xx < self.w && 0 <= yy < y && #[trigger] self.state_at(xx, yy) != 0
                        ==> min_x <= xx <= max_x && min_y <= yy <= max_y,
                any ==> 0 <= wy0 < y && wx0 == min_x && self.state_at(wx0, wy0) != 0,
                any ==> 0 <= wx1 < self.w && wy1 == min_y && self.state_at(wx1, wy1) != 0,
                any ==> 0 <= wy2 < y && wx2 == max_x && self.state_at(wx2, wy2) != 0,
                any ==> 0 <= wx3 < self.w && wy3 == max_y && self.state_at(wx3, wy3) != 0,
            decreases self.h - y,
        {
            let mut x: usize = 0;
            while x < self.w
                invariant
                    self.wf(),
                    y < self.h,
                    x <= self.w,
                    !any ==> forall|xx: int, yy: int|
                        0 <= xx < self.w && 0 <= yy < y ==> #[trigger] self.state_at(xx, yy) == 0,
                    !any ==> forall|xx: int| 0 <= xx < x ==> #[trigger] self.state_at(xx, y as int) == 0,
                    any ==> forall|xx: int, yy: int|
                        0 <= xx < self.w && 0 <= yy < y && #[trigger] self.state_at(xx, yy) != 0
                            ==> min_x <= xx <= max_x && min_y <= yy <= max_y,
                    any ==> forall|xx: int|
                        0 <= xx < x && #[trigger] self.state_at(xx, y as int) != 0 ==> min_x <= xx
                            <= max_x && min_y <= y <= max_y,
                    any ==> 0 <= wy0 <= y && wx0 == min_x && self.state_at(wx0, wy0) != 0,
                    any ==> 0 <= wx1 < self.w && wy1 == min_y && self.state_at(wx1, wy1) != 0,
                    any ==> 0 <= wy2 <= y && wx2 == max_x && self.state_at(wx2, wy2) != 0,
                    any ==> 0 <= wx3 < self.w && wy3 == max_y && self.state_at(wx3, wy3) != 0,
                decreases self.w - x,
            {
                proof {
                    lemma_index_bound(x as int, y as int, self.w as int, self.h as int);
                    assert(self.cells.len() == self.cells@.len());
                }
                if self.cells[self.idx(x, y)] != 0 {
                    if !any || x < min_x {
                        min_x = x;
                        proof {
                            wx0 = x as int;
                            wy0 = y as int;
                        }
                    }
                    if !any || y < min_y {
                        min_y = y;
                        proof {
                            wx1 = x as int;
                            wy1 = y as int;
                        }
                    }
                    if !any || x > max_x {
                        max_x = x;
                        proof {
                            wx2 = x as int;
                            wy2 = y as int;
                        }
                    }
                    if !any || y > max_y {
                        max_y = y;
                        proof {
                            wx3 = x as int;
                            wy3 = y as int;
                        }
                    }
                    any = true;
                }
                x += 1;
            }
            y += 1;
        }
        if any {
            let b = (min_x, min_y, max_x, max_y);
            assert(self.state_at(b.0 as int, wy0) != 0);
            assert(self.state_at(wx1, b.1 as int) != 0);
            assert(self.state_at(b.2 as int, wy2) != 0);
            assert(self.state_at(wx3, b.3 as int) != 0);
            Some(b)
        } else {
            None
        }
    }
}

/// Grids are equal when they have the same size and the same cells (ages
/// and topology are not compared).
impl PartialEq for Grid {
    fn eq(&self, other: &Self) -> (b: bool) {
        self.equals(other)
    }
}

impl vstd::std_specs::cmp::PartialEqSpecImpl for Grid {
    open spec fn obeys_eq_spec() -> bool {
        true
    }

    open spec fn eq_spec(&self, other: &Self) -> bool {
        self.w == other.w && self.h == other.h && self.cells@ == other.cells@
    }
}

impl Eq for Grid {

}


} // verus!