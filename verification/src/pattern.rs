//! Immutable cell patterns and the built-in pattern catalogue.

use vstd::prelude::*;
use crate::grid::Grid;
use crate::rule::Rule;
use crate::state::LIVE;
use crate::text::{
    chars_eq_str, decimal_seq, lines_of, lower_chars, lower_seq, push_decimal, push_str,
    split_lines, str_chars, string_from_chars, trim_chars, trim_seq,
};

verus! {

/// An immutable rectangular cell pattern, optionally carrying an RLE rule.
#[derive(Clone, Debug, Eq, PartialEq)]
pub struct Pattern {
    width: usize,
    height: usize,
    cells: Vec<bool>,
    rule: Option<Rule>,
}

/// Pattern construction error.
#[derive(Clone, Copy, Debug, Eq, PartialEq, Structural)]
pub enum PatternError {
    EmptyDimension,
    DimensionsOverflow { width: usize, height: usize },
    AllocationFailed { width: usize, height: usize },
    CoordinateOutOfBounds { x: usize, y: usize, width: usize, height: usize },
}

/// Whether some listed coordinate is `(x, y)`.
pub open spec fn listed(coords: Seq<(usize, usize)>, x: int, y: int) -> bool {
    exists|j: int| 0 <= j < coords.len() && #[trigger] coords[j] == (x as usize, y as usize) && 0 <= x
        && 0 <= y
}

/// Coordinate `c` lies inside a `w × h` rectangle.
pub open spec fn in_rect(c: (usize, usize), w: int, h: int) -> bool {
    c.0 < w && c.1 < h
}

/// Characters that mark a live cell in ASCII art.
pub open spec fn is_live_art(c: char) -> bool {
    c == 'o' || c == 'O' || c == '#' || c == '*'
}

/// Longest line length (0 for no lines).
pub open spec fn max_line_len(lines: Seq<Seq<char>>) -> nat
    decreases lines.len(),
{
    if lines.len() == 0 {
        0
    } else {
        let m = max_line_len(lines.drop_last());
        if lines.last().len() > m {
            lines.last().len()
        } else {
            m
        }
    }
}

/// Whether `(x, y)` of the ASCII art with these lines is live.
pub open spec fn art_live(lines: Seq<Seq<char>>, x: int, y: int) -> bool {
    0 <= y < lines.len() && 0 <= x < lines[y].len() && is_live_art(lines[y][x])
}

/// What drawing the listed live cells on a dead `width × height` rectangle
/// gives: the first coordinate outside the rectangle as an error, else the
/// pattern whose live cells are exactly the listed ones (no rule).
pub open spec fn placed_outcome(
    width: usize,
    height: usize,
    cells: Seq<(usize, usize)>,
    r: Result<Pattern, PatternError>,
) -> bool {
    if exists|j: int| 0 <= j < cells.len() && !in_rect(#[trigger] cells[j], width as int, height as int) {
        exists|j: int|
            0 <= j < cells.len() && !in_rect(#[trigger] cells[j], width as int, height as int) && (forall|i: int|
                0 <= i < j ==> in_rect(#[trigger] cells[i], width as int, height as int)) && r == Err::<
                Pattern,
                PatternError,
            >(PatternError::CoordinateOutOfBounds { x: cells[j].0, y: cells[j].1, width, height })
    } else {
        r matches Ok(p) && {
            &&& p.wf()
            &&& p.spec_width() == width
            &&& p.spec_height() == height
            &&& p.spec_rule() is None
            &&& forall|x: int, y: int|
                0 <= x < width && 0 <= y < height ==> #[trigger] p.cell(x, y) == listed(cells, x, y)
        }
    }
}

impl Pattern {
    pub closed spec fn spec_width(&self) -> usize {
        self.width
    }

    pub closed spec fn spec_height(&self) -> usize {
        self.height
    }

    pub closed spec fn spec_rule(&self) -> Option<Rule> {
        self.rule
    }

    /// Liveness of `(x, y)` (false off the pattern).
    pub closed spec fn cell(&self, x: int, y: int) -> bool {
        if 0 <= x < self.width && 0 <= y < self.height {
            self.cells@[y * self.width + x]
        } else {
            false
        }
    }

    /// Liveness in row-major order.
    pub closed spec fn spec_cells(&self) -> Seq<bool> {
        self.cells@
    }

    /// Non-empty, and the row-major cells cover the rectangle.
    pub closed spec fn wf(&self) -> bool {
        &&& self.width >= 1
        &&& self.height >= 1
        &&& self.cells@.len() == self.width * self.height
    }

    /// Build a pattern from live-cell coordinates.
    ///
    /// Errors, in order of checking: a zero dimension, dimensions whose product
    /// overflows, failure to allocate the cells (always so above `isize::MAX`
    /// cells), the first coordinate outside the rectangle. Once the cells are
    /// allocated, the result is what `Pattern::place_live_cells` gives.
    pub fn from_live_cells(width: usize, height: usize, cells: &[(usize, usize)]) -> (r: Result<
        Self,
        PatternError,
    >)
        ensures
            (width == 0 || height == 0) <==> r == Err::<Pattern, PatternError>(
                PatternError::EmptyDimension,
            ),
            (width >= 1 && height >= 1 && width * height > usize::MAX) <==> r == Err::<
                Pattern,
                PatternError,
            >(PatternError::DimensionsOverflow { width, height }),
            r matches Err(PatternError::DimensionsOverflow { width: w, height: h }) ==> w == width
                && h == height,
            r matches Err(PatternError::AllocationFailed { width: w, height: h }) ==> w == width && h
                == height,
            width >= 1 && height >= 1 && width * height <= usize::MAX && width * height > isize::MAX
                ==> r == Err::<Pattern, PatternError>(
                PatternError::AllocationFailed { width, height },
            ),
            width >= 1 && height >= 1 && width * height <= usize::MAX ==> r == Err::<
                Pattern,
                PatternError,
            >(PatternError::AllocationFailed { width, height }) || placed_outcome(
                width,
                height,
                cells@,
                r,
            ),
            r matches Err(PatternError::CoordinateOutOfBounds { x, y, width: w, height: h }) ==> {
                &&& w == width
                &&& h == height
                &&& exists|j: int|
                    0 <= j < cells@.len() && #[trigger] cells@[j] == (x, y) && !in_rect(
                        cells@[j],
                        width as int,
                        height as int,
                    ) && forall|i: int| 0 <= i < j ==> in_rect(#[trigger] cells@[i], width as int, height as int)
            },
            width >= 1 && height >= 1 && width * height <= usize::MAX && (exists|j: int|
                0 <= j < cells@.len() && !in_rect(#[trigger] cells@[j], width as int, height as int))
                ==> r is Err,
            r matches Ok(p) ==> {
                &&& p.wf()
                &&& p.spec_width() == width
                &&& p.spec_height() == height
                &&& p.spec_rule() is None
                &&& forall|i: int| 0 <= i < cells@.len() ==> in_rect(#[trigger] cells@[i], width as int, height as int)
                &&& forall|x: int, y: int|
                    0 <= x < width && 0 <= y < height ==> #[trigger] p.cell(x, y) == listed(cells@, x, y)
            },
    {
        if width == 0 || height == 0 {
            return Err(PatternError::EmptyDimension);
        }
        let len = match width.checked_mul(height) {
            Some(n) => n,
            None => {
                return Err(PatternError::DimensionsOverflow { width, height });
            },
        };
        // More than `isize::MAX` bytes can never be allocated; std's
        // `try_reserve` refuses such a request as a capacity overflow.
        if len > isize::MAX as usize {
            return Err(PatternError::AllocationFailed { width, height });
        }
        let mut states: Vec<bool> = Vec::new();
        match states.try_reserve(len) {
            Ok(()) => {},
            Err(_) => {
                return Err(PatternError::AllocationFailed { width, height });
            },
        }
        let mut i: usize = 0;
        while i < len
            invariant
                i <= len,
                states@ == Seq::new(i as nat, |k: int| false),
            decreases len - i,
        {
            states.push(false);
            i += 1;
        }
        Self::place_live_cells(states, width, height, cells)
    }

    /// Draw the listed live cells on a dead `width × height` rectangle
    /// (`states`, row-major, every cell dead): the pattern with exactly those
    /// cells live, or the first coordinate outside the rectangle as
    /// `CoordinateOutOfBounds`.
    pub fn place_live_cells(
        states: Vec<bool>,
        width: usize,
        height: usize,
        cells: &[(usize, usize)],
    ) -> (r: Result<Self, PatternError>)
        requires
            width >= 1,
            height >= 1,
            states@ == Seq::new((width * height) as nat, |k: int| false),
        ensures
            placed_outcome(width, height, cells@, r),
    {
        let mut states = states;
        let len = states.len();
        assert forall|x: int, y: int| 0 <= x < width && 0 <= y < height implies #[trigger] states@[y
            * width + x] == listed(cells@.take(0), x, y) by {
            lemma_cell_index(x, y, width as int, height as int);
        }
        let mut j: usize = 0;
        while j < cells.len()
            invariant
                j <= cells@.len(),
                len == width * height,
                width >= 1,
                height >= 1,
                states@.len() == len,
                forall|i: int| 0 <= i < j ==> in_rect(#[trigger] cells@[i], width as int, height as int),
                forall|x: int, y: int|
                    0 <= x < width && 0 <= y < height ==> #[trigger] states@[y * width + x]
                        == listed(cells@.take(j as int), x, y),
            decreases cells@.len() - j,
        {
            let (x, y) = cells[j];
            if x >= width || y >= height {
                return Err(PatternError::CoordinateOutOfBounds { x, y, width, height });
            }
            proof {
                lemma_cell_index(x as int, y as int, width as int, height as int);
                assert(states.len() == states@.len());
            }
            let ghost before = states@;
            states.set(y * width + x, true);
            proof {
                assert forall|xx: int, yy: int|
                    0 <= xx < width && 0 <= yy < height implies #[trigger] states@[yy * width + xx]
                    == listed(cells@.take(j + 1), xx, yy) by {
                    lemma_cell_index(xx, yy, width as int, height as int);
                    if xx == x && yy == y {
                        assert(cells@.take(j + 1)[j as int] == (xx as usize, yy as usize));
                    } else {
                        lemma_cell_index_injective(xx, yy, x as int, y as int, width as int);
                        if listed(cells@.take(j + 1), xx, yy) {
                            let k = choose|k: int|
                                0 <= k < j + 1 && #[trigger] cells@.take(j + 1)[k] == (
                                    xx as usize,
                                    yy as usize,
                                ) && 0 <= xx && 0 <= yy;
                            assert(k < j);
                            assert(cells@.take(j as int)[k] == (xx as usize, yy as usize));
                        }
                        if listed(cells@.take(j as int), xx, yy) {
                            let k = choose|k: int|
                                0 <= k < j && #[trigger] cells@.take(j as int)[k] == (
                                    xx as usize,
                                    yy as usize,
                                ) && 0 <= xx && 0 <= yy;
                            assert(cells@.take(j + 1)[k] == (xx as usize, yy as usize));
                        }
                    }
                }
            }
            j += 1;
        }
        assert(cells@.take(cells@.len() as int) =~= cells@);
        let p = Pattern { width, height, cells: states, rule: None };
        proof {
            assert forall|x: int, y: int| 0 <= x < width && 0 <= y < height implies #[trigger] p.cell(x, y)
                == listed(cells@, x, y) by {
                assert(states@[y * width + x] == listed(cells@.take(cells@.len() as int), x, y));
            }
        }
        Ok(p)
    }

    /// Mark `[start_x, end_x)` of row `y` live.
    pub(crate) fn set_live_run(&mut self, y: usize, start_x: usize, end_x: usize)
        requires
            old(self).wf(),
            y < old(self).spec_height(),
            start_x <= end_x <= old(self).spec_width(),
        ensures
            final(self).wf(),
            final(self).spec_width() == old(self).spec_width(),
            final(self).spec_height() == old(self).spec_height(),
            final(self).spec_rule() == old(self).spec_rule(),
            forall|xx: int, yy: int|
                #[trigger] final(self).cell(xx, yy) == (old(self).cell(xx, yy) || (yy == y && start_x
                    <= xx < end_x)),
    {
        let w = self.width;
        let h = self.height;
        let ghost old_cells = self.cells@;
        let mut x = start_x;
        while x < end_x
            invariant
                start_x <= x <= end_x <= w,
                y < h,
                w == self.width,
                h == self.height,
                self.rule == old(self).rule,
                self.cells@.len() == w * h,
                old_cells == old(self).cells@,
                old_cells.len() == w * h,
                forall|i: int|
                    0 <= i < w * h ==> #[trigger] self.cells@[i] == (old_cells[i] || (y * w + start_x
                        <= i < y * w + x)),
            decreases end_x - x,
        {
            proof {
                lemma_cell_index(x as int, y as int, w as int, h as int);
                assert(self.cells.len() == self.cells@.len());
            }
            self.cells.set(y * w + x, true);
            x += 1;
        }
        proof {
            assert forall|xx: int, yy: int|
                #[trigger] self.cell(xx, yy) == (old(self).cell(xx, yy) || (yy == y && start_x <= xx
                    < end_x)) by {
                if 0 <= xx < w && 0 <= yy < h {
                    lemma_cell_index(xx, yy, w as int, h as int);
                    let i = yy * w + xx;
                    if y * w + start_x <= i < y * w + end_x {
                        lemma_row_range(xx, yy, y as int, w as int, start_x as int, end_x as int);
                    } else {
                        if yy == y {
                            assert(!(start_x <= xx < end_x));
                        }
                    }
                } else {
                    assert(!(yy == y && start_x <= xx < end_x));
                }
            }
        }
    }

    #[must_use]
    pub fn width(&self) -> (w: usize)
        ensures
            w == self.spec_width(),
    {
        self.width
    }

    #[must_use]
    pub fn height(&self) -> (h: usize)
        ensures
            h == self.spec_height(),
    {
        self.height
    }

    #[must_use]
    pub fn rule(&self) -> (r: Option<Rule>)
        ensures
            r == self.spec_rule(),
    {
        self.rule
    }

    /// The same pattern carrying `rule`.
    #[must_use]
    pub fn with_rule(self, rule: Rule) -> (p: Self)
        ensures
            self.wf() ==> p.wf(),
            p.spec_width() == self.spec_width(),
            p.spec_height() == self.spec_height(),
            p.spec_cells() == self.spec_cells(),
            p.spec_rule() == Some(rule),
            forall|x: int, y: int| #[trigger] p.cell(x, y) == self.cell(x, y),
    {
        Pattern { width: self.width, height: self.height, cells: self.cells, rule: Some(rule) }
    }

    /// Number of live cells.
    #[must_use]
    pub fn population(&self) -> (n: usize)
        ensures
            n == count_true(self.spec_cells(), self.spec_cells().len() as int),
    {
        let mut n: usize = 0;
        let mut i: usize = 0;
        while i < self.cells.len()
            invariant
                i <= self.cells@.len(),
                n <= i,
                n == count_true(self.cells@, i as int),
            decreases self.cells@.len() - i,
        {
            if self.cells[i] {
                n += 1;
            }
            i += 1;
        }
        n
    }

    /// Liveness of `(x, y)`, or `None` off the pattern.
    #[must_use]
    pub fn get(&self, x: usize, y: usize) -> (r: Option<bool>)
        requires
            self.wf(),
        ensures
            r == (if x < self.spec_width() && y < self.spec_height() {
                Some(self.cell(x as int, y as int))
            } else {
                None
            }),
    {
        if x < self.width && y < self.height {
            proof {
                lemma_cell_index(x as int, y as int, self.width as int, self.height as int);
                assert(self.cells.len() == self.cells@.len());
            }
            Some(self.cells[y * self.width + x])
        } else {
            None
        }
    }

    /// Coordinates of the live cells in row-major order.
    pub fn live_cells(&self) -> (r: Vec<(usize, usize)>)
        requires
            self.wf(),
        ensures
            forall|i: int| 0 <= i < r@.len() ==> #[trigger] self.cell(r@[i].0 as int, r@[i].1 as int),
            forall|x: int, y: int| #[trigger] self.cell(x, y) ==> listed(r@, x, y),
            forall|i: int, j: int|
                0 <= i < j < r@.len() ==> (r@[i].1 < r@[j].1 || (r@[i].1 == r@[j].1 && r@[i].0
                    < r@[j].0)),
    {
        let w = self.width;
        let h = self.height;
        let mut r: Vec<(usize, usize)> = Vec::new();
        let mut y: usize = 0;
        while y < h
            invariant
                self.wf(),
                w == self.width,
                h == self.height,
                y <= h,
                forall|i: int| 0 <= i < r@.len() ==> #[trigger] self.cell(r@[i].0 as int, r@[i].1 as int),
                forall|i: int| 0 <= i < r@.len() ==> (#[trigger] r@[i]).1 < y,
                forall|xx: int, yy: int| #[trigger] self.cell(xx, yy) && yy < y ==> listed(r@, xx, yy),
                forall|i: int, j: int|
                    0 <= i < j < r@.len() ==> (r@[i].1 < r@[j].1 || (r@[i].1 == r@[j].1 && r@[i].0
                        < r@[j].0)),
            decreases h - y,
        {
            let mut x: usize = 0;
            while x < w
                invariant
                    self.wf(),
                    w == self.width,
                    h == self.height,
                    y < h,
                    x <= w,
                    forall|i: int| 0 <= i < r@.len() ==> #[trigger] self.cell(r@[i].0 as int, r@[i].1 as int),
                    forall|i: int|
                        0 <= i < r@.len() ==> (#[trigger] r@[i]).1 < y || (r@[i].1 == y && r@[i].0
                            < x),
                    forall|xx: int, yy: int|
                        #[trigger] self.cell(xx, yy) && (yy < y || (yy == y && xx < x)) ==> listed(
                            r@,
                            xx,
                            yy,
                        ),
                    forall|i: int, j: int|
                        0 <= i < j < r@.len() ==> (r@[i].1 < r@[j].1 || (r@[i].1 == r@[j].1
                            && r@[i].0 < r@[j].0)),
                decreases w - x,
            {
                proof {
                    lemma_cell_index(x as int, y as int, w as int, h as int);
                    assert(self.cells.len() == self.cells@.len());
                }
                if self.cells[y * w + x] {
                    let ghost before = r@;
                    r.push((x, y));
                    proof {
                        assert forall|xx: int, yy: int|
                            #[trigger] self.cell(xx, yy) && (yy < y || (yy == y && xx < x + 1))
                                implies listed(r@, xx, yy) by {
                            if yy == y && xx == x {
                                assert(r@[r@.len() - 1] == (xx as usize, yy as usize));
                            } else {
                                assert(listed(before, xx, yy));
                                let k = choose|k: int|
                                    0 <= k < before.len() && #[trigger] before[k] == (
                                        xx as usize,
                                        yy as usize,
                                    ) && 0 <= xx && 0 <= yy;
                                assert(r@[k] == (xx as usize, yy as usize));
                            }
                        }
                    }
                }
                x += 1;
            }
            y += 1;
        }
        r
    }
}

/// A well-formed pattern is at least one cell wide and high.
pub proof fn lemma_wf_dims(p: &Pattern)
    requires
        p.wf(),
    ensures
        p.spec_width() >= 1,
        p.spec_height() >= 1,
{
}

/// Only cells inside the rectangle can be live.
pub broadcast proof fn lemma_cell_in_rect(p: &Pattern, x: int, y: int)
    ensures
        #[trigger] p.cell(x, y) ==> 0 <= x < p.spec_width() && 0 <= y < p.spec_height(),
{
}

/// Number of `true` among the first `k` entries.
pub open spec fn count_true(s: Seq<bool>, k: int) -> nat
    decreases k,
{
    if k <= 0 {
        0
    } else {
        count_true(s, k - 1) + if s[k - 1] {
            1nat
        } else {
            0nat
        }
    }
}

pub proof fn lemma_cell_index(x: int, y: int, w: int, h: int)
    requires
        0 <= x < w,
        0 <= y < h,
    ensures
        0 <= y * w + x < w * h,
        0 <= y * w,
{
    assert(y * w + x < w * h) by (nonlinear_arith)
        requires
            0 <= x < w,
            0 <= y < h,
    ;
    assert(0 <= y * w) by (nonlinear_arith)
        requires
            0 <= y,
            0 <= w,
    ;
}

pub proof fn lemma_cell_index_injective(x1: int, y1: int, x2: int, y2: int, w: int)
    requires
        0 <= x1 < w,
        0 <= x2 < w,
        0 <= y1,
        0 <= y2,
        x1 != x2 || y1 != y2,
    ensures
        y1 * w + x1 != y2 * w + x2,
{
    if y1 == y2 {
    } else if y1 < y2 {
        assert(y1 * w + w <= y2 * w) by (nonlinear_arith)
            requires
                y1 < y2,
                0 <= w,
        ;
    } else {
        assert(y2 * w + w <= y1 * w) by (nonlinear_arith)
            requires
                y2 < y1,
                0 <= w,
        ;
    }
}

proof fn lemma_row_range(xx: int, yy: int, y: int, w: int, sx: int, ex: int)
    requires
        0 <= xx < w,
        0 <= yy,
        0 <= y,
        0 <= sx <= ex <= w,
        y * w + sx <= yy * w + xx < y * w + ex,
    ensures
        yy == y,
        sx <= xx < ex,
{
    if yy < y {
        assert(yy * w + w <= y * w) by (nonlinear_arith)
            requires
                yy < y,
                0 <= w,
        ;
    } else if yy > y {
        assert(y * w + w <= yy * w) by (nonlinear_arith)
            requires
                y < yy,
                0 <= w,
        ;
    }
}


/// Metadata for one built-in pattern.
#[derive(Clone, Copy, Debug, Eq, PartialEq)]
pub struct PatternInfo {
    pub name: &'static str,
    pub width: usize,
    pub height: usize,
    pub population: usize,
    pub description: &'static str,
}

/// Catalogue rows: name, width, height, population, description.
pub open spec fn catalogue_row(i: int) -> (Seq<char>, usize, usize, usize, Seq<char>) {
    if i == 0 {
        ("block"@, 2usize, 2usize, 4usize, "period-1 still life"@)
    } else if i == 1 {
        ("blinker"@, 3usize, 1usize, 3usize, "period-2 oscillator"@)
    } else if i == 2 {
        ("toad"@, 4usize, 2usize, 6usize, "period-2 oscillator"@)
    } else if i == 3 {
        ("beacon"@, 4usize, 4usize, 8usize, "period-2 oscillator"@)
    } else if i == 4 {
        ("glider"@, 3usize, 3usize, 5usize, "small diagonal spaceship"@)
    } else if i == 5 {
        ("r-pentomino"@, 3usize, 3usize, 5usize, "chaotic methuselah (1103 generations)"@)
    } else if i == 6 {
        ("acorn"@, 7usize, 3usize, 7usize, "long-lived methuselah (5206 generations)"@)
    } else if i == 7 {
        ("diehard"@, 8usize, 3usize, 7usize, "methuselah that vanishes after 130 generations"@)
    } else if i == 8 {
        ("pulsar"@, 13usize, 13usize, 48usize, "large period-3 oscillator"@)
    } else {
        ("gosper-glider-gun"@, 36usize, 9usize, 36usize, "period-30 glider gun"@)
    }
}

fn info(name: &'static str, width: usize, height: usize, population: usize, description: &'static str) -> (r: PatternInfo)
    ensures
        r.name@ == name@,
        r.width == width,
        r.height == height,
        r.population == population,
        r.description@ == description@,
{
    PatternInfo { name, width, height, population, description }
}

/// All built-in patterns, in catalogue order.
#[must_use]
pub fn catalogue() -> (r: Vec<PatternInfo>)
    ensures
        r@.len() == 10,
        forall|i: int|
            0 <= i < 10 ==> {
                let row = catalogue_row(i);
                &&& (#[trigger] r@[i]).name@ == row.0
                &&& r@[i].width == row.1
                &&& r@[i].height == row.2
                &&& r@[i].population == row.3
                &&& r@[i].description@ == row.4
            },
{
    let mut r: Vec<PatternInfo> = Vec::new();
    r.push(info("block", 2, 2, 4, "period-1 still life"));
    r.push(info("blinker", 3, 1, 3, "period-2 oscillator"));
    r.push(info("toad", 4, 2, 6, "period-2 oscillator"));
    r.push(info("beacon", 4, 4, 8, "period-2 oscillator"));
    r.push(info("glider", 3, 3, 5, "small diagonal spaceship"));
    r.push(info("r-pentomino", 3, 3, 5, "chaotic methuselah (1103 generations)"));
    r.push(info("acorn", 7, 3, 7, "long-lived methuselah (5206 generations)"));
    r.push(info("diehard", 8, 3, 7, "methuselah that vanishes after 130 generations"));
    r.push(info("pulsar", 13, 13, 48, "large period-3 oscillator"));
    r.push(info("gosper-glider-gun", 36, 9, 36, "period-30 glider gun"));
    r
}

pub const PULSAR: &'static str = "..ooo...ooo..
.............
o....o.o....o
o....o.o....o
o....o.o....o
..ooo...ooo..
.............
..ooo...ooo..
o....o.o....o
o....o.o....o
o....o.o....o
.............
..ooo...ooo..";

pub const GOSPER: &'static str = "........................o...........
......................o.o...........
............oo......oo............oo
...........o...o....oo............oo
oo........o.....o...oo..............
oo........o...o.oo....o.o...........
..........o.....o.......o...........
...........o...o....................
............oo......................";

/// Name normalisation for built-in lookups: trimmed, ASCII lower-cased, `_` read as `-`.
pub open spec fn normalize_name(s: Seq<char>) -> Seq<char> {
    lower_seq(trim_seq(s)).map_values(|c: char| if c == '_' { '-' } else { c })
}

/// ASCII art of the built-in pattern with this normalised name.
pub open spec fn builtin_art(n: Seq<char>) -> Option<Seq<char>> {
    if n == "block"@ {
        Some("oo\noo"@)
    } else if n == "blinker"@ {
        Some("ooo"@)
    } else if n == "toad"@ {
        Some(".ooo\nooo."@)
    } else if n == "beacon"@ {
        Some("oo..\noo..\n..oo\n..oo"@)
    } else if n == "glider"@ {
        Some(".o.\n..o\nooo"@)
    } else if n == "r-pentomino"@ || n == "rpentomino"@ {
        Some(".oo\noo.\n.o."@)
    } else if n == "acorn"@ {
        Some(".o.....\n...o...\noo..ooo"@)
    } else if n == "diehard"@ {
        Some("......o.\noo......\n.o...ooo"@)
    } else if n == "pulsar"@ {
        Some(PULSAR@)
    } else if n == "gosper"@ || n == "gosper-gun"@ || n == "gosper-glider-gun"@ {
        Some(GOSPER@)
    } else {
        None
    }
}

/// `p` is the pattern drawn by the ASCII art `art` (one row per line, live
/// cells marked `o`, `O`, `#` or `*`; width of the longest line).
pub open spec fn is_art_pattern(p: &Pattern, art: Seq<char>) -> bool {
    let lines = lines_of(art);
    &&& p.wf()
    &&& p.spec_width() == max_line_len(lines)
    &&& p.spec_height() == lines.len()
    &&& p.spec_rule() is None
    &&& forall|x: int, y: int|
        0 <= x < p.spec_width() && 0 <= y < p.spec_height() ==> #[trigger] p.cell(x, y) == art_live(lines, x, y)
}

fn replace_underscores(v: &[char]) -> (r: Vec<char>)
    ensures
        r@ == v@.map_values(|c: char| if c == '_' { '-' } else { c }),
{
    let mut r: Vec<char> = Vec::new();
    for i in 0..v.len()
        invariant
            r@ == v@.take(i as int).map_values(|c: char| if c == '_' { '-' } else { c }),
    {
        let c = v[i];
        r.push(if c == '_' { '-' } else { c });
        assert(v@.take(i + 1).map_values(|c: char| if c == '_' { '-' } else { c }) =~= v@.take(i as int).map_values(|c: char| if c == '_' { '-' } else { c }).push(if c == '_' { '-' } else { c }));
    }
    assert(v@.take(v.len() as int) =~= v@);
    r
}

/// Load a built-in pattern by name. Names are ASCII case-insensitive and `_`
/// is accepted in place of `-`.
///
/// An unknown name gives `None`; a known one gives its pattern, or `None` when
/// the cells could not be allocated.
#[must_use]
pub fn builtin_pattern(name: &str) -> (r: Option<Pattern>)
    ensures
        builtin_art(normalize_name(name@)) is None ==> r is None,
        r matches Some(p) ==> builtin_art(normalize_name(name@)) matches Some(art) && is_art_pattern(&p, art),
{
    let raw = str_chars(name);
    let t = trim_chars(raw.as_slice());
    let l = lower_chars(t.as_slice());
    let n = replace_underscores(l.as_slice());
    let ns = n.as_slice();
    let art: &str = if chars_eq_str(ns, "block") {
        "oo\noo"
    } else if chars_eq_str(ns, "blinker") {
        "ooo"
    } else if chars_eq_str(ns, "toad") {
        ".ooo\nooo."
    } else if chars_eq_str(ns, "beacon") {
        "oo..\noo..\n..oo\n..oo"
    } else if chars_eq_str(ns, "glider") {
        ".o.\n..o\nooo"
    } else if chars_eq_str(ns, "r-pentomino") || chars_eq_str(ns, "rpentomino") {
        ".oo\noo.\n.o."
    } else if chars_eq_str(ns, "acorn") {
        ".o.....\n...o...\noo..ooo"
    } else if chars_eq_str(ns, "diehard") {
        "......o.\noo......\n.o...ooo"
    } else if chars_eq_str(ns, "pulsar") {
        PULSAR
    } else if chars_eq_str(ns, "gosper") || chars_eq_str(ns, "gosper-gun") || chars_eq_str(
        ns,
        "gosper-glider-gun",
    ) {
        GOSPER
    } else {
        return None;
    };
    match from_ascii(art) {
        Ok(p) => Some(p),
        Err(_) => None,
    }
}

/// Width of ASCII art: its longest line.
pub open spec fn art_width(art: Seq<char>) -> nat {
    max_line_len(lines_of(art))
}

/// Height of ASCII art: its number of lines.
pub open spec fn art_height(art: Seq<char>) -> nat {
    lines_of(art).len()
}

/// Pattern drawn by ASCII art: one row per line, live cells marked `o`, `O`,
/// `#` or `*`.
///
/// Art without lines or with only empty lines gives `EmptyDimension`; art
/// whose rectangle has more cells than `usize` counts gives
/// `DimensionsOverflow`; other art gives its pattern, or `AllocationFailed`
/// when the cells could not be allocated.
fn from_ascii(art: &str) -> (r: Result<Pattern, PatternError>)
    ensures
        art_width(art@) == 0 || art_height(art@) == 0 ==> r == Err::<Pattern, PatternError>(
            PatternError::EmptyDimension,
        ),
        art_width(art@) >= 1 && art_height(art@) >= 1 && art_width(art@) * art_height(art@)
            > usize::MAX ==> r == Err::<Pattern, PatternError>(
            PatternError::DimensionsOverflow {
                width: art_width(art@) as usize,
                height: art_height(art@) as usize,
            },
        ),
        art_width(art@) >= 1 && art_height(art@) >= 1 && art_width(art@) * art_height(art@)
            <= usize::MAX ==> (r matches Ok(p) && is_art_pattern(&p, art@)) || r == Err::<
            Pattern,
            PatternError,
        >(
            PatternError::AllocationFailed {
                width: art_width(art@) as usize,
                height: art_height(art@) as usize,
            },
        ),
        r matches Ok(p) ==> is_art_pattern(&p, art@),
{
    let chars = str_chars(art);
    let lines = split_lines(chars.as_slice());
    let ghost ls = lines_of(art@);
    let height = lines.len();
    let mut width: usize = 0;
    let mut i: usize = 0;
    while i < lines.len()
        invariant
            i <= lines@.len(),
            lines@.len() == ls.len(),
            forall|k: int| 0 <= k < lines@.len() ==> #[trigger] lines@[k]@ == ls[k],
            width == max_line_len(ls.take(i as int)),
        decreases lines@.len() - i,
    {
        assert(ls.take(i + 1).drop_last() =~= ls.take(i as int));
        if lines[i].len() > width {
            width = lines[i].len();
        }
        i += 1;
    }
    assert(ls.take(ls.len() as int) =~= ls);
    let mut coords: Vec<(usize, usize)> = Vec::new();
    let mut y: usize = 0;
    while y < lines.len()
        invariant
            y <= lines@.len(),
            lines@.len() == ls.len(),
            forall|k: int| 0 <= k < lines@.len() ==> #[trigger] lines@[k]@ == ls[k],
            width == max_line_len(ls),
            forall|j: int|
                0 <= j < coords@.len() ==> art_live(ls, (#[trigger] coords@[j]).0 as int, coords@[j].1 as int),
            forall|xx: int, yy: int| art_live(ls, xx, yy) && yy < y ==> #[trigger] listed(coords@, xx, yy),
        decreases lines@.len() - y,
    {
        let line = &lines[y];
        let mut x: usize = 0;
        while x < line.len()
            invariant
                y < lines@.len(),
                line@ == ls[y as int],
                x <= line@.len(),
                lines@.len() == ls.len(),
                forall|k: int| 0 <= k < lines@.len() ==> #[trigger] lines@[k]@ == ls[k],
                width == max_line_len(ls),
                forall|j: int|
                    0 <= j < coords@.len() ==> art_live(ls, (#[trigger] coords@[j]).0 as int, coords@[j].1 as int),
                forall|xx: int, yy: int|
                    art_live(ls, xx, yy) && (yy < y || (yy == y && xx < x)) ==> #[trigger] listed(coords@, xx, yy),
            decreases line@.len() - x,
        {
            let c = line[x];
            if c == 'o' || c == 'O' || c == '#' || c == '*' {
                let ghost before = coords@;
                coords.push((x, y));
                proof {
                    assert forall|xx: int, yy: int|
                        art_live(ls, xx, yy) && (yy < y || (yy == y && xx < x + 1)) implies #[trigger] listed(coords@, xx, yy) by {
                        if yy == y && xx == x {
                            assert(coords@[coords@.len() - 1] == (xx as usize, yy as usize));
                        } else {
                            assert(listed(before, xx, yy));
                            let k = choose|k: int|
                                0 <= k < before.len() && #[trigger] before[k] == (xx as usize, yy as usize) && 0 <= xx && 0 <= yy;
                            assert(coords@[k] == (xx as usize, yy as usize));
                        }
                    }
                }
            }
            x += 1;
        }
        y += 1;
    }
    proof {
        lemma_art_in_rect(ls, coords@);
    }
    let r = Pattern::from_live_cells(width, height, coords.as_slice());
    proof {
        if r is Ok {
            let p = r->Ok_0;
            assert forall|xx: int, yy: int| 0 <= xx < p.spec_width() && 0 <= yy < p.spec_height() implies #[trigger] p.cell(xx, yy) == art_live(ls, xx, yy) by {
                if listed(coords@, xx, yy) {
                    let k = choose|k: int|
                        0 <= k < coords@.len() && #[trigger] coords@[k] == (xx as usize, yy as usize) && 0 <= xx && 0 <= yy;
                    assert(art_live(ls, coords@[k].0 as int, coords@[k].1 as int));
                }
            }
        }
    }
    r
}

proof fn lemma_max_line_len(lines: Seq<Seq<char>>, y: int)
    requires
        0 <= y < lines.len(),
    ensures
        lines[y].len() <= max_line_len(lines),
    decreases lines.len(),
{
    if y < lines.len() - 1 {
        lemma_max_line_len(lines.drop_last(), y);
    }
}

proof fn lemma_art_in_rect(ls: Seq<Seq<char>>, coords: Seq<(usize, usize)>)
    requires
        forall|j: int| 0 <= j < coords.len() ==> art_live(ls, (#[trigger] coords[j]).0 as int, coords[j].1 as int),
    ensures
        forall|j: int| 0 <= j < coords.len() ==> in_rect(#[trigger] coords[j], max_line_len(ls) as int, ls.len() as int),
{
    assert forall|j: int| 0 <= j < coords.len() implies in_rect(#[trigger] coords[j], max_line_len(ls) as int, ls.len() as int) by {
        assert(art_live(ls, coords[j].0 as int, coords[j].1 as int));
        lemma_max_line_len(ls, coords[j].1 as int);
    }
}

/// Human-readable text of a pattern construction error.
pub open spec fn pattern_error_text(e: PatternError) -> Seq<char> {
    match e {
        PatternError::EmptyDimension => "pattern width and height must both be at least 1"@,
        PatternError::DimensionsOverflow { width, height } => "pattern dimensions "@ + decimal_seq(
            width as nat,
        ) + "x"@ + decimal_seq(height as nat) + " overflow address space"@,
        PatternError::AllocationFailed { width, height } => "could not allocate pattern dimensions "@
            + decimal_seq(width as nat) + "x"@ + decimal_seq(height as nat),
        PatternError::CoordinateOutOfBounds { x, y, width, height } => "pattern cell ("@ + decimal_seq(
            x as nat,
        ) + ","@ + decimal_seq(y as nat) + ") is outside "@ + decimal_seq(width as nat) + "x"@
            + decimal_seq(height as nat),
    }
}

impl PatternError {
    /// Human-readable description of the error.
    pub fn message(&self) -> (s: String)
        ensures
            s@ == pattern_error_text(*self),
    {
        let mut out: Vec<char> = Vec::new();
        match *self {
            PatternError::EmptyDimension => {
                push_str(&mut out, "pattern width and height must both be at least 1");
            },
            PatternError::DimensionsOverflow { width, height } => {
                push_str(&mut out, "pattern dimensions ");
                push_decimal(&mut out, width as u128);
                push_str(&mut out, "x");
                push_decimal(&mut out, height as u128);
                push_str(&mut out, " overflow address space");
            },
            PatternError::AllocationFailed { width, height } => {
                push_str(&mut out, "could not allocate pattern dimensions ");
                push_decimal(&mut out, width as u128);
                push_str(&mut out, "x");
                push_decimal(&mut out, height as u128);
            },
            PatternError::CoordinateOutOfBounds { x, y, width, height } => {
                push_str(&mut out, "pattern cell (");
                push_decimal(&mut out, x as u128);
                push_str(&mut out, ",");
                push_decimal(&mut out, y as u128);
                push_str(&mut out, ") is outside ");
                push_decimal(&mut out, width as u128);
                push_str(&mut out, "x");
                push_decimal(&mut out, height as u128);
            },
        }
        string_from_chars(out)
    }
}

/// Why a pattern could not be placed on a grid.
#[derive(Clone, Copy, Debug, Eq, PartialEq, Structural)]
pub enum PlacementError {
    /// The offset plus the pattern size overflows `usize`.
    OffsetOverflow,
    /// The pattern does not fit inside the grid at that offset.
    OutOfBounds,
}

impl Grid {
    /// No cell is live.
    pub fn is_empty(&self) -> (b: bool)
        ensures
            b == (Self::count_cells(self.cells@, self.cells@.len() as int, |c: u8| c != 0) == 0),
    {
        self.population() == 0
    }

    /// Overlay the live cells of `pattern` with its top-left corner at
    /// `(x, y)`. Nothing changes unless the whole pattern fits.
    pub fn place_pattern(&mut self, pattern: &Pattern, x: usize, y: usize) -> (r: Result<(), PlacementError>)
        requires
            old(self).wf(),
            pattern.wf(),
        ensures
            final(self).wf(),
            final(self).w == old(self).w,
            final(self).h == old(self).h,
            final(self).wrap == old(self).wrap,
            final(self).states == old(self).states,
            (x + pattern.spec_width() > usize::MAX || y + pattern.spec_height() > usize::MAX)
                <==> r == Err::<(), PlacementError>(PlacementError::OffsetOverflow),
            (x + pattern.spec_width() <= usize::MAX && y + pattern.spec_height() <= usize::MAX && (x
                + pattern.spec_width() > old(self).w || y + pattern.spec_height() > old(self).h))
                <==> r == Err::<(), PlacementError>(PlacementError::OutOfBounds),
            r is Err ==> final(self).cells@ == old(self).cells@ && final(self).ages@ == old(self).ages@,
            r is Ok ==> forall|gx: int, gy: int|
                0 <= gx < old(self).w && 0 <= gy < old(self).h ==> #[trigger] final(self).state_at(gx, gy)
                    == (if pattern.cell(gx - x, gy - y) && old(self).states >= 2 {
                    LIVE
                } else if pattern.cell(gx - x, gy - y) {
                    0u8
                } else {
                    old(self).state_at(gx, gy)
                }),
    {
        let pw = pattern.width();
        let ph = pattern.height();
        let end_x = match x.checked_add(pw) {
            Some(v) => v,
            None => {
                return Err(PlacementError::OffsetOverflow);
            },
        };
        let end_y = match y.checked_add(ph) {
            Some(v) => v,
            None => {
                return Err(PlacementError::OffsetOverflow);
            },
        };
        if end_x > self.w || end_y > self.h {
            return Err(PlacementError::OutOfBounds);
        }
        let ghost g0 = *self;
        let mut py: usize = 0;
        while py < ph
            invariant
                old(self).wf(),
                pattern.wf(),
                self.wf(),
                pw == pattern.spec_width(),
                ph == pattern.spec_height(),
                x + pw <= self.w,
                y + ph <= self.h,
                self.w == g0.w,
                self.h == g0.h,
                self.wrap == g0.wrap,
                self.states == g0.states,
                g0 == *old(self),
                py <= ph,
                forall|gx: int, gy: int|
                    0 <= gx < g0.w && 0 <= gy < g0.h ==> #[trigger] self.state_at(gx, gy) == (if gy - y
                        < py && pattern.cell(gx - x, gy - y) && g0.states >= 2 {
                        LIVE
                    } else if gy - y < py && pattern.cell(gx - x, gy - y) {
                        0u8
                    } else {
                        g0.state_at(gx, gy)
                    }),
            decreases ph - py,
        {
            let mut px: usize = 0;
            while px < pw
                invariant
                    old(self).wf(),
                    pattern.wf(),
                    self.wf(),
                    pw == pattern.spec_width(),
                    ph == pattern.spec_height(),
                    x + pw <= self.w,
                    y + ph <= self.h,
                    self.w == g0.w,
                    self.h == g0.h,
                    self.wrap == g0.wrap,
                    self.states == g0.states,
                    g0 == *old(self),
                    py < ph,
                    px <= pw,
                    forall|gx: int, gy: int|
                        0 <= gx < g0.w && 0 <= gy < g0.h ==> #[trigger] self.state_at(gx, gy) == (if (gy
                            - y < py || (gy - y == py && gx - x < px)) && pattern.cell(gx - x, gy - y)
                            && g0.states >= 2 {
                            LIVE
                        } else if (gy - y < py || (gy - y == py && gx - x < px)) && pattern.cell(
                            gx - x,
                            gy - y,
                        ) {
                            0u8
                        } else {
                            g0.state_at(gx, gy)
                        }),
                decreases pw - px,
            {
                let live = match pattern.get(px, py) {
                    Some(b) => b,
                    None => false,
                };
                if live {
                    let ghost before = *self;
                    self.set(x + px, y + py, true);
                    proof {
                        assert forall|gx: int, gy: int| 0 <= gx < g0.w && 0 <= gy < g0.h && (gx != x + px || gy != y + py) implies #[trigger] self.state_at(gx, gy) == before.state_at(gx, gy) by {
                            lemma_cell_index(gx, gy, g0.w as int, g0.h as int);
                            lemma_cell_index((x + px) as int, (y + py) as int, g0.w as int, g0.h as int);
                            lemma_cell_index_injective(gx, gy, (x + px) as int, (y + py) as int, g0.w as int);
                        }
                        lemma_cell_index((x + px) as int, (y + py) as int, g0.w as int, g0.h as int);
                    }
                }
                px += 1;
            }
            py += 1;
        }
        Ok(())
    }
}

} // verus!
