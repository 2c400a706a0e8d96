//! Built-in seed patterns for a grid, loading of RLE / Life 1.05 text into a
//! grid, and RLE / ASCII dumps of a grid.

use vstd::prelude::*;
use crate::grid::{Grid, has_live, is_live_bounds, lemma_live_bounds_unique};
use crate::rle::{
    encode_runs, lemma_encode_step, lemma_trailing_run_bounds, lemma_trailing_values, push_run,
    run_text, trailing_run, wrap_lines,
};
use crate::pattern::{art_live, lemma_cell_index, lemma_cell_index_injective, GOSPER, PULSAR};
use crate::state::{DEAD, LIVE};
use crate::text::{
    chars_start_with, copy_range, find_char, find_first, first_words, parse_i64, parse_usize,
    spec_parse_i64, spec_parse_usize, split_chars, split_on, starts_with, trim_chars,
    trim_end_chars, trim_end_seq, trim_seq, trim_start_chars, trim_start_seq, words, decimal_seq,
    push_decimal, digit_value, is_ascii_digit, chars_eq_str, lemma_decimal_seq, lines_of,
    lower_chars, lower_seq, push_chars, push_str, split_lines, str_chars, string_from_chars,
};

verus! {

/// Names of all built-in seed patterns (aliases other than `spaceship` left out).
pub fn pattern_names() -> (r: Vec<&'static str>)
    ensures
        r@.map_values(|n: &'static str| n@) == builtin_names(),
{
    let mut r: Vec<&'static str> = Vec::new();
    r.push("random");
    r.push("glider");
    r.push("spaceship");
    r.push("blinker");
    r.push("toad");
    r.push("beacon");
    r.push("block");
    r.push("beehive");
    r.push("lwss");
    r.push("mwss");
    r.push("hwss");
    r.push("rpentomino");
    r.push("acorn");
    r.push("diehard");
    r.push("pulsar");
    r.push("gosper");
    r.push("pentadecathlon");
    r.push("glider-pair");
    r.push("infinite1");
    assert(r@.map_values(|n: &'static str| n@) =~= builtin_names());
    r
}

/// Names joined with a separator.
pub open spec fn joined(names: Seq<Seq<char>>, sep: Seq<char>) -> Seq<char>
    decreases names.len(),
{
    if names.len() == 0 {
        Seq::empty()
    } else if names.len() == 1 {
        names[0]
    } else {
        joined(names.drop_last(), sep) + sep + names.last()
    }
}

/// The built-in names, in listing order.
pub open spec fn builtin_names() -> Seq<Seq<char>> {
    seq![
        "random"@,
        "glider"@,
        "spaceship"@,
        "blinker"@,
        "toad"@,
        "beacon"@,
        "block"@,
        "beehive"@,
        "lwss"@,
        "mwss"@,
        "hwss"@,
        "rpentomino"@,
        "acorn"@,
        "diehard"@,
        "pulsar"@,
        "gosper"@,
        "pentadecathlon"@,
        "glider-pair"@,
        "infinite1"@,
    ]
}

pub const TOAD: &'static str = ".ooo
ooo.";

pub const BEACON: &'static str = "oo..
oo..
..oo
..oo";

pub const BLOCK: &'static str = "oo
oo";

pub const BEEHIVE: &'static str = ".oo.
o..o
.oo.";

pub const LWSS: &'static str = ".o..o
o....
o...o
oooo.";

pub const MWSS: &'static str = "..o..
.o...
o....
o...o
oooo.";

pub const HWSS: &'static str = "..oo..
.o....
o.....
o....o
ooooo.";

pub const RPENTOMINO: &'static str = ".oo
oo.
.o.";

pub const ACORN: &'static str = ".o.....
...o...
oo..ooo";

pub const DIEHARD: &'static str = "......o.
oo......
.o...ooo";

pub const BLINKER: &'static str = "ooo";

/// Pentadecathlon (period-15 oscillator), 10×3 bounding core.
pub const PENTADECATHLON: &'static str = "..o....o..
oo.oooo.oo
..o....o..";

/// Two gliders heading the same way.
pub const GLIDER_PAIR: &'static str = ".o.....o.
..o.....o
ooo...ooo";

/// Classic infinite-growth seed (switch-engine precursor).
pub const INFINITE1: &'static str = "ooooooo.o
oo.o...oo
";

/// State a drawn cell gets: live, or dead on a grid without a live state.
pub open spec fn drawn_live(g0: &Grid) -> u8 {
    if g0.states >= 2 {
        LIVE
    } else {
        DEAD
    }
}

/// Cell `(x, y)` of `g` is that of `g0` with the cells for which
/// `mark(dx, dy)` holds drawn live at offset `(ox, oy)`.
pub open spec fn drawn_at(
    g: &Grid,
    g0: &Grid,
    mark: spec_fn(int, int) -> bool,
    ox: int,
    oy: int,
    x: int,
    y: int,
) -> bool {
    &&& g.state_at(x, y) == (if mark(x - ox, y - oy) {
        drawn_live(g0)
    } else {
        g0.state_at(x, y)
    })
    &&& g.spec_age_at(x, y) == (if mark(x - ox, y - oy) {
        if drawn_live(g0) != 0 {
            1u16
        } else {
            0u16
        }
    } else {
        g0.spec_age_at(x, y)
    })
}

/// `g` is `g0` with the cells for which `mark(dx, dy)` holds drawn live at
/// offset `(ox, oy)`; cells that fall off the grid are dropped.
pub open spec fn is_drawn(g: &Grid, g0: &Grid, mark: spec_fn(int, int) -> bool, ox: int, oy: int) -> bool {
    &&& g.wf()
    &&& g.w == g0.w
    &&& g.h == g0.h
    &&& g.wrap == g0.wrap
    &&& g.states == g0.states
    &&& forall|x: int, y: int|
        0 <= x < g0.w && 0 <= y < g0.h ==> #[trigger] drawn_at(g, g0, mark, ox, oy, x, y)
}

/// Live cells of the classic glider, relative to its corner.
pub open spec fn glider_cell(dx: int, dy: int) -> bool {
    (dx == 1 && dy == 0) || (dx == 2 && dy == 1) || (dy == 2 && 0 <= dx <= 2)
}

/// Drawing one more cell, at `(x, y)` on the grid, extends a drawing.
proof fn lemma_draw_cell(
    g: &Grid,
    before: &Grid,
    g0: &Grid,
    m1: spec_fn(int, int) -> bool,
    m2: spec_fn(int, int) -> bool,
    ox: int,
    oy: int,
    x: int,
    y: int,
)
    requires
        is_drawn(before, g0, m1, ox, oy),
        g.wf(),
        g.w == before.w,
        g.h == before.h,
        g.wrap == before.wrap,
        g.states == before.states,
        0 <= x < g0.w,
        0 <= y < g0.h,
        g.cells@ == before.cells@.update(y * g0.w + x, drawn_live(before)),
        g.ages@ == before.ages@.update(
            y * g0.w + x,
            if drawn_live(before) != 0 {
                1u16
            } else {
                0u16
            },
        ),
        forall|a: int, b: int| #[trigger] m2(a, b) == (m1(a, b) || (a == x - ox && b == y - oy)),
    ensures
        is_drawn(g, g0, m2, ox, oy),
{
    assert forall|xx: int, yy: int| 0 <= xx < g0.w && 0 <= yy < g0.h implies #[trigger] drawn_at(g, g0, m2, ox, oy, xx, yy) by {
        lemma_cell_index(xx, yy, g0.w as int, g0.h as int);
        lemma_cell_index(x, y, g0.w as int, g0.h as int);
        assert(drawn_at(before, g0, m1, ox, oy, xx, yy));
        assert(m2(xx - ox, yy - oy) == (m1(xx - ox, yy - oy) || (xx == x && yy == y)));
        if xx != x || yy != y {
            lemma_cell_index_injective(xx, yy, x, y, g0.w as int);
        }
    }
    assert(is_drawn(g, g0, m2, ox, oy));
}

/// A drawing whose cells are kept, under a mark that agrees on the grid, is the same drawing.
proof fn lemma_drawn_same(
    g: &Grid,
    before: &Grid,
    g0: &Grid,
    m1: spec_fn(int, int) -> bool,
    m2: spec_fn(int, int) -> bool,
    ox: int,
    oy: int,
)
    requires
        is_drawn(before, g0, m1, ox, oy),
        g.wf(),
        g.w == before.w,
        g.h == before.h,
        g.wrap == before.wrap,
        g.states == before.states,
        g.cells@ == before.cells@,
        g.ages@ == before.ages@,
        forall|xx: int, yy: int|
            0 <= xx < g0.w && 0 <= yy < g0.h ==> #[trigger] m2(xx - ox, yy - oy) == m1(xx - ox, yy - oy),
    ensures
        is_drawn(g, g0, m2, ox, oy),
{
    assert forall|xx: int, yy: int| 0 <= xx < g0.w && 0 <= yy < g0.h implies #[trigger] drawn_at(g, g0, m2, ox, oy, xx, yy) by {
        assert(drawn_at(before, g0, m1, ox, oy, xx, yy));
        assert(before.state_at(xx, yy) == g.state_at(xx, yy));
        assert(before.spec_age_at(xx, yy) == g.spec_age_at(xx, yy));
        assert(m2(xx - ox, yy - oy) == m1(xx - ox, yy - oy));
    }
}

/// Draw the ASCII art `art` (live cells `o`, `O`, `#`, `*`) with its top-left
/// corner at `(ox, oy)`; cells off the grid are dropped.
fn place_from_str(g: &mut Grid, ox: usize, oy: usize, art: &str)
    requires
        old(g).wf(),
    ensures
        is_drawn(
            final(g),
            old(g),
            |dx: int, dy: int| art_live(lines_of(art@), dx, dy),
            ox as int,
            oy as int,
        ),
{
    let chars = str_chars(art);
    let lines = split_lines(chars.as_slice());
    let ghost ls = lines_of(art@);
    let ghost g0 = *g;
    let mut dy: usize = 0;
    assert(is_drawn(g, &g0, |a: int, b: int| art_live(ls, a, b) && b < 0, ox as int, oy as int));
    while dy < lines.len()
        invariant
            g0 == *old(g),
            g0.wf(),
            lines@.len() == ls.len(),
            ls == lines_of(art@),
            forall|k: int| 0 <= k < lines@.len() ==> #[trigger] lines@[k]@ == ls[k],
            dy <= lines@.len(),
            is_drawn(g, &g0, |a: int, b: int| art_live(ls, a, b) && b < dy, ox as int, oy as int),
        decreases lines@.len() - dy,
    {
        let line = &lines[dy];
        let mut dx: usize = 0;
        proof {
            lemma_drawn_same(
                g,
                g,
                &g0,
                |a: int, b: int| art_live(ls, a, b) && b < dy,
                |a: int, b: int| art_live(ls, a, b) && (b < dy || (b == dy && a < 0)),
                ox as int,
                oy as int,
            );
        }
        while dx < line.len()
            invariant
                g0 == *old(g),
                g0.wf(),
                lines@.len() == ls.len(),
                forall|k: int| 0 <= k < lines@.len() ==> #[trigger] lines@[k]@ == ls[k],
                dy < lines@.len(),
                line@ == ls[dy as int],
                dx <= line@.len(),
                is_drawn(
                    g,
                    &g0,
                    |a: int, b: int| art_live(ls, a, b) && (b < dy || (b == dy && a < dx)),
                    ox as int,
                    oy as int,
                ),
            decreases line@.len() - dx,
        {
            let c = line[dx];
            let ghost m1 = |a: int, b: int| art_live(ls, a, b) && (b < dy || (b == dy && a < dx));
            let ghost m2 = |a: int, b: int| art_live(ls, a, b) && (b < dy || (b == dy && a < dx + 1));
            let ghost before = *g;
            if c == 'o' || c == 'O' || c == '#' || c == '*' {
                assert(art_live(ls, dx as int, dy as int));
                match (ox.checked_add(dx), oy.checked_add(dy)) {
                    (Some(x), Some(y)) => {
                        g.set(x, y, true);
                        proof {
                            if x < g0.w && y < g0.h {
                                lemma_draw_cell(g, &before, &g0, m1, m2, ox as int, oy as int, x as int, y as int);
                            } else {
                                lemma_drawn_same(g, &before, &g0, m1, m2, ox as int, oy as int);
                            }
                        }
                    },
                    _ => {
                        proof {
                            lemma_drawn_same(g, &before, &g0, m1, m2, ox as int, oy as int);
                        }
                    },
                }
            } else {
                proof {
                    assert(!art_live(ls, dx as int, dy as int));
                    lemma_drawn_same(g, &before, &g0, m1, m2, ox as int, oy as int);
                }
            }
            dx += 1;
        }
        proof {
            lemma_drawn_same(
                g,
                g,
                &g0,
                |a: int, b: int| art_live(ls, a, b) && (b < dy || (b == dy && a < dx)),
                |a: int, b: int| art_live(ls, a, b) && b < dy + 1,
                ox as int,
                oy as int,
            );
        }
        dy += 1;
    }
    proof {
        lemma_drawn_same(
            g,
            g,
            &g0,
            |a: int, b: int| art_live(ls, a, b) && b < dy,
            |a: int, b: int| art_live(lines_of(art@), a, b),
            ox as int,
            oy as int,
        );
    }
}

/// The first `k` of the glider's cells, in drawing order.
pub open spec fn glider_upto(k: int, dx: int, dy: int) -> bool {
    ||| (k > 0 && dx == 1 && dy == 0)
    ||| (k > 1 && dx == 2 && dy == 1)
    ||| (k > 2 && dx == 0 && dy == 2)
    ||| (k > 3 && dx == 1 && dy == 2)
    ||| (k > 4 && dx == 2 && dy == 2)
}

/// Draw the classic glider with its corner at `(ox, oy)`.
fn place_glider(g: &mut Grid, ox: usize, oy: usize)
    requires
        old(g).wf(),
        ox + 2 <= usize::MAX,
        oy + 2 <= usize::MAX,
    ensures
        is_drawn(final(g), old(g), |dx: int, dy: int| glider_cell(dx, dy), ox as int, oy as int),
{
    let ghost g0 = *g;
    let offsets: [(usize, usize); 5] = [(1, 0), (2, 1), (0, 2), (1, 2), (2, 2)];
    let mut k: usize = 0;
    assert(is_drawn(g, &g0, |a: int, b: int| glider_upto(0, a, b), ox as int, oy as int));
    while k < 5
        invariant
            g0 == *old(g),
            g0.wf(),
            ox + 2 <= usize::MAX,
            oy + 2 <= usize::MAX,
            k <= 5,
            offsets@ == seq![(1usize, 0usize), (2usize, 1usize), (0usize, 2usize), (1usize, 2usize), (2usize, 2usize)],
            is_drawn(g, &g0, |a: int, b: int| glider_upto(k as int, a, b), ox as int, oy as int),
        decreases 5 - k,
    {
        let (dx, dy) = offsets[k];
        assert(k == 0 ==> dx == 1 && dy == 0);
        assert(k == 1 ==> dx == 2 && dy == 1);
        assert(k == 2 ==> dx == 0 && dy == 2);
        assert(k == 3 ==> dx == 1 && dy == 2);
        assert(k == 4 ==> dx == 2 && dy == 2);
        let ghost before = *g;
        let ghost m1 = |a: int, b: int| glider_upto(k as int, a, b);
        let ghost m2 = |a: int, b: int| glider_upto(k + 1, a, b);
        g.set(ox + dx, oy + dy, true);
        proof {
            if ox + dx < g0.w && oy + dy < g0.h {
                lemma_draw_cell(g, &before, &g0, m1, m2, ox as int, oy as int, (ox + dx) as int, (oy + dy) as int);
            } else {
                lemma_drawn_same(g, &before, &g0, m1, m2, ox as int, oy as int);
            }
        }
        k += 1;
    }
    proof {
        lemma_drawn_same(
            g,
            g,
            &g0,
            |a: int, b: int| glider_upto(5, a, b),
            |a: int, b: int| glider_cell(a, b),
            ox as int,
            oy as int,
        );
    }
}

/// `a - b`, or 0 when `b` exceeds `a`.
pub open spec fn sat_sub(a: int, b: int) -> int {
    if a >= b {
        a - b
    } else {
        0
    }
}

/// What the seeder does for a (lower-cased) name on a `w × h` grid.
pub enum SeedPlan {
    /// Fill every cell from the caller's draws.
    Random,
    /// Draw the glider with its corner at (1, 1).
    Glider,
    /// Draw ASCII art with its corner at `(ox, oy)`.
    Art { art: Seq<char>, ox: int, oy: int },
    /// Gosper's gun on a grid smaller than 40 × 12.
    GosperTooSmall,
    /// A name the seeder does not know.
    Unknown,
}

/// The seeder's plan for a (lower-cased) name on a `w × h` grid: the art of
/// a drawn pattern and the offset of its corner (mostly centred).
pub open spec fn seed_plan(n: Seq<char>, w: int, h: int) -> SeedPlan {
    if n == "random"@ {
        SeedPlan::Random
    } else if n == "glider"@ || n == "spaceship"@ {
        SeedPlan::Glider
    } else if n == "blinker"@ {
        SeedPlan::Art { art: BLINKER@, ox: sat_sub(w, 3) / 2, oy: h / 2 }
    } else if n == "toad"@ {
        SeedPlan::Art { art: TOAD@, ox: sat_sub(w, 4) / 2, oy: sat_sub(h, 2) / 2 }
    } else if n == "beacon"@ {
        SeedPlan::Art { art: BEACON@, ox: sat_sub(w, 4) / 2, oy: sat_sub(h, 4) / 2 }
    } else if n == "block"@ {
        SeedPlan::Art { art: BLOCK@, ox: sat_sub(w, 2) / 2, oy: sat_sub(h, 2) / 2 }
    } else if n == "beehive"@ {
        SeedPlan::Art { art: BEEHIVE@, ox: sat_sub(w, 4) / 2, oy: sat_sub(h, 3) / 2 }
    } else if n == "lwss"@ {
        SeedPlan::Art { art: LWSS@, ox: 2, oy: sat_sub(h, 4) / 2 }
    } else if n == "mwss"@ {
        SeedPlan::Art { art: MWSS@, ox: 2, oy: sat_sub(h, 5) / 2 }
    } else if n == "hwss"@ {
        SeedPlan::Art { art: HWSS@, ox: 2, oy: sat_sub(h, 5) / 2 }
    } else if n == "rpentomino"@ {
        SeedPlan::Art { art: RPENTOMINO@, ox: sat_sub(w, 3) / 2, oy: sat_sub(h, 3) / 2 }
    } else if n == "acorn"@ {
        SeedPlan::Art { art: ACORN@, ox: sat_sub(w, 7) / 2, oy: sat_sub(h, 3) / 2 }
    } else if n == "diehard"@ {
        SeedPlan::Art { art: DIEHARD@, ox: sat_sub(w, 8) / 2, oy: sat_sub(h, 3) / 2 }
    } else if n == "pulsar"@ {
        SeedPlan::Art { art: PULSAR@, ox: sat_sub(w, 13) / 2, oy: sat_sub(h, 13) / 2 }
    } else if n == "gosper"@ {
        if w < 40 || h < 12 {
            SeedPlan::GosperTooSmall
        } else {
            SeedPlan::Art { art: GOSPER@, ox: 1, oy: 1 }
        }
    } else if n == "pentadecathlon"@ || n == "penta"@ || n == "pd"@ {
        SeedPlan::Art { art: PENTADECATHLON@, ox: sat_sub(w, 10) / 2, oy: sat_sub(h, 3) / 2 }
    } else if n == "glider-pair"@ || n == "gliderpair"@ || n == "gliders"@ {
        SeedPlan::Art { art: GLIDER_PAIR@, ox: sat_sub(w, 9) / 2, oy: sat_sub(h, 3) / 2 }
    } else if n == "infinite1"@ || n == "infinite"@ {
        SeedPlan::Art { art: INFINITE1@, ox: sat_sub(w, 9) / 2, oy: sat_sub(h, 2) / 2 }
    } else {
        SeedPlan::Unknown
    }
}

/// `g` holds exactly the cells and ages of `g0`.
pub open spec fn same_grid(g: &Grid, g0: &Grid) -> bool {
    &&& g.w == g0.w
    &&& g.h == g0.h
    &&& g.wrap == g0.wrap
    &&& g.states == g0.states
    &&& g.cells@ == g0.cells@
    &&& g.ages@ == g0.ages@
}

/// Seed `grid` with a named built-in pattern (ASCII case-insensitive).
///
/// `random` fills every cell from `random_fill` (one flag per cell, row-major;
/// the caller draws them); other names draw their pattern, mostly centred,
/// dropping cells that fall off the grid. Gosper's gun needs a 40 × 12 grid.
pub fn seed_pattern(grid: &mut Grid, name: &str, random_fill: &[bool]) -> (r: Result<(), String>)
    requires
        old(grid).wf(),
        seed_plan(lower_seq(name@), old(grid).w as int, old(grid).h as int) is Random
            ==> random_fill@.len() == old(grid).cells@.len(),
    ensures
        final(grid).wf(),
        ({
            let n = lower_seq(name@);
            let g0 = *old(grid);
            let g = *final(grid);
            match seed_plan(n, g0.w as int, g0.h as int) {
                SeedPlan::Random => r is Ok && g.w == g0.w && g.h == g0.h && g.wrap == g0.wrap
                    && g.states == g0.states && g.cells@ == random_fill@.map_values(
                    |b: bool|
                        if b {
                            LIVE
                        } else {
                            DEAD
                        },
                ) && g.ages@ == random_fill@.map_values(
                    |b: bool|
                        if b {
                            1u16
                        } else {
                            0u16
                        },
                ),
                SeedPlan::Glider => r is Ok && is_drawn(
                    &g,
                    &g0,
                    |dx: int, dy: int| glider_cell(dx, dy),
                    1,
                    1,
                ),
                SeedPlan::Art { art, ox, oy } => r is Ok && is_drawn(
                    &g,
                    &g0,
                    |dx: int, dy: int| art_live(lines_of(art), dx, dy),
                    ox,
                    oy,
                ),
                SeedPlan::GosperTooSmall => (r matches Err(m) && m@
                    == "gosper needs at least a 40x12 grid"@ && same_grid(&g, &g0)),
                SeedPlan::Unknown => (r matches Err(m) && m@ == "unknown pattern: "@ + n
                    + " (try: "@ + joined(builtin_names(), ", "@) + ")"@ && same_grid(&g, &g0)),
            }
        }),
{
    let raw = str_chars(name);
    let lower = lower_chars(raw.as_slice());
    let n = lower.as_slice();
    let w = grid.w;
    let h = grid.h;
    if chars_eq_str(n, "random") {
        let len = grid.cells.len();
        let mut i: usize = 0;
        while i < len
            invariant
                i <= len == grid.cells@.len() == random_fill@.len(),
                grid.wf(),
                grid.w == old(grid).w,
                grid.h == old(grid).h,
                grid.wrap == old(grid).wrap,
                grid.states == old(grid).states,
                forall|j: int|
                    0 <= j < i ==> grid.cells@[j] == (if random_fill@[j] {
                        LIVE
                    } else {
                        DEAD
                    }),
            decreases len - i,
        {
            let v: u8 = if random_fill[i] {
                LIVE
            } else {
                DEAD
            };
            grid.cells.set(i, v);
            i += 1;
        }
        grid.sync_ages_from_cells();
        assert(grid.cells@ =~= random_fill@.map_values(
            |b: bool|
                if b {
                    LIVE
                } else {
                    DEAD
                },
        ));
        assert(grid.ages@ =~= random_fill@.map_values(
            |b: bool|
                if b {
                    1u16
                } else {
                    0u16
                },
        ));
    } else if chars_eq_str(n, "glider") || chars_eq_str(n, "spaceship") {
        place_glider(grid, 1, 1);
    } else if chars_eq_str(n, "blinker") {
        place_from_str(grid, w.saturating_sub(3) / 2, h / 2, BLINKER);
    } else if chars_eq_str(n, "toad") {
        place_from_str(grid, w.saturating_sub(4) / 2, h.saturating_sub(2) / 2, TOAD);
    } else if chars_eq_str(n, "beacon") {
        place_from_str(grid, w.saturating_sub(4) / 2, h.saturating_sub(4) / 2, BEACON);
    } else if chars_eq_str(n, "block") {
        place_from_str(grid, w.saturating_sub(2) / 2, h.saturating_sub(2) / 2, BLOCK);
    } else if chars_eq_str(n, "beehive") {
        place_from_str(grid, w.saturating_sub(4) / 2, h.saturating_sub(3) / 2, BEEHIVE);
    } else if chars_eq_str(n, "lwss") {
        place_from_str(grid, 2, h.saturating_sub(4) / 2, LWSS);
    } else if chars_eq_str(n, "mwss") {
        place_from_str(grid, 2, h.saturating_sub(5) / 2, MWSS);
    } else if chars_eq_str(n, "hwss") {
        place_from_str(grid, 2, h.saturating_sub(5) / 2, HWSS);
    } else if chars_eq_str(n, "rpentomino") {
        place_from_str(grid, w.saturating_sub(3) / 2, h.saturating_sub(3) / 2, RPENTOMINO);
    } else if chars_eq_str(n, "acorn") {
        place_from_str(grid, w.saturating_sub(7) / 2, h.saturating_sub(3) / 2, ACORN);
    } else if chars_eq_str(n, "diehard") {
        place_from_str(grid, w.saturating_sub(8) / 2, h.saturating_sub(3) / 2, DIEHARD);
    } else if chars_eq_str(n, "pulsar") {
        place_from_str(grid, w.saturating_sub(13) / 2, h.saturating_sub(13) / 2, PULSAR);
    } else if chars_eq_str(n, "gosper") {
        if w < 40 || h < 12 {
            return Err(string_from_chars(str_chars("gosper needs at least a 40x12 grid")));
        }
        place_from_str(grid, 1, 1, GOSPER);
    } else if chars_eq_str(n, "pentadecathlon") || chars_eq_str(n, "penta") || chars_eq_str(n, "pd") {
        place_from_str(grid, w.saturating_sub(10) / 2, h.saturating_sub(3) / 2, PENTADECATHLON);
    } else if chars_eq_str(n, "glider-pair") || chars_eq_str(n, "gliderpair") || chars_eq_str(
        n,
        "gliders",
    ) {
        place_from_str(grid, w.saturating_sub(9) / 2, h.saturating_sub(3) / 2, GLIDER_PAIR);
    } else if chars_eq_str(n, "infinite1") || chars_eq_str(n, "infinite") {
        place_from_str(grid, w.saturating_sub(9) / 2, h.saturating_sub(2) / 2, INFINITE1);
    } else {
        let mut msg: Vec<char> = Vec::new();
        push_str(&mut msg, "unknown pattern: ");
        push_chars(&mut msg, n);
        push_str(&mut msg, " (try: ");
        let names = pattern_names();
        let ghost ns = names@.map_values(|n: &'static str| n@);
        let ghost head = msg@;
        let mut k: usize = 0;
        while k < names.len()
            invariant
                ns == names@.map_values(|n: &'static str| n@),
                ns == builtin_names(),
                k <= names@.len(),
                msg@ == head + joined(ns.take(k as int), ", "@),
            decreases names@.len() - k,
        {
            proof {
                assert(ns.take(k + 1).drop_last() =~= ns.take(k as int));
                assert(ns.take(k + 1).last() == names@[k as int]@);
            }
            if k > 0 {
                push_str(&mut msg, ", ");
            } else {
                assert(ns.take(1) =~= seq![names@[0]@]);
            }
            push_str(&mut msg, names[k]);
            k += 1;
        }
        assert(ns.take(k as int) =~= ns);
        push_str(&mut msg, ")");
        return Err(string_from_chars(msg));
    }
    Ok(())
}

/// The run length a tag uses: the digits read, or 1 when none were.
pub open spec fn tag_run(count: usize, has_digit: bool) -> nat {
    if has_digit {
        count as nat
    } else {
        1
    }
}

/// `rows` with `n` cells of value `v` added to its last row.
pub open spec fn extend_last(rows: Seq<Seq<bool>>, n: nat, v: bool) -> Seq<Seq<bool>> {
    rows.update(rows.len() - 1, rows.last() + Seq::new(n, |i: int| v))
}

/// Lenient RLE body decoding from position `i`: rows read so far, the
/// pending run count, and whether a digit was read for it. Unknown tags and
/// blanks are skipped; `!` ends the body. Fails only when a run count
/// overflows `usize`.
pub open spec fn decode_walk(
    body: Seq<char>,
    i: int,
    rows: Seq<Seq<bool>>,
    count: usize,
    has_digit: bool,
) -> Option<Seq<Seq<bool>>>
    decreases body.len() - i,
{
    if i < 0 || i >= body.len() {
        Some(rows)
    } else {
        let c = body[i];
        let n = tag_run(count, has_digit);
        if is_ascii_digit(c) {
            let v = count * 10 + digit_value(c);
            if v > usize::MAX {
                None
            } else {
                decode_walk(body, i + 1, rows, v as usize, true)
            }
        } else if c == 'b' || c == '.' {
            decode_walk(body, i + 1, extend_last(rows, n, false), 0, false)
        } else if c == 'o' || c == 'O' || c == '*' {
            decode_walk(body, i + 1, extend_last(rows, n, true), 0, false)
        } else if c == '$' {
            decode_walk(body, i + 1, rows + Seq::new(n, |k: int| Seq::<bool>::empty()), 0, false)
        } else if c == '!' {
            Some(rows)
        } else {
            decode_walk(body, i + 1, rows, count, has_digit)
        }
    }
}

/// `rows` without its trailing empty rows (keeping at least one row).
pub open spec fn trim_rows(rows: Seq<Seq<bool>>) -> Seq<Seq<bool>>
    decreases rows.len(),
{
    if rows.len() > 1 && rows.last().len() == 0 {
        trim_rows(rows.drop_last())
    } else {
        rows
    }
}

/// Length of the longest row.
pub open spec fn max_row_len(rows: Seq<Seq<bool>>) -> nat
    decreases rows.len(),
{
    if rows.len() == 0 {
        0
    } else {
        let m = max_row_len(rows.drop_last());
        if rows.last().len() > m {
            rows.last().len()
        } else {
            m
        }
    }
}

/// `cells` holds `rows` laid out densely, `pw` cells per row for `ph` rows
/// (missing cells dead).
pub open spec fn is_dense(cells: Seq<bool>, rows: Seq<Seq<bool>>, pw: int, ph: int) -> bool {
    &&& cells.len() == pw * ph
    &&& forall|x: int, y: int|
        0 <= x < pw && 0 <= y < ph ==> #[trigger] cells[y * pw + x] == (x < rows[y].len() && rows[y][x])
}

/// Decoded body: width, height and rows (trailing empty rows dropped). Fails
/// when a run count overflows, or when the cell count does not fit `usize`.
pub open spec fn spec_decode_rle(body: Seq<char>) -> Result<(usize, usize, Seq<Seq<bool>>), Seq<char>> {
    match decode_walk(body, 0, seq![Seq::<bool>::empty()], 0, false) {
        None => Err("RLE run count overflow"@),
        Some(rows) => {
            let r = trim_rows(rows);
            let ph = if r.len() > 1 {
                r.len()
            } else {
                1
            };
            let pw = if max_row_len(r) > 1 {
                max_row_len(r)
            } else {
                1
            };
            if pw * ph > usize::MAX {
                Err("RLE pattern too large"@)
            } else {
                Ok((pw as usize, ph as usize, r))
            }
        },
    }
}

/// The views of rows of cells.
pub open spec fn rows_view(v: Seq<Vec<bool>>) -> Seq<Seq<bool>> {
    v.map_values(|r: Vec<bool>| r@)
}

proof fn lemma_decode_rows_nonempty(body: Seq<char>, i: int, rows: Seq<Seq<bool>>, count: usize, has_digit: bool)
    requires
        rows.len() >= 1,
    ensures
        decode_walk(body, i, rows, count, has_digit) matches Some(r) ==> r.len() >= 1,
    decreases body.len() - i,
{
    if 0 <= i < body.len() {
        let c = body[i];
        let n = tag_run(count, has_digit);
        if is_ascii_digit(c) {
            let v = count * 10 + digit_value(c);
            if v <= usize::MAX {
                lemma_decode_rows_nonempty(body, i + 1, rows, v as usize, true);
            }
        } else if c == 'b' || c == '.' {
            lemma_decode_rows_nonempty(body, i + 1, extend_last(rows, n, false), 0, false);
        } else if c == 'o' || c == 'O' || c == '*' {
            lemma_decode_rows_nonempty(body, i + 1, extend_last(rows, n, true), 0, false);
        } else if c == '$' {
            lemma_decode_rows_nonempty(body, i + 1, rows + Seq::new(n, |k: int| Seq::<bool>::empty()), 0, false);
        } else if c != '!' {
            lemma_decode_rows_nonempty(body, i + 1, rows, count, has_digit);
        }
    }
}

/// Push `n` copies of `v` onto the last row.
fn push_cells(rows: &mut Vec<Vec<bool>>, n: usize, v: bool)
    requires
        old(rows)@.len() >= 1,
    ensures
        rows_view(final(rows)@) == extend_last(rows_view(old(rows)@), n as nat, v),
{
    let mut last = rows.pop().unwrap();
    let ghost start = last@;
    let mut k: usize = 0;
    while k < n
        invariant
            k <= n,
            last@ == start + Seq::new(k as nat, |i: int| v),
        decreases n - k,
    {
        last.push(v);
        assert(start + Seq::new((k + 1) as nat, |i: int| v) =~= (start + Seq::new(k as nat, |i: int| v)).push(v));
        k += 1;
    }
    rows.push(last);
    assert(rows_view(rows@) =~= extend_last(rows_view(old(rows)@), n as nat, v));
}

/// Decode a lenient RLE body (run counts, `b`/`.`, `o`/`O`/`*`, `$`, `!`)
/// into width, height and row-major cells.
fn decode_rle(body: &[char]) -> (r: Result<(usize, usize, Vec<bool>), String>)
    ensures
        match spec_decode_rle(body@) {
            Ok((pw, ph, rows)) => r matches Ok((a, b, c)) && a == pw && b == ph && is_dense(
                c@,
                rows,
                pw as int,
                ph as int,
            ),
            Err(m) => r matches Err(e) && e@ == m,
        },
{
    let mut rows: Vec<Vec<bool>> = Vec::new();
    rows.push(Vec::new());
    let ghost start = decode_walk(body@, 0, seq![Seq::<bool>::empty()], 0, false);
    assert(rows_view(rows@) =~= seq![Seq::<bool>::empty()]);
    let mut count: usize = 0;
    let mut has_digit = false;
    let mut i: usize = 0;
    while i < body.len()
        invariant
            i <= body@.len(),
            rows@.len() >= 1,
            start == decode_walk(body@, i as int, rows_view(rows@), count, has_digit),
            start == decode_walk(body@, 0, seq![Seq::<bool>::empty()], 0, false),
        ensures
            rows@.len() >= 1,
            start == Some(rows_view(rows@)),
        decreases body@.len() - i,
    {
        let c = body[i];
        let n: usize = if has_digit {
            count
        } else {
            1
        };
        if '0' <= c && c <= '9' {
            let d = (c as u32 - 48) as usize;
            assert(d == digit_value(c));
            has_digit = true;
            count = match count.checked_mul(10) {
                Some(t) => match t.checked_add(d) {
                    Some(v) => v,
                    None => {
                        return Err(string_from_chars(str_chars("RLE run count overflow")));
                    },
                },
                None => {
                    return Err(string_from_chars(str_chars("RLE run count overflow")));
                },
            };
        } else if c == 'b' || c == '.' {
            push_cells(&mut rows, n, false);
            count = 0;
            has_digit = false;
        } else if c == 'o' || c == 'O' || c == '*' {
            push_cells(&mut rows, n, true);
            count = 0;
            has_digit = false;
        } else if c == '$' {
            let ghost before = rows_view(rows@);
            let mut k: usize = 0;
            while k < n
                invariant
                    k <= n,
                    rows_view(rows@) == before + Seq::new(k as nat, |j: int| Seq::<bool>::empty()),
                    rows@.len() >= 1,
                decreases n - k,
            {
                let ghost prev = rows@;
                let e: Vec<bool> = Vec::new();
                assert(e@ =~= Seq::<bool>::empty());
                rows.push(e);
                assert(rows_view(rows@) =~= rows_view(prev).push(Seq::<bool>::empty()));
                assert(rows_view(rows@) =~= before + Seq::new((k + 1) as nat, |j: int| Seq::<bool>::empty()));
                k += 1;
            }
            count = 0;
            has_digit = false;
        } else if c == '!' {
            break;
        }
        i += 1;
    }
    proof {
        lemma_decode_rows_nonempty(body@, 0, seq![Seq::<bool>::empty()], 0, false);
    }
    let ghost walked = rows_view(rows@);
    assert(start == Some(walked));
    while rows.len() > 1 && rows[rows.len() - 1].len() == 0
        invariant
            rows@.len() >= 1,
            trim_rows(walked) == trim_rows(rows_view(rows@)),
        decreases rows@.len(),
    {
        let ghost before = rows_view(rows@);
        rows.pop();
        assert(rows_view(rows@) =~= before.drop_last());
    }
    let ghost r = rows_view(rows@);
    assert(trim_rows(r) == r);
    let ph = rows.len();
    let mut pw: usize = 0;
    let mut y: usize = 0;
    while y < rows.len()
        invariant
            y <= rows@.len(),
            r == rows_view(rows@),
            pw == max_row_len(r.take(y as int)),
        decreases rows@.len() - y,
    {
        assert(r.take(y + 1).drop_last() =~= r.take(y as int));
        if rows[y].len() > pw {
            pw = rows[y].len();
        }
        y += 1;
    }
    assert(r.take(r.len() as int) =~= r);
    if pw < 1 {
        pw = 1;
    }
    let total = match pw.checked_mul(ph) {
        Some(t) => t,
        None => {
            return Err(string_from_chars(str_chars("RLE pattern too large")));
        },
    };
    let mut cells: Vec<bool> = Vec::new();
    let mut k: usize = 0;
    while k < total
        invariant
            k <= total,
            cells@ == Seq::new(k as nat, |j: int| false),
        decreases total - k,
    {
        cells.push(false);
        k += 1;
    }
    assert forall|x: int, y: int| 0 <= x < pw && 0 <= y < ph implies #[trigger] cells@[y * pw + x] == (y < 0 && x < r[y].len() && r[y][x]) by {
        lemma_cell_index(x, y, pw as int, ph as int);
    }
    let mut yy: usize = 0;
    while yy < ph
        invariant
            yy <= ph == rows@.len() == r.len(),
            r == rows_view(rows@),
            pw >= 1,
            total == pw * ph,
            max_row_len(r) <= pw,
            cells@.len() == total,
            forall|x: int, y: int|
                0 <= x < pw && 0 <= y < ph ==> #[trigger] cells@[y * pw + x] == (y < yy && x < r[y].len() && r[y][x]),
        decreases ph - yy,
    {
        let row = &rows[yy];
        proof {
            lemma_row_fits(r, yy as int);
        }
        let mut x: usize = 0;
        while x < row.len()
            invariant
                yy < ph == rows@.len() == r.len(),
                r == rows_view(rows@),
                row@ == r[yy as int],
                row@.len() <= pw,
                x <= row@.len(),
                pw >= 1,
                total == pw * ph,
                cells@.len() == total,
                forall|xx: int, y: int|
                    0 <= xx < pw && 0 <= y < ph ==> #[trigger] cells@[y * pw + xx] == ((y < yy && xx < r[y].len() && r[y][xx]) || (y == yy && xx < x && r[y][xx])),
            decreases row@.len() - x,
        {
            proof {
                lemma_cell_index(x as int, yy as int, pw as int, ph as int);
            }
            let ghost before = cells@;
            cells.set(yy * pw + x, row[x]);
            proof {
                assert forall|xx: int, y: int| 0 <= xx < pw && 0 <= y < ph implies #[trigger] cells@[y * pw + xx] == ((y < yy && xx < r[y].len() && r[y][xx]) || (y == yy && xx < x + 1 && r[y][xx])) by {
                    lemma_cell_index(xx, y, pw as int, ph as int);
                    if xx != x || y != yy {
                        lemma_cell_index_injective(xx, y, x as int, yy as int, pw as int);
                        assert(cells@[y * pw + xx] == before[y * pw + xx]);
                    }
                }
            }
            x += 1;
        }
        yy += 1;
    }
    Ok((pw, ph, cells))
}

proof fn lemma_row_fits(r: Seq<Seq<bool>>, y: int)
    requires
        0 <= y < r.len(),
    ensures
        r[y].len() <= max_row_len(r),
    decreases r.len(),
{
    if y < r.len() - 1 {
        lemma_row_fits(r.drop_last(), y);
    }
}

/// A line that opens an RLE header: after leading blanks, `x` and then an `=` somewhere.
pub open spec fn is_rle_header_line(l: Seq<char>) -> bool {
    let t = trim_start_seq(l);
    t.len() > 0 && t[0] == 'x' && find_first(t, '=') is Some
}

/// A line that marks Life 1.05 text: after leading blanks, `#Life`, `#P` or `#N`.
pub open spec fn is_plain_marker(l: Seq<char>) -> bool {
    let t = trim_start_seq(l);
    starts_with(t, "#Life"@) || starts_with(t, "#P"@) || starts_with(t, "#N"@)
}

/// Text with no RLE header line and some Life 1.05 marker line.
pub open spec fn spec_looks_like_plain(text: Seq<char>) -> bool {
    let ls = lines_of(text);
    &&& !(exists|k: int| 0 <= k < ls.len() && #[trigger] is_rle_header_line(ls[k]))
    &&& exists|k: int| 0 <= k < ls.len() && #[trigger] is_plain_marker(ls[k])
}

/// A Life 1.05 cell character: live (`o O * # 1`), dead (`. b 0` and space),
/// or neither.
pub open spec fn plain_cell(c: char) -> Option<bool> {
    if c == 'o' || c == 'O' || c == '*' || c == '#' || c == '1' {
        Some(true)
    } else if c == '.' || c == 'b' || c == '0' || c == ' ' {
        Some(false)
    } else {
        None
    }
}

/// The cells of a Life 1.05 row, other characters skipped.
pub open spec fn plain_row(t: Seq<char>) -> Seq<bool>
    decreases t.len(),
{
    if t.len() == 0 {
        Seq::empty()
    } else {
        let r = plain_row(t.drop_last());
        match plain_cell(t.last()) {
            Some(v) => r.push(v),
            None => r,
        }
    }
}

/// A Life 1.05 pattern row made of cell characters has one cell per
/// character, in order: `o`, `O`, `*`, `#` and `1` are live, `.`, `b`, `0` and
/// space are dead.
pub proof fn law_plain_row_cells(t: Seq<char>)
    requires
        forall|i: int|
            0 <= i < t.len() ==> {
                let c = #[trigger] t[i];
                c == 'o' || c == 'O' || c == '*' || c == '#' || c == '1' || c == '.' || c == 'b' || c
                    == '0' || c == ' '
            },
    ensures
        plain_row(t).len() == t.len(),
        forall|i: int|
            0 <= i < t.len() ==> #[trigger] plain_row(t)[i] == (t[i] == 'o' || t[i] == 'O' || t[i]
                == '*' || t[i] == '#' || t[i] == '1'),
    decreases t.len(),
{
    if t.len() > 0 {
        let u = t.drop_last();
        assert forall|i: int| 0 <= i < u.len() implies {
            let c = #[trigger] u[i];
            c == 'o' || c == 'O' || c == '*' || c == '#' || c == '1' || c == '.' || c == 'b' || c
                == '0' || c == ' '
        } by {
            assert(u[i] == t[i]);
        }
        law_plain_row_cells(u);
        let c = t.last();
        assert(c == t[t.len() - 1]);
        assert forall|i: int| 0 <= i < t.len() implies #[trigger] plain_row(t)[i] == (t[i] == 'o'
            || t[i] == 'O' || t[i] == '*' || t[i] == '#' || t[i] == '1') by {
            if i < t.len() - 1 {
                assert(u[i] == t[i]);
                assert(plain_row(u)[i] == (u[i] == 'o' || u[i] == 'O' || u[i] == '*' || u[i] == '#'
                    || u[i] == '1'));
            }
        }
    }
}

/// Characters other than the cell characters are skipped in a Life 1.05
/// pattern row: they add no cell.
pub proof fn law_plain_row_skips(a: Seq<char>, c: char, b: Seq<char>)
    requires
        !(c == 'o' || c == 'O' || c == '*' || c == '#' || c == '1' || c == '.' || c == 'b' || c
            == '0' || c == ' '),
    ensures
        plain_row(a + seq![c] + b) == plain_row(a + b),
    decreases b.len(),
{
    if b.len() == 0 {
        assert((a + seq![c] + b).drop_last() =~= a);
        assert(a + b =~= a);
    } else {
        law_plain_row_skips(a, c, b.drop_last());
        assert((a + seq![c] + b).drop_last() =~= a + seq![c] + b.drop_last());
        assert((a + b).drop_last() =~= a + b.drop_last());
        assert((a + seq![c] + b).last() == b.last());
        assert((a + b).last() == b.last());
    }
}

/// The offset a `#P x y` line gives (unparsable numbers read as 0), for a
/// line (blanks trimmed at its end) with at least two words after `#P`.
pub open spec fn p_offset(t: Seq<char>) -> Option<(i64, i64)> {
    let ws = words(t.skip(2));
    if starts_with(t, "#P"@) && ws.len() >= 2 {
        let ox = match spec_parse_i64(ws[0]) {
            Some(v) => v,
            None => 0,
        };
        let oy = match spec_parse_i64(ws[1]) {
            Some(v) => v,
            None => 0,
        };
        Some((ox, oy))
    } else {
        None
    }
}

/// The rows of Life 1.05 lines, and the offset of the last `#P` line.
pub open spec fn plain_scan(lines: Seq<Seq<char>>) -> (Seq<Seq<bool>>, Option<(i64, i64)>)
    decreases lines.len(),
{
    if lines.len() == 0 {
        (Seq::empty(), None)
    } else {
        let (rows, off) = plain_scan(lines.drop_last());
        let t = trim_end_seq(lines.last());
        if t.len() == 0 {
            (rows, off)
        } else if t[0] == '#' {
            match p_offset(t) {
                Some(o) => (rows, Some(o)),
                None => (rows, off),
            }
        } else {
            let row = plain_row(t);
            if row.len() > 0 {
                (rows.push(row), off)
            } else {
                (rows, off)
            }
        }
    }
}

/// Where the first plain row and column land: the `#P` offset (a negative
/// one counted from the far edge), or centred.
pub open spec fn plain_base(w: int, h: int, pw: int, ph: int, off: Option<(i64, i64)>) -> (int, int) {
    match off {
        Some((ox, oy)) => (
            if ox < 0 {
                w + ox
            } else {
                ox as int
            },
            if oy < 0 {
                h + oy
            } else {
                oy as int
            },
        ),
        None => (sat_sub(w, pw) / 2, sat_sub(h, ph) / 2),
    }
}

/// Life 1.05 text with at least one live cell.
pub open spec fn plain_has_live(text: Seq<char>) -> bool {
    let rows = plain_scan(lines_of(text)).0;
    exists|dy: int, dx: int| 0 <= dy < rows.len() && 0 <= dx < rows[dy].len() && #[trigger] rows[dy][dx]
}

/// Life 1.05 text can be drawn on `g`: its dimensions fit the signed 64-bit
/// offsets used to place cells, and a grid without cells gets no live cell.
pub open spec fn plain_loadable(g: &Grid, text: Seq<char>) -> bool {
    &&& g.w <= i64::MAX
    &&& g.h <= i64::MAX
    &&& (g.w == 0 || g.h == 0 ==> !plain_has_live(text))
}

/// Text that loading reads as Life 1.05: it looks like it, or it has no RLE
/// body.
pub open spec fn reads_as_plain(text: Seq<char>) -> bool {
    spec_looks_like_plain(trim_start_seq(text)) || rle_scan(lines_of(text), None, None, Seq::empty()).2.len() == 0
}

/// Some live plain cell lands on `(x, y)` of a `w × h` torus.
pub open spec fn plain_hit(rows: Seq<Seq<bool>>, bx: int, by: int, w: int, h: int, x: int, y: int) -> bool {
    exists|dy: int, dx: int|
        0 <= dy < rows.len() && 0 <= dx < rows[dy].len() && #[trigger] rows[dy][dx] && (bx + dx) % w
            == x && (by + dy) % h == y
}

/// Cell `(x, y)` of `g` is dead, or drawn live where `mark` holds, on a
/// cleared copy of `g0`.
pub open spec fn drawn_clear_at(g: &Grid, g0: &Grid, mark: spec_fn(int, int) -> bool, ox: int, oy: int, x: int, y: int) -> bool {
    &&& g.state_at(x, y) == (if mark(x - ox, y - oy) {
        drawn_live(g0)
    } else {
        0u8
    })
    &&& g.spec_age_at(x, y) == (if mark(x - ox, y - oy) {
        if drawn_live(g0) != 0 {
            1u16
        } else {
            0u16
        }
    } else {
        0u16
    })
}

/// `g` is `g0` cleared, then with the cells for which `mark(dx, dy)` holds
/// drawn live at offset `(ox, oy)`.
pub open spec fn is_drawn_clear(g: &Grid, g0: &Grid, mark: spec_fn(int, int) -> bool, ox: int, oy: int) -> bool {
    &&& g.wf()
    &&& g.w == g0.w
    &&& g.h == g0.h
    &&& g.wrap == g0.wrap
    &&& g.states == g0.states
    &&& forall|x: int, y: int|
        0 <= x < g0.w && 0 <= y < g0.h ==> #[trigger] drawn_clear_at(g, g0, mark, ox, oy, x, y)
}

/// What loading Life 1.05 text does: with no rows, an error and the grid
/// kept; else the grid cleared and every live cell drawn, wrapping round the
/// edges.
pub open spec fn plain_outcome(g: &Grid, g0: &Grid, text: Seq<char>, r: Result<(), String>) -> bool {
    let (rows, off) = plain_scan(lines_of(text));
    if rows.len() == 0 {
        r matches Err(m) && m@ == "no cells found in plain pattern"@ && same_grid(g, g0)
    } else {
        let (bx, by) = plain_base(
            g0.w as int,
            g0.h as int,
            max_row_len(rows) as int,
            rows.len() as int,
            off,
        );
        r is Ok && is_drawn_clear(
            g,
            g0,
            |x: int, y: int| plain_hit(rows, bx, by, g0.w as int, g0.h as int, x, y),
            0,
            0,
        )
    }
}

/// Some live plain cell among those before row `cy`, column `cx` lands on `(x, y)`.
pub open spec fn plain_hit_upto(
    rows: Seq<Seq<bool>>,
    bx: int,
    by: int,
    w: int,
    h: int,
    cy: int,
    cx: int,
    x: int,
    y: int,
) -> bool {
    exists|dy: int, dx: int|
        0 <= dy < rows.len() && 0 <= dx < rows[dy].len() && (dy < cy || (dy == cy && dx < cx))
            && #[trigger] rows[dy][dx] && (bx + dx) % w == x && (by + dy) % h == y
}

proof fn lemma_plain_hit_step(rows: Seq<Seq<bool>>, bx: int, by: int, w: int, h: int, cy: int, cx: int)
    requires
        0 <= cy < rows.len(),
        0 <= cx < rows[cy].len(),
    ensures
        forall|x: int, y: int| #[trigger] plain_hit_upto(rows, bx, by, w, h, cy, cx + 1, x, y) == (
        plain_hit_upto(rows, bx, by, w, h, cy, cx, x, y) || (rows[cy][cx] && (bx + cx) % w == x && (by
            + cy) % h == y)),
{
    assert forall|x: int, y: int| #[trigger] plain_hit_upto(rows, bx, by, w, h, cy, cx + 1, x, y) == (
    plain_hit_upto(rows, bx, by, w, h, cy, cx, x, y) || (rows[cy][cx] && (bx + cx) % w == x && (by + cy)
        % h == y)) by {
        if plain_hit_upto(rows, bx, by, w, h, cy, cx + 1, x, y) {
            let (dy, dx) = choose|dy: int, dx: int|
                0 <= dy < rows.len() && 0 <= dx < rows[dy].len() && (dy < cy || (dy == cy && dx < cx + 1))
                    && #[trigger] rows[dy][dx] && (bx + dx) % w == x && (by + dy) % h == y;
            if !(dy == cy && dx == cx) {
                assert(plain_hit_upto(rows, bx, by, w, h, cy, cx, x, y));
            }
        }
        if plain_hit_upto(rows, bx, by, w, h, cy, cx, x, y) {
            let (dy, dx) = choose|dy: int, dx: int|
                0 <= dy < rows.len() && 0 <= dx < rows[dy].len() && (dy < cy || (dy == cy && dx < cx))
                    && #[trigger] rows[dy][dx] && (bx + dx) % w == x && (by + dy) % h == y;
            assert(plain_hit_upto(rows, bx, by, w, h, cy, cx + 1, x, y));
        }
        if rows[cy][cx] && (bx + cx) % w == x && (by + cy) % h == y {
            assert(plain_hit_upto(rows, bx, by, w, h, cy, cx + 1, x, y));
        }
    }
}

proof fn lemma_plain_hit_row(rows: Seq<Seq<bool>>, bx: int, by: int, w: int, h: int, cy: int)
    requires
        0 <= cy < rows.len(),
    ensures
        forall|x: int, y: int| #[trigger] plain_hit_upto(rows, bx, by, w, h, cy + 1, 0, x, y) == plain_hit_upto(
            rows,
            bx,
            by,
            w,
            h,
            cy,
            rows[cy].len() as int,
            x,
            y,
        ),
{
    assert forall|x: int, y: int| #[trigger] plain_hit_upto(rows, bx, by, w, h, cy + 1, 0, x, y) == plain_hit_upto(
        rows,
        bx,
        by,
        w,
        h,
        cy,
        rows[cy].len() as int,
        x,
        y,
    ) by {
        if plain_hit_upto(rows, bx, by, w, h, cy + 1, 0, x, y) {
            let (dy, dx) = choose|dy: int, dx: int|
                0 <= dy < rows.len() && 0 <= dx < rows[dy].len() && (dy < cy + 1 || (dy == cy + 1 && dx < 0))
                    && #[trigger] rows[dy][dx] && (bx + dx) % w == x && (by + dy) % h == y;
            assert(plain_hit_upto(rows, bx, by, w, h, cy, rows[cy].len() as int, x, y));
        }
        if plain_hit_upto(rows, bx, by, w, h, cy, rows[cy].len() as int, x, y) {
            let (dy, dx) = choose|dy: int, dx: int|
                0 <= dy < rows.len() && 0 <= dx < rows[dy].len() && (dy < cy || (dy == cy && dx
                    < rows[cy].len())) && #[trigger] rows[dy][dx] && (bx + dx) % w == x && (by + dy)
                    % h == y;
            assert(plain_hit_upto(rows, bx, by, w, h, cy + 1, 0, x, y));
        }
    }
}

proof fn lemma_drawn_to_clear(g: &Grid, c: &Grid, g0: &Grid, mark: spec_fn(int, int) -> bool, ox: int, oy: int)
    requires
        is_drawn(g, c, mark, ox, oy),
        c.w == g0.w,
        c.h == g0.h,
        c.wrap == g0.wrap,
        c.states == g0.states,
        c.wf(),
        forall|i: int| 0 <= i < c.cells@.len() ==> c.cells@[i] == 0u8 && c.ages@[i] == 0u16,
    ensures
        is_drawn_clear(g, g0, mark, ox, oy),
{
    assert forall|x: int, y: int| 0 <= x < g0.w && 0 <= y < g0.h implies #[trigger] drawn_clear_at(g, g0, mark, ox, oy, x, y) by {
        assert(drawn_at(g, c, mark, ox, oy, x, y));
        lemma_cell_index(x, y, g0.w as int, g0.h as int);
    }
}

/// `v` modulo `m`, in `0..m` (`i128::rem_euclid`).
fn wrap_coord(v: i128, m: usize) -> (r: usize)
    requires
        1 <= m <= i64::MAX,
        v > i128::MIN,
    ensures
        r as int == v as int % m as int,
        r < m,
{
    if v >= 0 {
        let r = (v as u128) % (m as u128);
        r as usize
    } else {
        let a = (-v) as u128;
        let r0 = a % (m as u128);
        let q = a / (m as u128);
        proof {
            vstd::arithmetic::div_mod::lemma_fundamental_div_mod(a as int, m as int);
        }
        if r0 == 0 {
            proof {
                let (vi, mi, qi, ai) = (v as int, m as int, q as int, a as int);
                assert(vi == (-qi) * mi) by (nonlinear_arith)
                    requires
                        ai == mi * qi,
                        ai == -vi,
                ;
                vstd::arithmetic::div_mod::lemma_fundamental_div_mod_converse(vi, mi, -qi, 0);
            }
            0
        } else {
            proof {
                let (vi, mi, qi, ai, ri) = (v as int, m as int, q as int, a as int, r0 as int);
                assert(vi == (-qi - 1) * mi + (mi - ri)) by (nonlinear_arith)
                    requires
                        ai == mi * qi + ri,
                        ai == -vi,
                ;
                vstd::arithmetic::div_mod::lemma_fundamental_div_mod_converse(vi, mi, -qi - 1, mi - ri);
            }
            (m as u128 - r0) as usize
        }
    }
}

/// The cells of a Life 1.05 row.
fn plain_row_cells(t: &[char]) -> (r: Vec<bool>)
    ensures
        r@ == plain_row(t@),
{
    let mut r: Vec<bool> = Vec::new();
    let mut i: usize = 0;
    while i < t.len()
        invariant
            i <= t@.len(),
            r@ == plain_row(t@.take(i as int)),
        decreases t@.len() - i,
    {
        let c = t[i];
        assert(t@.take(i + 1).drop_last() =~= t@.take(i as int));
        if c == 'o' || c == 'O' || c == '*' || c == '#' || c == '1' {
            r.push(true);
        } else if c == '.' || c == 'b' || c == '0' || c == ' ' {
            r.push(false);
        }
        i += 1;
    }
    assert(t@.take(t@.len() as int) =~= t@);
    r
}

/// Load Life 1.05 text into `grid`: cleared, then the live cells drawn at the
/// last `#P` offset (negative offsets from the far edge) or centred, wrapping
/// round the edges.
fn load_plain_into(grid: &mut Grid, text: &str) -> (r: Result<(), String>)
    requires
        old(grid).wf(),
        plain_loadable(old(grid), text@),
    ensures
        final(grid).wf(),
        plain_outcome(final(grid), old(grid), text@, r),
{
    let chars = str_chars(text);
    let lines = split_lines(chars.as_slice());
    let ghost ls = lines_of(text@);
    let mut rows: Vec<Vec<bool>> = Vec::new();
    let mut ox: i64 = 0;
    let mut oy: i64 = 0;
    let mut saw_p = false;
    let mut j: usize = 0;
    proof {
        reveal_strlit("#P");
    }
    assert(rows_view(rows@) =~= Seq::<Seq<bool>>::empty());
    assert(ls.take(0) =~= Seq::<Seq<char>>::empty());
    while j < lines.len()
        invariant
            j <= lines@.len() == ls.len(),
            ls == lines_of(text@),
            forall|k: int| 0 <= k < lines@.len() ==> #[trigger] lines@[k]@ == ls[k],
            (rows_view(rows@), if saw_p {
                Some((ox, oy))
            } else {
                None
            }) == plain_scan(ls.take(j as int)),
        decreases lines@.len() - j,
    {
        proof {
            assert(ls.take(j + 1).drop_last() =~= ls.take(j as int));
            assert(ls.take(j + 1).last() == ls[j as int]);
            reveal_strlit("#P");
        }
        let t = trim_end_chars(lines[j].as_slice());
        if t.len() == 0 {
        } else if t[0] == '#' {
            if chars_start_with(t.as_slice(), "#P") {
                let rest = copy_range(t.as_slice(), 2, t.len());
                assert(rest@ =~= t@.skip(2));
                let parts = first_words(rest.as_slice());
                if parts.len() >= 2 {
                    ox = match parse_i64(parts[0].as_slice()) {
                        Some(v) => v,
                        None => 0,
                    };
                    oy = match parse_i64(parts[1].as_slice()) {
                        Some(v) => v,
                        None => 0,
                    };
                    saw_p = true;
                }
            }
        } else {
            let row = plain_row_cells(t.as_slice());
            if row.len() > 0 {
                let ghost before = rows@;
                rows.push(row);
                assert(rows_view(rows@) =~= rows_view(before).push(row@));
            }
        }
        j += 1;
    }
    assert(ls.take(lines@.len() as int) =~= ls);
    let ghost rs = rows_view(rows@);
    let ghost off = if saw_p {
        Some((ox, oy))
    } else {
        None::<(i64, i64)>
    };
    if rows.len() == 0 {
        return Err(string_from_chars(str_chars("no cells found in plain pattern")));
    }
    let ph = rows.len();
    let mut pw: usize = 0;
    let mut y: usize = 0;
    while y < rows.len()
        invariant
            y <= rows@.len(),
            rs == rows_view(rows@),
            pw == max_row_len(rs.take(y as int)),
        decreases rows@.len() - y,
    {
        assert(rs.take(y + 1).drop_last() =~= rs.take(y as int));
        if rows[y].len() > pw {
            pw = rows[y].len();
        }
        y += 1;
    }
    assert(rs.take(rs.len() as int) =~= rs);
    if grid.w == 0 || grid.h == 0 {
        // A grid without cells: the rows hold no live cell, and there is
        // nothing to draw on.
        grid.clear();
        return Ok(());
    }
    let w = grid.w;
    let h = grid.h;
    let bx: i128 = if saw_p {
        if ox < 0 {
            w as i128 + ox as i128
        } else {
            ox as i128
        }
    } else {
        (w.saturating_sub(pw) / 2) as i128
    };
    let by: i128 = if saw_p {
        if oy < 0 {
            h as i128 + oy as i128
        } else {
            oy as i128
        }
    } else {
        (h.saturating_sub(ph) / 2) as i128
    };
    assert((bx as int, by as int) == plain_base(w as int, h as int, pw as int, ph as int, off));
    grid.clear();
    let ghost cleared = *grid;
    assert(is_drawn(
        grid,
        &cleared,
        |a: int, b: int| plain_hit_upto(rs, bx as int, by as int, w as int, h as int, 0, 0, a, b),
        0,
        0,
    ));
    let mut dy: usize = 0;
    while dy < ph
        invariant
            dy <= ph == rows@.len() == rs.len(),
            rs == rows_view(rows@),
            cleared.wf(),
            w == cleared.w,
            h == cleared.h,
            1 <= w <= i64::MAX,
            1 <= h <= i64::MAX,
            -0x1_0000_0000_0000_0000i128 <= bx <= 0x1_0000_0000_0000_0000i128,
            -0x1_0000_0000_0000_0000i128 <= by <= 0x1_0000_0000_0000_0000i128,
            is_drawn(
                grid,
                &cleared,
                |a: int, b: int| plain_hit_upto(rs, bx as int, by as int, w as int, h as int, dy as int, 0, a, b),
                0,
                0,
            ),
        decreases ph - dy,
    {
        let row = &rows[dy];
        let mut dx: usize = 0;
        while dx < row.len()
            invariant
                dy < ph == rows@.len() == rs.len(),
                rs == rows_view(rows@),
                row@ == rs[dy as int],
                dx <= row@.len(),
                cleared.wf(),
                w == cleared.w,
                h == cleared.h,
                1 <= w <= i64::MAX,
                1 <= h <= i64::MAX,
                -0x1_0000_0000_0000_0000i128 <= bx <= 0x1_0000_0000_0000_0000i128,
                -0x1_0000_0000_0000_0000i128 <= by <= 0x1_0000_0000_0000_0000i128,
                is_drawn(
                    grid,
                    &cleared,
                    |a: int, b: int| plain_hit_upto(rs, bx as int, by as int, w as int, h as int, dy as int, dx as int, a, b),
                    0,
                    0,
                ),
            decreases row@.len() - dx,
        {
            let ghost m1 = |a: int, b: int| plain_hit_upto(rs, bx as int, by as int, w as int, h as int, dy as int, dx as int, a, b);
            let ghost m2 = |a: int, b: int| plain_hit_upto(rs, bx as int, by as int, w as int, h as int, dy as int, dx + 1, a, b);
            proof {
                lemma_plain_hit_step(rs, bx as int, by as int, w as int, h as int, dy as int, dx as int);
            }
            let ghost before = *grid;
            if row[dx] {
                let x = wrap_coord(bx + dx as i128, w);
                let y = wrap_coord(by + dy as i128, h);
                grid.set(x, y, true);
                proof {
                    lemma_draw_cell(grid, &before, &cleared, m1, m2, 0, 0, x as int, y as int);
                }
            } else {
                proof {
                    lemma_drawn_same(grid, &before, &cleared, m1, m2, 0, 0);
                }
            }
            dx += 1;
        }
        proof {
            lemma_plain_hit_row(rs, bx as int, by as int, w as int, h as int, dy as int);
            lemma_drawn_same(
                grid,
                grid,
                &cleared,
                |a: int, b: int| plain_hit_upto(rs, bx as int, by as int, w as int, h as int, dy as int, rs[dy as int].len() as int, a, b),
                |a: int, b: int| plain_hit_upto(rs, bx as int, by as int, w as int, h as int, dy + 1, 0, a, b),
                0,
                0,
            );
        }
        dy += 1;
    }
    proof {
        assert forall|a: int, b: int| #[trigger] plain_hit_upto(rs, bx as int, by as int, w as int, h as int, ph as int, 0, a, b) == plain_hit(rs, bx as int, by as int, w as int, h as int, a, b) by {
            if plain_hit(rs, bx as int, by as int, w as int, h as int, a, b) {
                let (py, px) = choose|py: int, px: int|
                    0 <= py < rs.len() && 0 <= px < rs[py].len() && #[trigger] rs[py][px] && (bx + px) % (w as int) == a
                        && (by + py) % (h as int) == b;
                assert(plain_hit_upto(rs, bx as int, by as int, w as int, h as int, ph as int, 0, a, b));
            }
        }
        lemma_drawn_same(
            grid,
            grid,
            &cleared,
            |a: int, b: int| plain_hit_upto(rs, bx as int, by as int, w as int, h as int, ph as int, 0, a, b),
            |a: int, b: int| plain_hit(rs, bx as int, by as int, w as int, h as int, a, b),
            0,
            0,
        );
        lemma_drawn_to_clear(grid, &cleared, old(grid), |a: int, b: int| plain_hit(rs, bx as int, by as int, w as int, h as int, a, b), 0, 0);
    }
    Ok(())
}

/// The value after `=` in a header part that starts with `lo` or `up`.
pub open spec fn dim_value(p: Seq<char>, lo: char, up: char) -> Option<Seq<char>> {
    if p.len() > 0 && (p[0] == lo || p[0] == up) {
        let r = trim_seq(p.drop_first());
        if r.len() > 0 && r[0] == '=' {
            Some(trim_seq(r.drop_first()))
        } else {
            None
        }
    } else {
        None
    }
}

/// A header dimension: the first word of `v` when it reads as a `usize`,
/// else the value found before.
pub open spec fn header_dim(v: Seq<char>, prev: Option<usize>) -> Option<usize> {
    let ws = words(v);
    if ws.len() > 0 && spec_parse_usize(ws[0]) is Some {
        spec_parse_usize(ws[0])
    } else {
        prev
    }
}

/// Read the dimensions from the comma-separated parts of a header line.
pub open spec fn scan_parts(parts: Seq<Seq<char>>, w: Option<usize>, h: Option<usize>) -> (Option<usize>, Option<usize>)
    decreases parts.len(),
{
    if parts.len() == 0 {
        (w, h)
    } else {
        let p = trim_seq(parts[0]);
        match dim_value(p, 'x', 'X') {
            Some(v) => scan_parts(parts.drop_first(), header_dim(v, w), h),
            None => match dim_value(p, 'y', 'Y') {
                Some(v) => scan_parts(parts.drop_first(), w, header_dim(v, h)),
                None => scan_parts(parts.drop_first(), w, h),
            },
        }
    }
}

/// Lenient reading of RLE lines: the declared width and height, and the body
/// (the trimmed lines that are neither blank, comments nor headers).
pub open spec fn rle_scan(lines: Seq<Seq<char>>, w: Option<usize>, h: Option<usize>, body: Seq<char>) -> (
    Option<usize>,
    Option<usize>,
    Seq<char>,
)
    decreases lines.len(),
{
    if lines.len() == 0 {
        (w, h, body)
    } else {
        let t = trim_seq(lines[0]);
        if t.len() == 0 || t[0] == '#' {
            rle_scan(lines.drop_first(), w, h, body)
        } else if t[0] == 'x' || t[0] == 'X' {
            let (w2, h2) = scan_parts(split_on(t, ','), w, h);
            rle_scan(lines.drop_first(), w2, h2, body)
        } else {
            rle_scan(lines.drop_first(), w, h, body + t)
        }
    }
}

/// The decoded cell `(dx, dy)` of a `pw × ph` pattern with these rows is live.
pub open spec fn decoded_live(rows: Seq<Seq<bool>>, pw: int, ph: int, dx: int, dy: int) -> bool {
    0 <= dx < pw && 0 <= dy < ph && dx < rows[dy].len() && rows[dy][dx]
}

/// What loading lenient RLE text does: with no body, what loading it as
/// Life 1.05 does; else the decoded pattern (at its declared size, if any)
/// centred on the cleared grid, or an error with the grid kept.
pub open spec fn rle_load_outcome(g: &Grid, g0: &Grid, text: Seq<char>, r: Result<(), String>) -> bool {
    let (wd, hd, body) = rle_scan(lines_of(text), None, None, Seq::empty());
    if body.len() == 0 {
        plain_outcome(g, g0, text, r)
    } else {
        match spec_decode_rle(body) {
            Err(m) => r matches Err(e) && e@ == m && same_grid(g, g0),
            Ok((pw, ph, rows)) => {
                let pat_w = match wd {
                    Some(v) => v,
                    None => pw,
                };
                let pat_h = match hd {
                    Some(v) => v,
                    None => ph,
                };
                if pat_w > g0.w || pat_h > g0.h {
                    r matches Err(e) && e@ == "pattern "@ + decimal_seq(pat_w as nat) + "x"@ + decimal_seq(
                        pat_h as nat,
                    ) + " does not fit in grid "@ + decimal_seq(g0.w as nat) + "x"@ + decimal_seq(
                        g0.h as nat,
                    ) && same_grid(g, g0)
                } else {
                    r is Ok && is_drawn_clear(
                        g,
                        g0,
                        |dx: int, dy: int| decoded_live(rows, pw as int, ph as int, dx, dy),
                        sat_sub(g0.w as int, pat_w as int) / 2,
                        sat_sub(g0.h as int, pat_h as int) / 2,
                    )
                }
            },
        }
    }
}

fn is_rle_header(l: &[char]) -> (b: bool)
    ensures
        b == is_rle_header_line(l@),
{
    let t = trim_start_chars(l);
    t.len() > 0 && t[0] == 'x' && find_char(t.as_slice(), '=').is_some()
}

fn is_marker(l: &[char]) -> (b: bool)
    ensures
        b == is_plain_marker(l@),
{
    let t = trim_start_chars(l);
    chars_start_with(t.as_slice(), "#Life") || chars_start_with(t.as_slice(), "#P")
        || chars_start_with(t.as_slice(), "#N")
}

/// Whether text reads as Life 1.05: no `x =` header line, and a `#Life`,
/// `#P` or `#N` line.
fn looks_like_plain(text: &[char]) -> (b: bool)
    ensures
        b == spec_looks_like_plain(text@),
{
    let lines = split_lines(text);
    let ghost ls = lines_of(text@);
    let mut k: usize = 0;
    while k < lines.len()
        invariant
            k <= lines@.len() == ls.len(),
            forall|q: int| 0 <= q < lines@.len() ==> #[trigger] lines@[q]@ == ls[q],
            forall|q: int| 0 <= q < k ==> !#[trigger] is_rle_header_line(ls[q]),
            ls == lines_of(text@),
        decreases lines@.len() - k,
    {
        if is_rle_header(lines[k].as_slice()) {
            assert(is_rle_header_line(ls[k as int]));
            return false;
        }
        k += 1;
    }
    let mut j: usize = 0;
    while j < lines.len()
        invariant
            j <= lines@.len() == ls.len(),
            forall|q: int| 0 <= q < lines@.len() ==> #[trigger] lines@[q]@ == ls[q],
            forall|q: int| 0 <= q < lines@.len() ==> !#[trigger] is_rle_header_line(ls[q]),
            forall|q: int| 0 <= q < j ==> !#[trigger] is_plain_marker(ls[q]),
            ls == lines_of(text@),
        decreases lines@.len() - j,
    {
        if is_marker(lines[j].as_slice()) {
            assert(is_plain_marker(ls[j as int]));
            return true;
        }
        j += 1;
    }
    false
}

fn dim_value_of(p: &[char], lo: char, up: char) -> (r: Option<Vec<char>>)
    ensures
        match dim_value(p@, lo, up) {
            Some(v) => r matches Some(x) && x@ == v,
            None => r is None,
        },
{
    if p.len() > 0 && (p[0] == lo || p[0] == up) {
        let rest = copy_range(p, 1, p.len());
        assert(rest@ =~= p@.drop_first());
        let r1 = trim_chars(rest.as_slice());
        if r1.len() > 0 && r1[0] == '=' {
            let rest2 = copy_range(r1.as_slice(), 1, r1.len());
            assert(rest2@ =~= r1@.drop_first());
            Some(trim_chars(rest2.as_slice()))
        } else {
            None
        }
    } else {
        None
    }
}

fn header_dim_of(v: &[char], prev: Option<usize>) -> (r: Option<usize>)
    ensures
        r == header_dim(v@, prev),
{
    let ws = first_words(v);
    if ws.len() > 0 {
        match parse_usize(ws[0].as_slice()) {
            Some(n) => Some(n),
            None => prev,
        }
    } else {
        prev
    }
}

/// Load lenient RLE text into `grid`: the decoded pattern, centred on the
/// cleared grid; text with no body is read as Life 1.05.
fn load_rle_body(grid: &mut Grid, text: &str) -> (r: Result<(), String>)
    requires
        old(grid).wf(),
        rle_scan(lines_of(text@), None, None, Seq::empty()).2.len() == 0 ==> plain_loadable(
            old(grid),
            text@,
        ),
    ensures
        final(grid).wf(),
        rle_load_outcome(final(grid), old(grid), text@, r),
{
    let chars = str_chars(text);
    let lines = split_lines(chars.as_slice());
    let ghost ls = lines_of(text@);
    let ghost scanned = rle_scan(ls, None, None, Seq::empty());
    let mut width: Option<usize> = None;
    let mut height: Option<usize> = None;
    let mut body: Vec<char> = Vec::new();
    let mut j: usize = 0;
    assert(ls.skip(0) =~= ls);
    while j < lines.len()
        invariant
            j <= lines@.len() == ls.len(),
            forall|q: int| 0 <= q < lines@.len() ==> #[trigger] lines@[q]@ == ls[q],
            scanned == rle_scan(ls.skip(j as int), width, height, body@),
        decreases lines@.len() - j,
    {
        proof {
            assert(ls.skip(j as int)[0] == ls[j as int]);
            assert(ls.skip(j as int).drop_first() =~= ls.skip(j + 1));
        }
        let t = trim_chars(lines[j].as_slice());
        if t.len() == 0 || t[0] == '#' {
        } else if t[0] == 'x' || t[0] == 'X' {
            let parts = split_chars(t.as_slice(), ',');
            let ghost ps = split_on(t@, ',');
            let ghost target = scan_parts(ps, width, height);
            let mut k: usize = 0;
            assert(ps.skip(0) =~= ps);
            while k < parts.len()
                invariant
                    k <= parts@.len() == ps.len(),
                    forall|q: int| 0 <= q < parts@.len() ==> #[trigger] parts@[q]@ == ps[q],
                    target == scan_parts(ps.skip(k as int), width, height),
                decreases parts@.len() - k,
            {
                proof {
                    assert(ps.skip(k as int)[0] == ps[k as int]);
                    assert(ps.skip(k as int).drop_first() =~= ps.skip(k + 1));
                }
                let p = trim_chars(parts[k].as_slice());
                match dim_value_of(p.as_slice(), 'x', 'X') {
                    Some(v) => {
                        width = header_dim_of(v.as_slice(), width);
                    },
                    None => match dim_value_of(p.as_slice(), 'y', 'Y') {
                        Some(v) => {
                            height = header_dim_of(v.as_slice(), height);
                        },
                        None => {},
                    },
                }
                k += 1;
            }
            assert(ps.skip(k as int) =~= Seq::<Seq<char>>::empty());
        } else {
            push_chars(&mut body, t.as_slice());
        }
        j += 1;
    }
    assert(ls.skip(j as int) =~= Seq::<Seq<char>>::empty());
    if body.len() == 0 {
        return load_plain_into(grid, text);
    }
    let (pw, ph, cells) = match decode_rle(body.as_slice()) {
        Ok(v) => v,
        Err(e) => {
            return Err(e);
        },
    };
    let ghost rows = spec_decode_rle(body@)->Ok_0.2;
    let w = grid.w;
    let h = grid.h;
    let pattern_w = match width {
        Some(v) => v,
        None => pw,
    };
    let pattern_h = match height {
        Some(v) => v,
        None => ph,
    };
    if pattern_w > w || pattern_h > h {
        let mut msg: Vec<char> = Vec::new();
        push_str(&mut msg, "pattern ");
        push_decimal(&mut msg, pattern_w as u128);
        push_str(&mut msg, "x");
        push_decimal(&mut msg, pattern_h as u128);
        push_str(&mut msg, " does not fit in grid ");
        push_decimal(&mut msg, w as u128);
        push_str(&mut msg, "x");
        push_decimal(&mut msg, h as u128);
        return Err(string_from_chars(msg));
    }
    let ox = w.saturating_sub(pattern_w) / 2;
    let oy = h.saturating_sub(pattern_h) / 2;
    let total = cells.len();
    grid.clear();
    let ghost cleared = *grid;
    assert(is_drawn(
        grid,
        &cleared,
        |a: int, b: int| decoded_live(rows, pw as int, ph as int, a, b) && b < 0,
        ox as int,
        oy as int,
    ));
    let mut y: usize = 0;
    while y < ph
        invariant
            y <= ph,
            cleared.wf(),
            w == cleared.w,
            h == cleared.h,
            is_dense(cells@, rows, pw as int, ph as int),
            total == cells@.len(),
            is_drawn(
                grid,
                &cleared,
                |a: int, b: int| decoded_live(rows, pw as int, ph as int, a, b) && b < y,
                ox as int,
                oy as int,
            ),
        decreases ph - y,
    {
        let mut x: usize = 0;
        proof {
            lemma_drawn_same(
                grid,
                grid,
                &cleared,
                |a: int, b: int| decoded_live(rows, pw as int, ph as int, a, b) && b < y,
                |a: int, b: int| decoded_live(rows, pw as int, ph as int, a, b) && (b < y || (b == y && a < 0)),
                ox as int,
                oy as int,
            );
        }
        while x < pw
            invariant
                y < ph,
                x <= pw,
                cleared.wf(),
                w == cleared.w,
                h == cleared.h,
                is_dense(cells@, rows, pw as int, ph as int),
                total == cells@.len(),
                is_drawn(
                    grid,
                    &cleared,
                    |a: int, b: int| decoded_live(rows, pw as int, ph as int, a, b) && (b < y || (b == y && a < x)),
                    ox as int,
                    oy as int,
                ),
            decreases pw - x,
        {
            let ghost m1 = |a: int, b: int| decoded_live(rows, pw as int, ph as int, a, b) && (b < y || (b == y && a < x));
            let ghost m2 = |a: int, b: int| decoded_live(rows, pw as int, ph as int, a, b) && (b < y || (b == y && a < x + 1));
            proof {
                lemma_cell_index(x as int, y as int, pw as int, ph as int);
            }
            assert(y * pw + x < total);
            let live = cells[y * pw + x];
            assert(live == decoded_live(rows, pw as int, ph as int, x as int, y as int));
            let ghost before = *grid;
            if live {
                match (ox.checked_add(x), oy.checked_add(y)) {
                    (Some(gx), Some(gy)) => {
                        grid.set(gx, gy, true);
                        proof {
                            if gx < w && gy < h {
                                lemma_draw_cell(grid, &before, &cleared, m1, m2, ox as int, oy as int, gx as int, gy as int);
                            } else {
                                lemma_drawn_same(grid, &before, &cleared, m1, m2, ox as int, oy as int);
                            }
                        }
                    },
                    _ => {
                        proof {
                            lemma_drawn_same(grid, &before, &cleared, m1, m2, ox as int, oy as int);
                        }
                    },
                }
            } else {
                proof {
                    lemma_drawn_same(grid, &before, &cleared, m1, m2, ox as int, oy as int);
                }
            }
            x += 1;
        }
        proof {
            lemma_drawn_same(
                grid,
                grid,
                &cleared,
                |a: int, b: int| decoded_live(rows, pw as int, ph as int, a, b) && (b < y || (b == y && a < pw)),
                |a: int, b: int| decoded_live(rows, pw as int, ph as int, a, b) && b < y + 1,
                ox as int,
                oy as int,
            );
        }
        y += 1;
    }
    proof {
        lemma_drawn_same(
            grid,
            grid,
            &cleared,
            |a: int, b: int| decoded_live(rows, pw as int, ph as int, a, b) && b < ph,
            |a: int, b: int| decoded_live(rows, pw as int, ph as int, a, b),
            ox as int,
            oy as int,
        );
        lemma_drawn_to_clear(
            grid,
            &cleared,
            old(grid),
            |a: int, b: int| decoded_live(rows, pw as int, ph as int, a, b),
            ox as int,
            oy as int,
        );
    }
    Ok(())
}

/// Parse RLE or Life 1.05 content and place its cells into `grid` (the grid
/// is cleared first). Text that has a `#Life`, `#P` or `#N` line and no
/// `x =` header is read as Life 1.05.
pub fn load_rle_into(grid: &mut Grid, text: &str) -> (r: Result<(), String>)
    requires
        old(grid).wf(),
        reads_as_plain(text@) ==> plain_loadable(old(grid), text@),
    ensures
        final(grid).wf(),
        spec_looks_like_plain(trim_start_seq(text@)) ==> plain_outcome(final(grid), old(grid), text@, r),
        !spec_looks_like_plain(trim_start_seq(text@)) ==> rle_load_outcome(final(grid), old(grid), text@, r),
{
    let chars = str_chars(text);
    let trimmed = trim_start_chars(chars.as_slice());
    if looks_like_plain(trimmed.as_slice()) {
        return load_plain_into(grid, text);
    }
    load_rle_body(grid, text)
}

/// Whether the cells of row `y`, columns `x0..x0 + n`, are non-dead.
pub open spec fn grid_row(g: &Grid, x0: int, y: int, n: int) -> Seq<bool> {
    Seq::new(n as nat, |i: int| g.state_at(x0 + i, y) != 0)
}

/// Index of the last `true`.
pub open spec fn last_true(s: Seq<bool>) -> Option<int>
    decreases s.len(),
{
    if s.len() == 0 {
        None
    } else if s.last() {
        Some(s.len() - 1)
    } else {
        last_true(s.drop_last())
    }
}

/// The runs of a row without its trailing dead run.
pub open spec fn trimmed_runs(s: Seq<bool>) -> Seq<char> {
    match last_true(s) {
        None => Seq::empty(),
        Some(k) => encode_runs(s.take(k + 1)),
    }
}

/// Rows `0..n` of the bounding box `b`, encoded and joined with `$`.
pub open spec fn bbox_rows_text(g: &Grid, b: (usize, usize, usize, usize), n: int) -> Seq<char>
    decreases n,
{
    let w = b.2 - b.0 + 1;
    if n <= 1 {
        trimmed_runs(grid_row(g, b.0 as int, b.1 as int, w))
    } else {
        bbox_rows_text(g, b, n - 1) + "$"@ + trimmed_runs(grid_row(g, b.0 as int, b.1 + n - 1, w))
    }
}

/// The RLE text of a grid: name and origin comments, the header for the
/// bounding box of the live cells (rule B3/S23), and the body in lines of at
/// most 70 characters.
pub open spec fn spec_to_rle(g: &Grid, name: Seq<char>) -> Seq<char> {
    let head = "#N "@ + name + "\n"@ + "#O gol-rs\n"@;
    if has_live(g) {
        let b = choose|b: (usize, usize, usize, usize)| is_live_bounds(g, b);
        let w = b.2 - b.0 + 1;
        let h = b.3 - b.1 + 1;
        head + "x = "@ + decimal_seq(w as nat) + ", y = "@ + decimal_seq(h as nat) + ", rule = B3/S23\n"@
            + wrap_lines(bbox_rows_text(g, b, h) + "!"@)
    } else {
        head + "x = 0, y = 0, rule = B3/S23\n!\n"@
    }
}

/// `s` without its trailing digits.
pub open spec fn drop_digits(s: Seq<char>) -> Seq<char>
    decreases s.len(),
{
    if s.len() > 0 && is_ascii_digit(s.last()) {
        drop_digits(s.drop_last())
    } else {
        s
    }
}

pub proof fn lemma_drop_digits_len(s: Seq<char>)
    ensures
        drop_digits(s).len() <= s.len(),
    decreases s.len(),
{
    if s.len() > 0 && is_ascii_digit(s.last()) {
        lemma_drop_digits_len(s.drop_last());
    }
}

/// `s` without its trailing dead runs (`b` and the count before it).
pub open spec fn strip_dead(s: Seq<char>) -> Seq<char>
    decreases s.len(),
{
    if s.len() > 0 && s.last() == 'b' {
        proof {
            lemma_drop_digits_len(s.drop_last());
        }
        strip_dead(drop_digits(s.drop_last()))
    } else {
        s
    }
}

proof fn lemma_drop_digits_suffix(x: Seq<char>, d: Seq<char>)
    requires
        forall|i: int| 0 <= i < d.len() ==> is_ascii_digit(#[trigger] d[i]),
        x.len() == 0 || !is_ascii_digit(x.last()),
    ensures
        drop_digits(x + d) == x,
    decreases d.len(),
{
    if d.len() > 0 {
        assert((x + d).drop_last() =~= x + d.drop_last());
        lemma_drop_digits_suffix(x, d.drop_last());
    } else {
        assert(x + d =~= x);
    }
}

proof fn lemma_last_true_falses(t: Seq<bool>, n: int)
    requires
        0 <= n <= t.len(),
        forall|j: int| t.len() - n <= j < t.len() ==> !#[trigger] t[j],
    ensures
        last_true(t) == last_true(t.take(t.len() - n)),
    decreases n,
{
    if n > 0 {
        assert(t.drop_last().take(t.len() - n) =~= t.take(t.len() - n));
        lemma_last_true_falses(t.drop_last(), n - 1);
    } else {
        assert(t.take(t.len() as int) =~= t);
    }
}

proof fn lemma_last_true_bound(t: Seq<bool>)
    ensures
        last_true(t) matches Some(k) ==> 0 <= k < t.len() && t[k],
    decreases t.len(),
{
    if t.len() > 0 && !t.last() {
        lemma_last_true_bound(t.drop_last());
    }
}

/// Stripping the trailing dead runs of a row's runs leaves its trimmed runs.
proof fn lemma_strip_row(p: Seq<char>, t: Seq<bool>)
    requires
        p.len() == 0 || p.last() == '$',
    ensures
        strip_dead(p + encode_runs(t)) == p + trimmed_runs(t),
    decreases t.len(),
{
    if t.len() == 0 {
        assert(p + encode_runs(t) =~= p);
        assert(p + trimmed_runs(t) =~= p);
    } else {
        lemma_trailing_run_bounds(t);
        lemma_trailing_values(t);
        let n = trailing_run(t);
        let t0 = t.take(t.len() - n);
        let e0 = encode_runs(t0);
        let rt = run_text(n, t.last());
        assert(encode_runs(t) == e0 + rt);
        if t.last() {
            assert((p + (e0 + rt)).last() == 'o');
            assert(t.take(t.len() as int) =~= t);
        } else {
            lemma_decimal_seq(n);
            let d = if n > 1 {
                decimal_seq(n)
            } else {
                Seq::<char>::empty()
            };
            assert(rt == d.push('b'));
            assert(p + (e0 + rt) =~= (p + e0 + d).push('b'));
            assert((p + e0 + d).push('b').drop_last() =~= p + e0 + d);
            if t0.len() > 0 {
                lemma_trailing_run_bounds(t0);
                let n0 = trailing_run(t0);
                assert(t0.last() == t[t.len() - n - 1]);
                assert(encode_runs(t0) == encode_runs(t0.take(t0.len() - n0)) + run_text(n0, t0.last()));
                assert((p + e0).last() == 'o');
            } else {
                assert(e0 =~= Seq::<char>::empty());
                assert(p + e0 =~= p);
            }
            lemma_drop_digits_suffix(p + e0, d);
            lemma_strip_row(p, t0);
            lemma_last_true_falses(t, n as int);
        }
    }
}

/// Remove a trailing dead run (`b` and its count), repeatedly.
fn strip_trailing_dead_run(s: &mut Vec<char>)
    ensures
        final(s)@ == strip_dead(old(s)@),
{
    while s.len() > 0 && s[s.len() - 1] == 'b'
        invariant
            strip_dead(old(s)@) == strip_dead(s@),
        decreases s@.len(),
    {
        let ghost before = s@;
        s.pop();
        while s.len() > 0 && '0' <= s[s.len() - 1] && s[s.len() - 1] <= '9'
            invariant
                drop_digits(before.drop_last()) == drop_digits(s@),
                s@.len() <= before.len() - 1,
            decreases s@.len(),
        {
            let ghost b2 = s@;
            s.pop();
            assert(s@ =~= b2.drop_last());
        }
        proof {
            lemma_drop_digits_len(before.drop_last());
        }
    }
}

/// Append the maximal runs of row `y`, columns `x0..=x1`.
fn push_row_runs(out: &mut Vec<char>, g: &Grid, y: usize, x0: usize, x1: usize)
    requires
        g.wf(),
        x0 <= x1 < g.w,
        y < g.h,
    ensures
        final(out)@ == old(out)@ + encode_runs(grid_row(g, x0 as int, y as int, x1 - x0 + 1)),
{
    let ghost s = grid_row(g, x0 as int, y as int, x1 - x0 + 1);
    let mut x = x0;
    while x <= x1
        invariant
            g.wf(),
            x0 <= x <= x1 + 1,
            x1 < g.w,
            y < g.h,
            s == grid_row(g, x0 as int, y as int, x1 - x0 + 1),
            x <= x1 ==> x == x0 || s[x - x0 - 1] != s[x - x0],
            out@ == old(out)@ + encode_runs(s.take(x - x0)),
        decreases x1 + 1 - x,
    {
        let alive = g.get(x, y);
        let mut run: usize = 1;
        while x + run <= x1 && g.get(x + run, y) == alive
            invariant
                g.wf(),
                x0 <= x <= x1,
                x1 < g.w,
                y < g.h,
                1 <= run <= x1 + 1 - x,
                s == grid_row(g, x0 as int, y as int, x1 - x0 + 1),
                alive == s[x - x0],
                forall|j: int| x - x0 <= j < x - x0 + run ==> #[trigger] s[j] == alive,
            decreases x1 + 1 - x - run,
        {
            run += 1;
        }
        proof {
            lemma_encode_step(s, (x - x0 + run) as int, run as int, alive);
            assert(s.take(x - x0 + run).take(x - x0) =~= s.take(x - x0));
        }
        push_run(out, run, alive);
        x += run;
    }
    assert(s.take(x1 - x0 + 1) =~= s);
}

/// Append `body` in lines of at most 70 characters, each ended by a newline.
fn push_wrapped(out: &mut Vec<char>, body: &[char])
    ensures
        final(out)@ == old(out)@ + wrap_lines(body@),
{
    let ghost b = body@;
    let ghost head = old(out)@;
    let mut i: usize = 0;
    assert(b.skip(0) =~= b);
    while i < body.len()
        invariant
            b == body@,
            i <= b.len(),
            head + wrap_lines(b) == out@ + wrap_lines(b.skip(i as int)),
        decreases b.len() - i,
    {
        let end: usize = if body.len() - i <= 70 {
            body.len()
        } else {
            i + 70
        };
        let chunk = copy_range(body, i, end);
        proof {
            let rest = b.skip(i as int);
            assert(b.skip(end as int) =~= rest.skip(end - i));
            if rest.len() <= 70 {
                assert(chunk@ =~= rest);
                assert(b.skip(end as int) =~= Seq::<char>::empty());
            } else {
                assert(chunk@ =~= rest.take(70));
            }
        }
        push_chars(out, chunk.as_slice());
        out.push('\n');
        i = end;
    }
    assert(b.skip(i as int) =~= Seq::<char>::empty());
}

/// Encode the live cells of `grid` as Life RLE text (bounding box of the
/// live cells, rule B3/S23), with `#N name` and `#O gol-rs` comments.
#[must_use]
pub fn to_rle(grid: &Grid, name: &str) -> (s: String)
    requires
        grid.wf(),
    ensures
        s@ == spec_to_rle(grid, name@),
{
    let mut out: Vec<char> = Vec::new();
    push_str(&mut out, "#N ");
    push_chars(&mut out, str_chars(name).as_slice());
    push_str(&mut out, "\n");
    push_str(&mut out, "#O gol-rs\n");
    let ghost head = out@;
    match grid.live_bounds() {
        None => {
            push_str(&mut out, "x = 0, y = 0, rule = B3/S23\n!\n");
            string_from_chars(out)
        },
        Some((min_x, min_y, max_x, max_y)) => {
            let ghost b = (min_x, min_y, max_x, max_y);
            proof {
                let c = choose|c: (usize, usize, usize, usize)| is_live_bounds(grid, c);
                lemma_live_bounds_unique(grid, b, c);
                let y0 = choose|y: int| 0 <= y < grid.h && #[trigger] grid.state_at(b.0 as int, y) != 0;
                let x1 = choose|x: int| 0 <= x < grid.w && #[trigger] grid.state_at(x, b.1 as int) != 0;
                let y2 = choose|y: int| 0 <= y < grid.h && #[trigger] grid.state_at(b.2 as int, y) != 0;
                let x3 = choose|x: int| 0 <= x < grid.w && #[trigger] grid.state_at(x, b.3 as int) != 0;
                assert(min_x <= max_x < grid.w);
                assert(min_y <= max_y < grid.h);
            }
            let w = max_x - min_x + 1;
            let h = max_y - min_y + 1;
            push_str(&mut out, "x = ");
            push_decimal(&mut out, w as u128);
            push_str(&mut out, ", y = ");
            push_decimal(&mut out, h as u128);
            push_str(&mut out, ", rule = B3/S23\n");
            let mut body: Vec<char> = Vec::new();
            let mut y = min_y;
            while y <= max_y
                invariant
                    grid.wf(),
                    min_x <= max_x < grid.w,
                    min_y <= y <= max_y + 1,
                    max_y < grid.h,
                    b == (min_x, min_y, max_x, max_y),
                    w == max_x - min_x + 1,
                    body@ == (if y == min_y {
                        Seq::empty()
                    } else {
                        bbox_rows_text(grid, b, y - min_y) + (if y <= max_y {
                            "$"@
                        } else {
                            Seq::empty()
                        })
                    }),
                decreases max_y + 1 - y,
            {
                let ghost before = body@;
                proof {
                    reveal_strlit("$");
                }
                push_row_runs(&mut body, grid, y, min_x, max_x);
                proof {
                    lemma_strip_row(before, grid_row(grid, min_x as int, y as int, w as int));
                }
                strip_trailing_dead_run(&mut body);
                proof {
                    if y == min_y {
                        assert(body@ =~= bbox_rows_text(grid, b, 1));
                    } else {
                        assert(body@ =~= bbox_rows_text(grid, b, y - min_y + 1));
                    }
                }
                if y < max_y {
                    push_str(&mut body, "$");
                }
                y += 1;
            }
            push_str(&mut body, "!");
            push_wrapped(&mut out, body.as_slice());
            string_from_chars(out)
        },
    }
}

/// RLE text of `grid` named `dump`.
#[must_use]
pub fn dump_rle(grid: &Grid) -> (s: String)
    requires
        grid.wf(),
    ensures
        s@ == spec_to_rle(grid, "dump"@),
{
    to_rle(grid, "dump")
}

/// The bounding box of the live cells as rows of `O` (live) and `.` (dead),
/// each ended by a newline.
pub open spec fn bbox_ascii(g: &Grid, b: (usize, usize, usize, usize), n: int) -> Seq<char>
    decreases n,
{
    if n <= 0 {
        Seq::empty()
    } else {
        bbox_ascii(g, b, n - 1) + grid_row(g, b.0 as int, b.1 + n - 1, b.2 - b.0 + 1).map_values(
            |v: bool|
                if v {
                    'O'
                } else {
                    '.'
                },
        ).push('\n')
    }
}

/// ASCII picture of the live cells' bounding box, or `(empty)`.
pub open spec fn spec_dump_ascii(g: &Grid) -> Seq<char> {
    if has_live(g) {
        let b = choose|b: (usize, usize, usize, usize)| is_live_bounds(g, b);
        bbox_ascii(g, b, b.3 - b.1 + 1)
    } else {
        "(empty)\n"@
    }
}

/// Dump the grid's live cells as ASCII `.` / `O` rows.
#[must_use]
pub fn dump_ascii(grid: &Grid) -> (s: String)
    requires
        grid.wf(),
    ensures
        s@ == spec_dump_ascii(grid),
{
    let mut out: Vec<char> = Vec::new();
    match grid.live_bounds() {
        Some((min_x, min_y, max_x, max_y)) => {
            let ghost b = (min_x, min_y, max_x, max_y);
            proof {
                let c = choose|c: (usize, usize, usize, usize)| is_live_bounds(grid, c);
                lemma_live_bounds_unique(grid, b, c);
                let y0 = choose|y: int| 0 <= y < grid.h && #[trigger] grid.state_at(b.0 as int, y) != 0;
                let x1 = choose|x: int| 0 <= x < grid.w && #[trigger] grid.state_at(x, b.1 as int) != 0;
                let y2 = choose|y: int| 0 <= y < grid.h && #[trigger] grid.state_at(b.2 as int, y) != 0;
                let x3 = choose|x: int| 0 <= x < grid.w && #[trigger] grid.state_at(x, b.3 as int) != 0;
                assert(min_x <= max_x < grid.w);
                assert(min_y <= max_y < grid.h);
            }
            let mut y = min_y;
            while y <= max_y
                invariant
                    grid.wf(),
                    min_x <= max_x < grid.w,
                    min_y <= y <= max_y + 1,
                    max_y < grid.h,
                    b == (min_x, min_y, max_x, max_y),
                    out@ == bbox_ascii(grid, b, y - min_y),
                decreases max_y + 1 - y,
            {
                let ghost before = out@;
                let ghost row = grid_row(grid, min_x as int, y as int, max_x - min_x + 1).map_values(
                    |v: bool|
                        if v {
                            'O'
                        } else {
                            '.'
                        },
                );
                let mut x = min_x;
                while x <= max_x
                    invariant
                        grid.wf(),
                        min_x <= x <= max_x + 1,
                        max_x < grid.w,
                        y < grid.h,
                        out@ == before + row.take(x - min_x),
                        row == grid_row(grid, min_x as int, y as int, max_x - min_x + 1).map_values(
                            |v: bool|
                                if v {
                                    'O'
                                } else {
                                    '.'
                                },
                        ),
                    decreases max_x + 1 - x,
                {
                    out.push(
                        if grid.get(x, y) {
                            'O'
                        } else {
                            '.'
                        },
                    );
                    assert(row.take(x - min_x + 1) =~= row.take(x - min_x).push(row[x - min_x]));
                    x += 1;
                }
                assert(row.take(max_x - min_x + 1) =~= row);
                out.push('\n');
                y += 1;
            }
        },
        None => {
            push_str(&mut out, "(empty)\n");
        },
    }
    string_from_chars(out)
}

} // verus!
