//! Grid geometric transforms (rotate / flip).

use vstd::prelude::*;
use crate::grid::Grid;

verus! {

/// The cell of `g` that lands on `(nx, ny)` of the 90° clockwise rotation.
pub open spec fn rotate_source(g: &Grid, nx: int, ny: int) -> (int, int) {
    (ny, g.h - 1 - nx)
}

/// `out` is `g` rotated 90° clockwise.
pub open spec fn is_rotate90(out: &Grid, g: &Grid) -> bool {
    &&& same_kind(out, g, g.h, g.w)
    &&& forall|nx: int, ny: int|
        0 <= nx < out.w && 0 <= ny < out.h ==> {
            &&& #[trigger] out.state_at(nx, ny) == g.state_at(ny, g.h - 1 - nx)
            &&& out.spec_age_at(nx, ny) == (if g.state_at(ny, g.h - 1 - nx) != 0 {
                g.spec_age_at(ny, g.h - 1 - nx)
            } else {
                0u16
            })
        }
}

/// `out` is `g` mirrored left ↔ right.
pub open spec fn is_flip_h(out: &Grid, g: &Grid) -> bool {
    &&& same_kind(out, g, g.w, g.h)
    &&& forall|nx: int, ny: int|
        0 <= nx < out.w && 0 <= ny < out.h ==> {
            &&& #[trigger] out.state_at(nx, ny) == g.state_at(g.w - 1 - nx, ny)
            &&& out.spec_age_at(nx, ny) == (if g.state_at(g.w - 1 - nx, ny) != 0 {
                g.spec_age_at(g.w - 1 - nx, ny)
            } else {
                0u16
            })
        }
}

/// `out` is `g` mirrored top ↔ bottom.
pub open spec fn is_flip_v(out: &Grid, g: &Grid) -> bool {
    &&& same_kind(out, g, g.w, g.h)
    &&& forall|nx: int, ny: int|
        0 <= nx < out.w && 0 <= ny < out.h ==> {
            &&& #[trigger] out.state_at(nx, ny) == g.state_at(nx, g.h - 1 - ny)
            &&& out.spec_age_at(nx, ny) == (if g.state_at(nx, g.h - 1 - ny) != 0 {
                g.spec_age_at(nx, g.h - 1 - ny)
            } else {
                0u16
            })
        }
}

/// Shape of a transform result: dimensions, topology and state count.
pub open spec fn same_kind(out: &Grid, g: &Grid, w: usize, h: usize) -> bool {
    &&& out.wf()
    &&& out.w == w
    &&& out.h == h
    &&& out.wrap == g.wrap
    &&& out.states == (if g.states < 2 { 2 } else { g.states })
}

proof fn lemma_index_facts(x: int, y: int, w: int, h: int)
    requires
        0 <= x < w,
        0 <= y < h,
    ensures
        0 <= y * w + x < w * h,
        (y * w + x) % w == x,
        (y * w + x) / w == y,
{
    assert(y * w + x < w * h) by (nonlinear_arith)
        requires
            0 <= x < w,
            0 <= y < h,
    ;
    assert(0 <= y * w) by (nonlinear_arith)
        requires
            0 <= y,
            0 <= w,
    ;
    vstd::arithmetic::div_mod::lemma_fundamental_div_mod_converse(y * w + x, w, y, x);
}

/// Source cell of `(nx, ny)` for a transform: 0 rotates 90° clockwise,
/// 1 mirrors left ↔ right, 2 mirrors top ↔ bottom.
pub open spec fn src_of(g: &Grid, kind: u8, nx: int, ny: int) -> (int, int) {
    if kind == 0 {
        (ny, g.h - 1 - nx)
    } else if kind == 1 {
        (g.w - 1 - nx, ny)
    } else {
        (nx, g.h - 1 - ny)
    }
}

/// Whether source cell `s` comes before position `(x, y)` in row order.
pub open spec fn done_before(s: (int, int), y: int, x: int) -> bool {
    s.1 < y || (s.1 == y && s.0 < x)
}

/// Cell `(nx, ny)` of `out` holds its source when the source was visited, else is empty.
pub open spec fn cell_ok(out: &Grid, g: &Grid, kind: u8, nx: int, ny: int, y: int, x: int) -> bool {
    let s = src_of(g, kind, nx, ny);
    let d = done_before(s, y, x);
    &&& out.state_at(nx, ny) == (if d {
        g.state_at(s.0, s.1)
    } else {
        0u8
    })
    &&& out.spec_age_at(nx, ny) == (if d && g.state_at(s.0, s.1) != 0 {
        g.spec_age_at(s.0, s.1)
    } else {
        0u16
    })
}

pub open spec fn all_ok(out: &Grid, g: &Grid, kind: u8, y: int, x: int) -> bool {
    forall|nx: int, ny: int|
        0 <= nx < out.w && 0 <= ny < out.h ==> #[trigger] cell_ok(out, g, kind, nx, ny, y, x)
}

/// Copy the live cells of `g` to the positions given by the transform `kind`,
/// into a fresh grid of the given dimensions.
fn move_cells(g: &Grid, w: usize, h: usize, kind: u8) -> (out: Grid)
    requires
        g.wf(),
        kind <= 2,
        kind == 0 ==> w == g.h && h == g.w,
        kind != 0 ==> w == g.w && h == g.h,
    ensures
        same_kind(&out, g, w, h),
        all_ok(&out, g, kind, g.h as int, 0),
{
    proof {
        assert(g.cells.len() == g.cells@.len());
        assert(h * w == w * h) by (nonlinear_arith);
    }
    let mut out = Grid::with_states(w, h, g.wrap, g.states);
    assert forall|nx: int, ny: int| 0 <= nx < out.w && 0 <= ny < out.h implies #[trigger] cell_ok(
        &out,
        g,
        kind,
        nx,
        ny,
        0,
        0,
    ) by {
        lemma_index_facts(nx, ny, w as int, h as int);
    }
    let mut y: usize = 0;
    while y < g.h
        invariant
            g.wf(),
            kind <= 2,
            kind == 0 ==> w == g.h && h == g.w,
            kind != 0 ==> w == g.w && h == g.h,
            same_kind(&out, g, w, h),
            y <= g.h,
            all_ok(&out, g, kind, y as int, 0),
        decreases g.h - y,
    {
        let mut x: usize = 0;
        while x < g.w
            invariant
                g.wf(),
                kind <= 2,
                kind == 0 ==> w == g.h && h == g.w,
                kind != 0 ==> w == g.w && h == g.h,
                same_kind(&out, g, w, h),
                y < g.h,
                x <= g.w,
                all_ok(&out, g, kind, y as int, x as int),
            decreases g.w - x,
        {
            proof {
                lemma_index_facts(x as int, y as int, g.w as int, g.h as int);
                assert(g.cells.len() == g.cells@.len());
            }
            let i = y * g.w + x;
            let v = g.cells[i];
            let nx: usize = if kind == 0 {
                g.h - 1 - y
            } else if kind == 1 {
                g.w - 1 - x
            } else {
                x
            };
            let ny: usize = if kind == 0 {
                x
            } else if kind == 1 {
                y
            } else {
                g.h - 1 - y
            };
            let ghost before = out;
            proof {
                lemma_index_facts(nx as int, ny as int, w as int, h as int);
                assert(out.cells.len() == out.cells@.len());
                assert(src_of(g, kind, nx as int, ny as int) == (x as int, y as int));
            }
            if v != 0 {
                let j = ny * w + nx;
                out.cells.set(j, v);
                out.ages.set(j, g.ages[i]);
            }
            proof {
                assert forall|mx: int, my: int|
                    0 <= mx < out.w && 0 <= my < out.h implies #[trigger] cell_ok(
                    &out,
                    g,
                    kind,
                    mx,
                    my,
                    y as int,
                    x + 1,
                ) by {
                    lemma_index_facts(mx, my, w as int, h as int);
                    assert(cell_ok(&before, g, kind, mx, my, y as int, x as int));
                    if mx == nx && my == ny {
                    } else {
                        assert(out.state_at(mx, my) == before.state_at(mx, my));
                        assert(src_of(g, kind, mx, my) != (x as int, y as int));
                    }
                }
            }
            x += 1;
        }
        proof {
            assert forall|mx: int, my: int|
                0 <= mx < out.w && 0 <= my < out.h implies #[trigger] cell_ok(
                &out,
                g,
                kind,
                mx,
                my,
                y + 1,
                0,
            ) by {
                assert(cell_ok(&out, g, kind, mx, my, y as int, x as int));
            }
        }
        y += 1;
    }
    out
}

/// Rotate the grid 90° clockwise. Dimensions swap (`w×h` → `h×w`).
///
/// New cell at `(h-1-y, x)` comes from old `(x, y)`.
pub fn rotate90(grid: &Grid) -> (out: Grid)
    requires
        grid.wf(),
    ensures
        is_rotate90(&out, grid),
{
    let out = move_cells(grid, grid.h, grid.w, 0);
    assert forall|nx: int, ny: int| 0 <= nx < out.w && 0 <= ny < out.h implies #[trigger] out.state_at(nx, ny)
        == grid.state_at(ny, grid.h - 1 - nx) && out.spec_age_at(nx, ny) == (if grid.state_at(ny, grid.h - 1 - nx) != 0 {
            grid.spec_age_at(ny, grid.h - 1 - nx)
        } else {
            0u16
        }) by {
        assert(cell_ok(&out, grid, 0, nx, ny, grid.h as int, 0));
    }
    out
}

/// Flip horizontally (mirror left ↔ right).
pub fn flip_h(grid: &Grid) -> (out: Grid)
    requires
        grid.wf(),
    ensures
        is_flip_h(&out, grid),
{
    let out = move_cells(grid, grid.w, grid.h, 1);
    assert forall|nx: int, ny: int| 0 <= nx < out.w && 0 <= ny < out.h implies #[trigger] out.state_at(nx, ny)
        == grid.state_at(grid.w - 1 - nx, ny) && out.spec_age_at(nx, ny) == (if grid.state_at(grid.w - 1 - nx, ny) != 0 {
            grid.spec_age_at(grid.w - 1 - nx, ny)
        } else {
            0u16
        }) by {
        assert(cell_ok(&out, grid, 1, nx, ny, grid.h as int, 0));
    }
    out
}

/// Flip vertically (mirror top ↔ bottom).
pub fn flip_v(grid: &Grid) -> (out: Grid)
    requires
        grid.wf(),
    ensures
        is_flip_v(&out, grid),
{
    let out = move_cells(grid, grid.w, grid.h, 2);
    assert forall|nx: int, ny: int| 0 <= nx < out.w && 0 <= ny < out.h implies #[trigger] out.state_at(nx, ny)
        == grid.state_at(nx, grid.h - 1 - ny) && out.spec_age_at(nx, ny) == (if grid.state_at(nx, grid.h - 1 - ny) != 0 {
            grid.spec_age_at(nx, grid.h - 1 - ny)
        } else {
            0u16
        }) by {
        assert(cell_ok(&out, grid, 2, nx, ny, grid.h as int, 0));
    }
    out
}

/// In-place convenience: replace `grid` with a 90° clockwise rotation.
pub fn rotate90_in_place(grid: &mut Grid)
    requires
        old(grid).wf(),
    ensures
        is_rotate90(final(grid), old(grid)),
{
    *grid = rotate90(grid);
}

/// In-place horizontal flip.
pub fn flip_h_in_place(grid: &mut Grid)
    requires
        old(grid).wf(),
    ensures
        is_flip_h(final(grid), old(grid)),
{
    *grid = flip_h(grid);
}

/// In-place vertical flip.
pub fn flip_v_in_place(grid: &mut Grid)
    requires
        old(grid).wf(),
    ensures
        is_flip_v(final(grid), old(grid)),
{
    *grid = flip_v(grid);
}

/// Two well-formed grids of equal dimensions whose cells agree at every
/// coordinate have equal cell vectors.
proof fn lemma_cells_ext(a: &Grid, b: &Grid)
    requires
        a.wf(),
        b.wf(),
        a.w == b.w,
        a.h == b.h,
        forall|x: int, y: int| 0 <= x < a.w && 0 <= y < a.h ==> #[trigger] a.state_at(x, y) == b.state_at(x, y),
    ensures
        a.cells@ == b.cells@,
{
    assert forall|i: int| 0 <= i < a.cells@.len() implies a.cells@[i] == b.cells@[i] by {
        let w = a.w as int;
        assert(w > 0) by (nonlinear_arith)
            requires
                0 <= i < w * a.h,
                0 <= a.h,
                0 <= w,
        ;
        let x = i % w;
        let y = i / w;
        vstd::arithmetic::div_mod::lemma_fundamental_div_mod(i, w);
        assert(0 <= x < w);
        assert(y * w + x == i) by (nonlinear_arith)
            requires
                i == w * (i / w) + i % w,
                x == i % w,
                y == i / w,
        ;
        assert(0 <= y < a.h) by (nonlinear_arith)
            requires
                y * w + x == i,
                0 <= x < w,
                0 <= i < w * a.h,
                w > 0,
        ;
        assert(a.state_at(x, y) == b.state_at(x, y));
    }
    assert(a.cells@ =~= b.cells@);
}

/// Rotating a grid 90° clockwise four times gives back its cells.
pub proof fn law_rotate90_four_times(g: &Grid, r1: &Grid, r2: &Grid, r3: &Grid, r4: &Grid)
    requires
        g.wf(),
        is_rotate90(r1, g),
        is_rotate90(r2, r1),
        is_rotate90(r3, r2),
        is_rotate90(r4, r3),
    ensures
        r4.w == g.w,
        r4.h == g.h,
        r4.cells@ == g.cells@,
{
    assert forall|x: int, y: int| 0 <= x < r4.w && 0 <= y < r4.h implies #[trigger] r4.state_at(x, y)
        == g.state_at(x, y) by {
        assert(r4.state_at(x, y) == r3.state_at(y, r3.h - 1 - x));
        assert(r3.state_at(y, r3.h - 1 - x) == r2.state_at(r3.h - 1 - x, r2.h - 1 - y));
        assert(r2.state_at(r3.h - 1 - x, r2.h - 1 - y) == r1.state_at(r2.h - 1 - y, r1.h - 1 - (r3.h - 1 - x)));
        assert(r1.state_at(r2.h - 1 - y, r1.h - 1 - (r3.h - 1 - x)) == g.state_at(r1.h - 1 - (r3.h - 1 - x), g.h - 1 - (r2.h - 1 - y)));
    }
    lemma_cells_ext(r4, g);
}

/// Mirroring left ↔ right twice gives back the cells.
pub proof fn law_flip_h_twice(g: &Grid, f1: &Grid, f2: &Grid)
    requires
        g.wf(),
        is_flip_h(f1, g),
        is_flip_h(f2, f1),
    ensures
        f2.w == g.w,
        f2.h == g.h,
        f2.cells@ == g.cells@,
{
    assert forall|x: int, y: int| 0 <= x < f2.w && 0 <= y < f2.h implies #[trigger] f2.state_at(x, y)
        == g.state_at(x, y) by {
        assert(f2.state_at(x, y) == f1.state_at(f1.w - 1 - x, y));
    }
    lemma_cells_ext(f2, g);
}

/// Mirroring top ↔ bottom twice gives back the cells.
pub proof fn law_flip_v_twice(g: &Grid, f1: &Grid, f2: &Grid)
    requires
        g.wf(),
        is_flip_v(f1, g),
        is_flip_v(f2, f1),
    ensures
        f2.w == g.w,
        f2.h == g.h,
        f2.cells@ == g.cells@,
{
    assert forall|x: int, y: int| 0 <= x < f2.w && 0 <= y < f2.h implies #[trigger] f2.state_at(x, y)
        == g.state_at(x, y) by {
        assert(f2.state_at(x, y) == f1.state_at(x, f1.h - 1 - y));
    }
    lemma_cells_ext(f2, g);
}

} // verus!
