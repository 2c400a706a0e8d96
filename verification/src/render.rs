//! Terminal frames and PPM images of a grid.
//!
//! Every function here computes the bytes or text that the caller writes;
//! the writing itself is left to the caller.

use vstd::prelude::*;
use crate::grid::{Grid, StepStats};
use crate::state::{LIVE, REFRACTORY};
use crate::text::{
    decimal_bytes, decimal_seq, lower_chars, lower_seq, push_ascii, push_chars, push_decimal,
    push_decimal_bytes, push_str, str_chars, string_from_chars, chars_eq_str, join_all, lemma_join_next, char_from_u32, contains_str,
    has_piece,
};
use crate::grid::max_upto;
use crate::theme::{age_code, age_colour, push_sgr, sgr_text, Theme};

verus! {

/// How to draw live/dead cells.
#[derive(Debug, Clone, Copy, PartialEq, Eq, Structural)]
pub enum Style {
    /// Full block █ (double-wide cell).
    Block,
    /// Unicode braille — 2×4 cells per character.
    Braille,
    /// Middle-dot · for live, space for dead.
    Dots,
}

/// The style a (lower-cased) name selects.
pub open spec fn spec_parse_style(s: Seq<char>) -> Option<Style> {
    let t = lower_seq(s);
    if t == "block"@ {
        Some(Style::Block)
    } else if t == "braille"@ {
        Some(Style::Braille)
    } else if t == "dots"@ || t == "dot"@ {
        Some(Style::Dots)
    } else {
        None
    }
}

/// The render styles by name, in any letter case: `block`, `braille`, and
/// `dots` or `dot`.
pub proof fn law_style_names(s: Seq<char>)
    ensures
        lower_seq(s) == "block"@ ==> spec_parse_style(s) == Some(Style::Block),
        lower_seq(s) == "braille"@ ==> spec_parse_style(s) == Some(Style::Braille),
        (lower_seq(s) == "dots"@ || lower_seq(s) == "dot"@) ==> spec_parse_style(s) == Some(
            Style::Dots,
        ),
{
    reveal_strlit("block");
    reveal_strlit("braille");
    reveal_strlit("dots");
    reveal_strlit("dot");
    assert("braille"@.len() != "block"@.len());
    assert("dots"@.len() != "block"@.len());
    assert("dots"@.len() != "braille"@.len());
    assert("dot"@.len() != "block"@.len());
    assert("dot"@.len() != "braille"@.len());
    assert("dot"@.len() != "dots"@.len());
}

/// The message for a name that selects no style.
pub open spec fn style_error(s: Seq<char>) -> Seq<char> {
    "unknown style: "@ + lower_seq(s) + " (expected block|braille|dots)"@
}

impl Style {
    /// Style by name (ASCII case-insensitive).
    pub fn parse(s: &str) -> (r: Result<Self, String>)
        ensures
            match r {
                Ok(st) => spec_parse_style(s@) == Some(st),
                Err(m) => spec_parse_style(s@) is None && m@ == style_error(s@),
            },
    {
        let raw = str_chars(s);
        let t = lower_chars(raw.as_slice());
        let ts = t.as_slice();
        if chars_eq_str(ts, "block") {
            Ok(Style::Block)
        } else if chars_eq_str(ts, "braille") {
            Ok(Style::Braille)
        } else if chars_eq_str(ts, "dots") || chars_eq_str(ts, "dot") {
            Ok(Style::Dots)
        } else {
            let mut out: Vec<char> = Vec::new();
            push_str(&mut out, "unknown style: ");
            push_chars(&mut out, ts);
            push_str(&mut out, " (expected block|braille|dots)");
            Err(string_from_chars(out))
        }
    }
}

/// Restores cursor visibility and SGR when the caller is done drawing.
pub struct CursorGuard {
    active: bool,
}

/// Show the cursor, reset attributes, end the line.
pub open spec fn cursor_restore_bytes() -> Seq<u8> {
    seq![0x1bu8, 0x5bu8, 0x3fu8, 0x32u8, 0x35u8, 0x68u8, 0x1bu8, 0x5bu8, 0x30u8, 0x6du8, 0x0au8]
}

impl CursorGuard {
    pub closed spec fn is_active(&self) -> bool {
        self.active
    }

    pub fn new(active: bool) -> (g: Self)
        ensures
            g.is_active() == active,
    {
        Self { active }
    }

    /// Bytes to write when the guard is released: `ESC[?25h ESC[0m` and a
    /// newline where the guard is active, nothing otherwise.
    pub fn restore_bytes(&self) -> (b: Vec<u8>)
        ensures
            b@ == (if self.is_active() { cursor_restore_bytes() } else { Seq::<u8>::empty() }),
    {
        let mut out: Vec<u8> = Vec::new();
        if self.active {
            push_ascii(
                &mut out,
                &[0x1b, 0x5b, 0x3f, 0x32, 0x35, 0x68, 0x1b, 0x5b, 0x30, 0x6d, 0x0a],
            );
        }
        out
    }
}

/// Render options for the frame header / body.
pub struct RenderOpts {
    pub style: Style,
    pub color: bool,
    pub show_stats: bool,
    /// Colour live cells by age within the theme palette.
    pub age_heat: bool,
    /// Colour theme.
    pub theme: Theme,
    /// Extra status suffix (e.g. interactive pause / rule name).
    pub status_extra: String,
    /// Optional population sparkline shown in the header.
    pub sparkline: String,
}

impl Default for RenderOpts {
    fn default() -> (o: Self)
        ensures
            o.style == Style::Block,
            o.color,
            o.show_stats,
            !o.age_heat,
            o.theme == crate::theme::preset(0),
            o.status_extra@ == Seq::<char>::empty(),
            o.sparkline@ == Seq::<char>::empty(),
    {
        Self {
            style: Style::Block,
            color: true,
            show_stats: true,
            age_heat: false,
            theme: Theme::classic(),
            status_extra: string_from_chars(Vec::new()),
            sparkline: string_from_chars(Vec::new()),
        }
    }
}

/// A grid drawn with more than two states (firing bright / refractory dim).
pub open spec fn is_multistate(g: &Grid) -> bool {
    g.states > 2
}

/// RGB of a multi-state cell.
pub open spec fn ms_rgb(t: Theme, c: u8) -> (u8, u8, u8) {
    if c == LIVE {
        t.live_rgb
    } else if c == REFRACTORY {
        ((t.live_rgb.0 / 3) as u8, (t.live_rgb.1 / 3) as u8, (t.live_rgb.2 / 3) as u8)
    } else {
        t.dead_rgb
    }
}

/// RGB of cell `i` in a PPM image.
pub open spec fn pixel(g: &Grid, t: Theme, heat: bool, i: int) -> (u8, u8, u8) {
    let c = g.cells@[i];
    if is_multistate(g) && c != 0 {
        ms_rgb(t, c)
    } else if c != 0 {
        if heat {
            age_colour(t.name@, g.ages@[i])
        } else {
            t.live_rgb
        }
    } else {
        t.dead_rgb
    }
}

/// Component `k` (0 red, 1 green, 2 blue) of a colour.
pub open spec fn rgb_part(p: (u8, u8, u8), k: int) -> u8 {
    if k == 0 {
        p.0
    } else if k == 1 {
        p.1
    } else {
        p.2
    }
}

/// The P6 image: header `P6\n{w} {h}\n255\n`, then three bytes per cell in
/// row-major order.
pub open spec fn spec_ppm_p6(g: &Grid, t: Theme, heat: bool) -> Seq<u8> {
    ppm_p6_head(g) + Seq::new(
        (3 * (g.w * g.h)) as nat,
        |k: int| rgb_part(pixel(g, t, heat, k / 3), k % 3),
    )
}

/// The header of a P6 image: `P6\n{w} {h}\n255\n`.
pub open spec fn ppm_p6_head(g: &Grid) -> Seq<u8> {
    seq![0x50u8, 0x36u8, 0x0au8] + decimal_bytes(g.w as nat) + seq![0x20u8] + decimal_bytes(
        g.h as nat,
    ) + seq![0x0au8, 0x32u8, 0x35u8, 0x35u8, 0x0au8]
}

/// A P6 image is its header followed by exactly one pixel of three bytes per
/// cell: the colour of cell `(x, y)` sits at offset `3 * (y * w + x)` after
/// the header.
pub proof fn law_ppm_p6_layout(g: &Grid, t: Theme, heat: bool, x: int, y: int, k: int)
    requires
        g.wf(),
        0 <= x < g.w,
        0 <= y < g.h,
        0 <= k < 3,
    ensures
        spec_ppm_p6(g, t, heat).len() == ppm_p6_head(g).len() + 3 * (g.w * g.h),
        spec_ppm_p6(g, t, heat).subrange(0, ppm_p6_head(g).len() as int) == ppm_p6_head(g),
        spec_ppm_p6(g, t, heat)[ppm_p6_head(g).len() + 3 * (y * g.w + x) + k] == rgb_part(
            pixel(g, t, heat, y * g.w + x),
            k,
        ),
{
    let head = ppm_p6_head(g);
    let body = Seq::new(
        (3 * (g.w * g.h)) as nat,
        |j: int| rgb_part(pixel(g, t, heat, j / 3), j % 3),
    );
    assert(spec_ppm_p6(g, t, heat) =~= head + body);
    let i = y * g.w + x;
    assert(0 <= i < g.w * g.h) by (nonlinear_arith)
        requires
            0 <= x < g.w,
            0 <= y < g.h,
            i == y * g.w + x,
    ;
    assert((3 * i + k) / 3 == i && (3 * i + k) % 3 == k) by (nonlinear_arith)
        requires
            0 <= k < 3,
            i >= 0,
    ;
    assert((head + body).subrange(0, head.len() as int) =~= head);
}

fn multistate_rgb(theme: Theme, cell: u8) -> (c: (u8, u8, u8))
    ensures
        c == ms_rgb(theme, cell),
{
    if cell == LIVE {
        theme.live_rgb
    } else if cell == REFRACTORY {
        let (r, g, b) = theme.live_rgb;
        (r / 3, g / 3, b / 3)
    } else {
        theme.dead_rgb
    }
}

fn pixel_of(grid: &Grid, theme: Theme, age_heat: bool, i: usize) -> (c: (u8, u8, u8))
    requires
        grid.wf(),
        i < grid.cells@.len(),
    ensures
        c == pixel(grid, theme, age_heat, i as int),
{
    let cell = grid.cells[i];
    if grid.states > 2 && cell != 0 {
        multistate_rgb(theme, cell)
    } else if cell != 0 {
        if age_heat {
            theme.age_rgb(grid.ages[i])
        } else {
            theme.live_rgb
        }
    } else {
        theme.dead_rgb
    }
}

/// Binary PPM (P6) image of the grid using theme / age colours.
///
/// Each cell is a single pixel. Live cells use age heat-map RGB when `age_heat`
/// is true, otherwise the theme's solid live colour.
pub fn write_ppm_p6(grid: &Grid, theme: Theme, age_heat: bool) -> (b: Vec<u8>)
    requires
        grid.wf(),
    ensures
        b@ == spec_ppm_p6(grid, theme, age_heat),
{
    let mut out: Vec<u8> = Vec::new();
    push_ascii(&mut out, &[0x50, 0x36, 0x0a]);
    push_decimal_bytes(&mut out, grid.w as u128);
    out.push(0x20);
    push_decimal_bytes(&mut out, grid.h as u128);
    push_ascii(&mut out, &[0x0a, 0x32, 0x35, 0x35, 0x0a]);
    let ghost head = out@;
    let n = grid.cells.len();
    let ghost body = Seq::new(
        (3 * (grid.w * grid.h)) as nat,
        |k: int| rgb_part(pixel(grid, theme, age_heat, k / 3), k % 3),
    );
    let mut i: usize = 0;
    while i < n
        invariant
            grid.wf(),
            n == grid.cells@.len(),
            i <= n,
            body.len() == 3 * n,
            body == Seq::new(
                (3 * (grid.w * grid.h)) as nat,
                |k: int| rgb_part(pixel(grid, theme, age_heat, k / 3), k % 3),
            ),
            out@ == head + body.take(3 * i),
        decreases n - i,
    {
        let (r, g, b) = pixel_of(grid, theme, age_heat, i);
        out.push(r);
        out.push(g);
        out.push(b);
        assert(body.take(3 * (i + 1)) =~= body.take(3 * i).push(r).push(g).push(b)) by {
            assert((3 * i) / 3 == i && (3 * i) % 3 == 0) by (nonlinear_arith);
            assert((3 * i + 1) / 3 == i && (3 * i + 1) % 3 == 1) by (nonlinear_arith);
            assert((3 * i + 2) / 3 == i && (3 * i + 2) % 3 == 2) by (nonlinear_arith);
        }
        i += 1;
    }
    assert(body.take(3 * n) =~= body);
    assert(out@ =~= spec_ppm_p6(grid, theme, age_heat));
    out
}

/// A colour as `r g b` in decimal.
pub open spec fn rgb_text(p: (u8, u8, u8)) -> Seq<char> {
    decimal_seq(p.0 as nat) + seq![' '] + decimal_seq(p.1 as nat) + seq![' '] + decimal_seq(
        p.2 as nat,
    )
}

/// Cell `(x, y)` of a P3 image, with the blank that separates it from the
/// previous cell of its row.
pub open spec fn p3_cell(g: &Grid, t: Theme, heat: bool, y: int, x: int) -> Seq<char> {
    (if x > 0 {
        seq![' ']
    } else {
        Seq::empty()
    }) + rgb_text(pixel(g, t, heat, y * g.w + x))
}

/// Row `y` of a P3 image.
pub open spec fn p3_row(g: &Grid, t: Theme, heat: bool, y: int) -> Seq<char> {
    join_all(Seq::new(g.w as nat, |x: int| p3_cell(g, t, heat, y, x))) + seq!['\n']
}

/// The P3 image: header `P3\n{w} {h}\n255\n`, then one line per row with the
/// cells' colours separated by blanks.
pub open spec fn spec_ppm_p3(g: &Grid, t: Theme, heat: bool) -> Seq<char> {
    "P3\n"@ + decimal_seq(g.w as nat) + seq![' '] + decimal_seq(g.h as nat) + "\n255\n"@ + join_all(
        Seq::new(g.h as nat, |y: int| p3_row(g, t, heat, y)),
    )
}

/// P3 (ASCII) PPM text — handy for tests / debugging.
pub fn write_ppm_p3(grid: &Grid, theme: Theme, age_heat: bool) -> (s: String)
    requires
        grid.wf(),
    ensures
        s@ == spec_ppm_p3(grid, theme, age_heat),
{
    let mut out: Vec<char> = Vec::new();
    push_str(&mut out, "P3\n");
    push_decimal(&mut out, grid.w as u128);
    out.push(' ');
    push_decimal(&mut out, grid.h as u128);
    push_str(&mut out, "\n255\n");
    let ghost head = out@;
    let ghost rows = |y: int| p3_row(grid, theme, age_heat, y);
    let total = grid.cells.len();
    let mut y: usize = 0;
    while y < grid.h
        invariant
            grid.wf(),
            total == grid.cells@.len(),
            y <= grid.h,
            rows == (|y: int| p3_row(grid, theme, age_heat, y)),
            out@ == head + join_all(Seq::new(y as nat, rows)),
        decreases grid.h - y,
    {
        let ghost row_start = out@;
        let ghost cells = |x: int| p3_cell(grid, theme, age_heat, y as int, x);
        let mut x: usize = 0;
        while x < grid.w
            invariant
                grid.wf(),
                total == grid.cells@.len(),
                x <= grid.w,
                y < grid.h,
                cells == (|x: int| p3_cell(grid, theme, age_heat, y as int, x)),
                out@ == row_start + join_all(Seq::new(x as nat, cells)),
            decreases grid.w - x,
        {
            proof {
                lemma_join_next(cells, x as nat);
                assert(y * grid.w + x < grid.w * grid.h) by (nonlinear_arith)
                    requires
                        y < grid.h,
                        x < grid.w,
                ;
            }
            let i = y * grid.w + x;
            let (r, g, b) = pixel_of(grid, theme, age_heat, i);
            let ghost before = out@;
            if x > 0 {
                out.push(' ');
            }
            push_decimal(&mut out, r as u128);
            out.push(' ');
            push_decimal(&mut out, g as u128);
            out.push(' ');
            push_decimal(&mut out, b as u128);
            assert(out@ =~= before + cells(x as int));
            x += 1;
        }
        out.push('\n');
        proof {
            lemma_join_next(rows, y as nat);
            assert(out@ =~= head + join_all(Seq::new(y as nat, rows)) + rows(y as int));
        }
        y += 1;
    }
    string_from_chars(out)
}

/// `ESC[0m`: reset attributes.
pub open spec fn reset_seq() -> Seq<char> {
    seq!['\u{1b}', '[', '0', 'm']
}

/// `ESC[K` and a newline: clear to the end of the line, next line.
pub open spec fn eol_seq() -> Seq<char> {
    seq!['\u{1b}', '[', 'K', '\n']
}

/// Glyph of a live cell.
pub open spec fn live_glyph(s: Style) -> Seq<char> {
    if s is Dots {
        seq!['\u{b7}']
    } else {
        seq!['\u{2588}', '\u{2588}']
    }
}

/// Glyph of a dead cell.
pub open spec fn dead_glyph(s: Style) -> Seq<char> {
    if s is Dots {
        seq![' ']
    } else {
        seq![' ', ' ']
    }
}

/// Glyph of a non-dead cell of a multi-state grid: in dots style, `°` for a
/// refractory cell and `·` otherwise.
pub open spec fn ms_glyph(s: Style, c: u8) -> Seq<char> {
    if s is Dots {
        if c == REFRACTORY {
            seq!['\u{b0}']
        } else {
            seq!['\u{b7}']
        }
    } else {
        seq!['\u{2588}', '\u{2588}']
    }
}

/// Colour of a multi-state cell: firing in the live colour, refractory dim.
pub open spec fn ms_ansi(t: Theme, c: u8) -> Seq<char> {
    if c == LIVE {
        sgr_text(""@, t.live_sgr)
    } else if c == REFRACTORY {
        sgr_text("2;"@, t.live_sgr)
    } else {
        Seq::empty()
    }
}

/// 256-colour foreground for a cell of age `age`.
pub open spec fn age_fg(t: Theme, age: u16) -> Seq<char> {
    sgr_text("38;5;"@, age_code(t.name@, age))
}

/// Text of cell `(x, y)` in block or dots style. Without multi-state or age
/// colouring, colour switches happen only where a run of live cells starts or
/// ends.
pub open spec fn cell_piece(
    g: &Grid,
    s: Style,
    color: bool,
    heat: bool,
    t: Theme,
    y: int,
    x: int,
) -> Seq<char> {
    let i = y * g.w + x;
    let c = g.cells@[i];
    if is_multistate(g) && color {
        if c != 0 {
            ms_ansi(t, c) + ms_glyph(s, c) + reset_seq()
        } else {
            dead_glyph(s)
        }
    } else if heat && color {
        if c != 0 {
            age_fg(t, g.ages@[i]) + live_glyph(s) + reset_seq()
        } else {
            dead_glyph(s)
        }
    } else {
        let alive = c != 0;
        let prev = x > 0 && g.cells@[i - 1] != 0;
        (if color && alive && !prev {
            sgr_text(""@, t.live_sgr)
        } else if color && !alive && prev {
            reset_seq()
        } else {
            Seq::empty()
        }) + (if alive {
            live_glyph(s)
        } else {
            dead_glyph(s)
        })
    }
}

/// Reset after the last cell of row `y`, where a coloured run is still open.
pub open spec fn row_tail(g: &Grid, color: bool, heat: bool, y: int) -> Seq<char> {
    if !(is_multistate(g) && color) && !(heat && color) && color && g.w > 0 && g.cells@[y * g.w
        + g.w - 1] != 0 {
        reset_seq()
    } else {
        Seq::empty()
    }
}

/// Row `y` in block or dots style.
pub open spec fn cells_row(g: &Grid, s: Style, color: bool, heat: bool, t: Theme, y: int) -> Seq<
    char,
> {
    join_all(Seq::new(g.w as nat, |x: int| cell_piece(g, s, color, heat, t, y, x))) + row_tail(
        g,
        color,
        heat,
        y,
    ) + eol_seq()
}

/// The whole grid in block or dots style.
pub open spec fn cells_body(g: &Grid, s: Style, color: bool, heat: bool, t: Theme) -> Seq<char> {
    join_all(Seq::new(g.h as nat, |y: int| cells_row(g, s, color, heat, t, y)))
}

fn push_reset(out: &mut Vec<char>)
    ensures
        final(out)@ == old(out)@ + reset_seq(),
{
    out.push('\u{1b}');
    out.push('[');
    out.push('0');
    out.push('m');
    assert(out@ =~= old(out)@ + reset_seq());
}

fn push_eol(out: &mut Vec<char>)
    ensures
        final(out)@ == old(out)@ + eol_seq(),
{
    out.push('\u{1b}');
    out.push('[');
    out.push('K');
    out.push('\n');
    assert(out@ =~= old(out)@ + eol_seq());
}

fn push_glyph(out: &mut Vec<char>, style: Style, alive: bool)
    ensures
        final(out)@ == old(out)@ + (if alive {
            live_glyph(style)
        } else {
            dead_glyph(style)
        }),
{
    match style {
        Style::Dots => {
            out.push(if alive { '\u{b7}' } else { ' ' });
        },
        _ => {
            let c = if alive { '\u{2588}' } else { ' ' };
            out.push(c);
            out.push(c);
        },
    }
    assert(out@ =~= old(out)@ + (if alive {
        live_glyph(style)
    } else {
        dead_glyph(style)
    }));
}

/// Append the colour of a multi-state cell.
fn push_multistate_ansi(out: &mut Vec<char>, theme: Theme, cell: u8)
    ensures
        final(out)@ == old(out)@ + ms_ansi(theme, cell),
{
    if cell == LIVE {
        push_sgr(out, "", theme.live_sgr);
    } else if cell == REFRACTORY {
        push_sgr(out, "2;", theme.live_sgr);
    } else {
        assert(out@ =~= old(out)@ + ms_ansi(theme, cell));
    }
}

fn push_ms_glyph(out: &mut Vec<char>, style: Style, cell: u8)
    ensures
        final(out)@ == old(out)@ + ms_glyph(style, cell),
{
    match style {
        Style::Dots => {
            out.push(if cell == REFRACTORY { '\u{b0}' } else { '\u{b7}' });
        },
        _ => {
            out.push('\u{2588}');
            out.push('\u{2588}');
        },
    }
    assert(out@ =~= old(out)@ + ms_glyph(style, cell));
}

/// Append cell `(x, y)` in block or dots style; `run_alive` says whether a
/// coloured run is open before it, and is updated.
fn push_cell(
    out: &mut Vec<char>,
    grid: &Grid,
    opts: &RenderOpts,
    style: Style,
    y: usize,
    x: usize,
    run_alive: &mut bool,
)
    requires
        grid.wf(),
        y < grid.h,
        x < grid.w,
        !(is_multistate(grid) && opts.color) && !(opts.age_heat && opts.color) ==> *old(run_alive)
            == (opts.color && x > 0 && grid.cells@[y * grid.w + x - 1] != 0),
    ensures
        final(out)@ == old(out)@ + cell_piece(grid, style, opts.color, opts.age_heat, opts.theme, y as int, x as int),
        !(is_multistate(grid) && opts.color) && !(opts.age_heat && opts.color) ==> *final(run_alive)
            == (opts.color && grid.cells@[y * grid.w + x] != 0),
{
    let total = grid.cells.len();
    proof {
        assert(y * grid.w + x < grid.w * grid.h) by (nonlinear_arith)
            requires
                y < grid.h,
                x < grid.w,
        ;
    }
    let i = y * grid.w + x;
    let c = grid.cells[i];
    let ghost piece = cell_piece(grid, style, opts.color, opts.age_heat, opts.theme, y as int, x as int);
    if grid.states > 2 && opts.color {
        if c != 0 {
            push_multistate_ansi(out, opts.theme, c);
            push_ms_glyph(out, style, c);
            push_reset(out);
        } else {
            push_glyph(out, style, false);
        }
    } else if opts.age_heat && opts.color {
        if c != 0 {
            push_sgr(out, "38;5;", opts.theme.age_color_256(grid.ages[i]));
            push_glyph(out, style, true);
            push_reset(out);
        } else {
            push_glyph(out, style, false);
        }
    } else {
        let alive = c != 0;
        if opts.color {
            if alive && !*run_alive {
                push_sgr(out, "", opts.theme.live_sgr);
                *run_alive = true;
            } else if !alive && *run_alive {
                push_reset(out);
                *run_alive = false;
            }
        }
        push_glyph(out, style, alive);
    }
    assert(out@ =~= old(out)@ + piece);
}

/// Append the whole grid in block or dots style.
fn render_cells(grid: &Grid, opts: &RenderOpts, style: Style, out: &mut Vec<char>)
    requires
        grid.wf(),
    ensures
        final(out)@ == old(out)@ + cells_body(grid, style, opts.color, opts.age_heat, opts.theme),
{
    let ghost start = out@;
    let ghost rows = |y: int| cells_row(grid, style, opts.color, opts.age_heat, opts.theme, y);
    let mut y: usize = 0;
    while y < grid.h
        invariant
            grid.wf(),
            y <= grid.h,
            rows == (|y: int| cells_row(grid, style, opts.color, opts.age_heat, opts.theme, y)),
            out@ == start + join_all(Seq::new(y as nat, rows)),
        decreases grid.h - y,
    {
        let ghost row_start = out@;
        let ghost cells = |x: int| cell_piece(grid, style, opts.color, opts.age_heat, opts.theme, y as int, x);
        let mut run_alive = false;
        let mut x: usize = 0;
        while x < grid.w
            invariant
                grid.wf(),
                x <= grid.w,
                y < grid.h,
                cells == (|x: int| cell_piece(grid, style, opts.color, opts.age_heat, opts.theme, y as int, x)),
                out@ == row_start + join_all(Seq::new(x as nat, cells)),
                !(is_multistate(grid) && opts.color) && !(opts.age_heat && opts.color) ==> run_alive
                    == (opts.color && x > 0 && grid.cells@[y * grid.w + x - 1] != 0),
            decreases grid.w - x,
        {
            proof {
                lemma_join_next(cells, x as nat);
            }
            push_cell(out, grid, opts, style, y, x, &mut run_alive);
            x += 1;
        }
        let ghost before_tail = out@;
        if opts.color && run_alive && !(grid.states > 2 && opts.color) && !(opts.age_heat
            && opts.color) {
            push_reset(out);
        }
        assert(out@ =~= before_tail + row_tail(grid, opts.color, opts.age_heat, y as int));
        push_eol(out);
        proof {
            lemma_join_next(rows, y as nat);
            assert(out@ =~= start + join_all(Seq::new(y as nat, rows)) + rows(y as int));
        }
        y += 1;
    }
}

/// Braille dot bit of position `k` of a 2×4 block (row `k / 2`, column
/// `k % 2`). Dot bit layout (Unicode Braille):
///  0 3
///  1 4
///  2 5
///  6 7
pub open spec fn dot_bit(k: int) -> u32 {
    if k == 0 {
        0
    } else if k == 1 {
        3
    } else if k == 2 {
        1
    } else if k == 3 {
        4
    } else if k == 4 {
        2
    } else if k == 5 {
        5
    } else if k == 6 {
        6
    } else {
        7
    }
}

/// Whether position `k` of the braille block `(br, bc)` is a non-dead cell.
pub open spec fn braille_hit(g: &Grid, br: int, bc: int, k: int) -> bool {
    let x = bc * 2 + k % 2;
    let y = br * 4 + k / 2;
    x < g.w && y < g.h && g.cells@[y * g.w + x] != 0
}

/// Dot bits, whether any cell is live, the largest age, and the state used
/// for colour (firing preferred, else the first non-dead state), over the
/// first `k` positions of the braille block `(br, bc)`.
pub open spec fn braille_acc(g: &Grid, br: int, bc: int, k: int) -> (u32, bool, u16, u8)
    decreases k,
{
    if k <= 0 {
        (0, false, 0, 0)
    } else {
        let prev = braille_acc(g, br, bc, k - 1);
        if braille_hit(g, br, bc, k - 1) {
            let i = (br * 4 + (k - 1) / 2) * g.w + bc * 2 + (k - 1) % 2;
            let c = g.cells@[i];
            let a = g.ages@[i];
            (
                prev.0 | (1u32 << dot_bit(k - 1)),
                true,
                if a > prev.2 {
                    a
                } else {
                    prev.2
                },
                if c == LIVE || prev.3 == 0 {
                    c
                } else {
                    prev.3
                },
            )
        } else {
            prev
        }
    }
}

/// The dot pattern of a braille block follows the Unicode braille layout:
/// with `L(dx, dy)` whether the cell at column `dx`, row `dy` of the 2 × 4
/// block (columns `2 * bc ..`, rows `4 * br ..`) is non-dead (cells off the
/// grid are dead), the dots are `L(0,0)·1 + L(0,1)·2 + L(0,2)·4 + L(1,0)·8 +
/// L(1,1)·16 + L(1,2)·32 + L(0,3)·64 + L(1,3)·128`, that is, bit
/// `DOT_MAP[dy][dx]` with `DOT_MAP = [[0, 3], [1, 4], [2, 5], [6, 7]]`.
pub proof fn law_braille_dots(g: &Grid, br: int, bc: int)
    requires
        g.wf(),
        0 <= br,
        0 <= bc,
    ensures
        ({
            let l = |dx: int, dy: int| g.state_at(2 * bc + dx, 4 * br + dy) != 0;
            braille_acc(g, br, bc, 8).0 == (if l(0, 0) { 1u32 } else { 0u32 }) + (if l(0, 1) {
                2u32
            } else {
                0u32
            }) + (if l(0, 2) { 4u32 } else { 0u32 }) + (if l(1, 0) { 8u32 } else { 0u32 }) + (if l(
                1,
                1,
            ) {
                16u32
            } else {
                0u32
            }) + (if l(1, 2) { 32u32 } else { 0u32 }) + (if l(0, 3) { 64u32 } else { 0u32 }) + (if l(
                1,
                3,
            ) {
                128u32
            } else {
                0u32
            })
        }),
{
    let h0 = braille_hit(g, br, bc, 0);
    let h1 = braille_hit(g, br, bc, 1);
    let h2 = braille_hit(g, br, bc, 2);
    let h3 = braille_hit(g, br, bc, 3);
    let h4 = braille_hit(g, br, bc, 4);
    let h5 = braille_hit(g, br, bc, 5);
    let h6 = braille_hit(g, br, bc, 6);
    let h7 = braille_hit(g, br, bc, 7);
    // positions k = 2 * dy + dx
    assert(h0 == (g.state_at(2 * bc, 4 * br) != 0));
    assert(h1 == (g.state_at(2 * bc + 1, 4 * br) != 0));
    assert(h2 == (g.state_at(2 * bc, 4 * br + 1) != 0));
    assert(h3 == (g.state_at(2 * bc + 1, 4 * br + 1) != 0));
    assert(h4 == (g.state_at(2 * bc, 4 * br + 2) != 0));
    assert(h5 == (g.state_at(2 * bc + 1, 4 * br + 2) != 0));
    assert(h6 == (g.state_at(2 * bc, 4 * br + 3) != 0));
    assert(h7 == (g.state_at(2 * bc + 1, 4 * br + 3) != 0));
    let a0 = 0u32;
    let a1 = if h0 { a0 | (1u32 << 0u32) } else { a0 };
    let a2 = if h1 { a1 | (1u32 << 3u32) } else { a1 };
    let a3 = if h2 { a2 | (1u32 << 1u32) } else { a2 };
    let a4 = if h3 { a3 | (1u32 << 4u32) } else { a3 };
    let a5 = if h4 { a4 | (1u32 << 2u32) } else { a4 };
    let a6 = if h5 { a5 | (1u32 << 5u32) } else { a5 };
    let a7 = if h6 { a6 | (1u32 << 6u32) } else { a6 };
    let a8 = if h7 { a7 | (1u32 << 7u32) } else { a7 };
    assert(braille_acc(g, br, bc, 0).0 == 0u32);
    assert(dot_bit(0) == 0u32 && dot_bit(1) == 3u32 && dot_bit(2) == 1u32 && dot_bit(3) == 4u32);
    assert(dot_bit(4) == 2u32 && dot_bit(5) == 5u32 && dot_bit(6) == 6u32 && dot_bit(7) == 7u32);
    assert(braille_acc(g, br, bc, 1).0 == a1);
    assert(braille_acc(g, br, bc, 2).0 == a2);
    assert(braille_acc(g, br, bc, 3).0 == a3);
    assert(braille_acc(g, br, bc, 4).0 == a4);
    assert(braille_acc(g, br, bc, 5).0 == a5);
    assert(braille_acc(g, br, bc, 6).0 == a6);
    assert(braille_acc(g, br, bc, 7).0 == a7);
    assert(braille_acc(g, br, bc, 8).0 == a8);
    assert(a8 == (if h0 { 1u32 } else { 0u32 }) + (if h2 { 2u32 } else { 0u32 }) + (if h4 {
        4u32
    } else {
        0u32
    }) + (if h1 { 8u32 } else { 0u32 }) + (if h3 { 16u32 } else { 0u32 }) + (if h5 {
        32u32
    } else {
        0u32
    }) + (if h6 { 64u32 } else { 0u32 }) + (if h7 { 128u32 } else { 0u32 })) by (bit_vector)
        requires
            a1 == (if h0 { 0u32 | (1u32 << 0u32) } else { 0u32 }),
            a2 == (if h1 { a1 | (1u32 << 3u32) } else { a1 }),
            a3 == (if h2 { a2 | (1u32 << 1u32) } else { a2 }),
            a4 == (if h3 { a3 | (1u32 << 4u32) } else { a3 }),
            a5 == (if h4 { a4 | (1u32 << 2u32) } else { a4 }),
            a6 == (if h5 { a5 | (1u32 << 5u32) } else { a5 }),
            a7 == (if h6 { a6 | (1u32 << 6u32) } else { a6 }),
            a8 == (if h7 { a7 | (1u32 << 7u32) } else { a7 }),
    ;
}

/// Text of the braille block `(br, bc)`: its colour, the braille character
/// U+2800 + dot bits, and a reset after a coloured character.
pub open spec fn braille_piece(g: &Grid, color: bool, heat: bool, t: Theme, br: int, bc: int) -> Seq<
    char,
> {
    let acc = braille_acc(g, br, bc, 8);
    let any = acc.1;
    (if color && any && is_multistate(g) {
        ms_ansi(t, acc.3)
    } else if color && any && heat {
        age_fg(t, acc.2)
    } else if color && any {
        sgr_text(""@, t.live_sgr)
    } else {
        Seq::empty()
    }) + seq![(0x2800 + acc.0) as char] + (if color && any {
        reset_seq()
    } else {
        Seq::empty()
    })
}

/// Row `br` of braille blocks.
pub open spec fn braille_row(g: &Grid, color: bool, heat: bool, t: Theme, br: int) -> Seq<char> {
    join_all(Seq::new(((g.w + 1) / 2) as nat, |bc: int| braille_piece(g, color, heat, t, br, bc)))
        + eol_seq()
}

/// The whole grid in braille, each character covering 2 columns × 4 rows.
pub open spec fn braille_body(g: &Grid, color: bool, heat: bool, t: Theme) -> Seq<char> {
    join_all(Seq::new(((g.h + 3) / 4) as nat, |br: int| braille_row(g, color, heat, t, br)))
}

/// Braille dot bit of position `k`.
fn dot_of(k: usize) -> (b: u32)
    requires
        k < 8,
    ensures
        b == dot_bit(k as int),
        b < 8,
{
    if k == 0 {
        0
    } else if k == 1 {
        3
    } else if k == 2 {
        1
    } else if k == 3 {
        4
    } else if k == 4 {
        2
    } else if k == 5 {
        5
    } else if k == 6 {
        6
    } else {
        7
    }
}

/// Append one braille block.
fn push_braille_cell(out: &mut Vec<char>, grid: &Grid, opts: &RenderOpts, br: usize, bc: usize)
    requires
        grid.wf(),
        br < (grid.h + 3) / 4,
        bc < (grid.w + 1) / 2,
    ensures
        final(out)@ == old(out)@ + braille_piece(grid, opts.color, opts.age_heat, opts.theme, br as int, bc as int),
{
    let total = grid.cells.len();
    let mut bits: u32 = 0;
    let mut max_age: u16 = 0;
    let mut any = false;
    let mut max_state: u8 = 0;
    let mut k: usize = 0;
    while k < 8
        invariant
            grid.wf(),
            total == grid.cells@.len(),
            br < (grid.h + 3) / 4,
            bc < (grid.w + 1) / 2,
            k <= 8,
            bits < 256,
            (bits, any, max_age, max_state) == braille_acc(grid, br as int, bc as int, k as int),
        decreases 8 - k,
    {
        let dy = k / 2;
        let dx = k % 2;
        assert(bc * 2 + dx <= grid.w) by (nonlinear_arith)
            requires
                bc < (grid.w + 1) / 2,
                dx <= 1,
        ;
        assert(br * 4 < grid.h) by (nonlinear_arith)
            requires
                br < (grid.h + 3) / 4,
        ;
        let x = bc * 2 + dx;
        if x < grid.w && dy < grid.h - br * 4 {
            let y = br * 4 + dy;
            proof {
                assert(y * grid.w + x < grid.w * grid.h) by (nonlinear_arith)
                    requires
                        y < grid.h,
                        x < grid.w,
                ;
            }
            let i = y * grid.w + x;
            let c = grid.cells[i];
            if c != 0 {
                let d = dot_of(k);
                let old_bits = bits;
                bits = bits | (1u32 << d);
                assert(old_bits | (1u32 << d) < 256) by (bit_vector)
                    requires
                        old_bits < 256,
                        d < 8,
                ;
                any = true;
                if grid.ages[i] > max_age {
                    max_age = grid.ages[i];
                }
                if c == LIVE || max_state == 0 {
                    max_state = c;
                }
            }
        }
        k += 1;
    }
    if opts.color {
        if any && grid.states > 2 {
            push_multistate_ansi(out, opts.theme, max_state);
        } else if any && opts.age_heat {
            push_sgr(out, "38;5;", opts.theme.age_color_256(max_age));
        } else if any {
            push_sgr(out, "", opts.theme.live_sgr);
        }
    }
    let ghost before_char = out@;
    let ch = match char_from_u32(0x2800 + bits) {
        Some(c) => c,
        None => ' ',
    };
    out.push(ch);
    if opts.color && any {
        push_reset(out);
    }
    assert(out@ =~= old(out)@ + braille_piece(grid, opts.color, opts.age_heat, opts.theme, br as int, bc as int));
}

/// Append the whole grid in braille.
fn render_braille(grid: &Grid, opts: &RenderOpts, out: &mut Vec<char>)
    requires
        grid.wf(),
    ensures
        final(out)@ == old(out)@ + braille_body(grid, opts.color, opts.age_heat, opts.theme),
{
    let rows = grid.h / 4 + if grid.h % 4 != 0 {
        1
    } else {
        0
    };
    let cols = grid.w / 2 + grid.w % 2;
    assert(rows == (grid.h + 3) / 4 && cols == (grid.w + 1) / 2);
    let ghost start = out@;
    let ghost row_f = |br: int| braille_row(grid, opts.color, opts.age_heat, opts.theme, br);
    let mut br: usize = 0;
    while br < rows
        invariant
            grid.wf(),
            rows == (grid.h + 3) / 4,
            cols == (grid.w + 1) / 2,
            br <= rows,
            row_f == (|br: int| braille_row(grid, opts.color, opts.age_heat, opts.theme, br)),
            out@ == start + join_all(Seq::new(br as nat, row_f)),
        decreases rows - br,
    {
        let ghost row_start = out@;
        let ghost cell_f = |bc: int| braille_piece(grid, opts.color, opts.age_heat, opts.theme, br as int, bc);
        let mut bc: usize = 0;
        while bc < cols
            invariant
                grid.wf(),
                rows == (grid.h + 3) / 4,
                cols == (grid.w + 1) / 2,
                br < rows,
                bc <= cols,
                cell_f == (|bc: int| braille_piece(grid, opts.color, opts.age_heat, opts.theme, br as int, bc)),
                out@ == row_start + join_all(Seq::new(bc as nat, cell_f)),
            decreases cols - bc,
        {
            proof {
                lemma_join_next(cell_f, bc as nat);
            }
            push_braille_cell(out, grid, opts, br, bc);
            bc += 1;
        }
        push_eol(out);
        proof {
            lemma_join_next(row_f, br as nat);
            assert(out@ =~= start + join_all(Seq::new(br as nat, row_f)) + row_f(br as int));
        }
        br += 1;
    }
}

/// A number right-aligned in a field of five (`{:>5}`).
pub open spec fn pad5(d: Seq<char>) -> Seq<char> {
    if d.len() < 5 {
        Seq::new((5 - d.len()) as nat, |i: int| ' ') + d
    } else {
        d
    }
}

/// Key help in interactive mode, how to quit otherwise.
pub open spec fn quit_hint(status: Seq<char>) -> Seq<char> {
    if has_piece(status, "interactive"@) {
        "keys: spc . + - r t a w s p q"@
    } else {
        "Ctrl-C to quit"@
    }
}

/// Number of non-dead cells of `g`.
pub open spec fn pop_of(g: &Grid) -> nat {
    Grid::count_cells(g.cells@, g.cells@.len() as int, |c: u8| c != 0)
}

/// Header start: title, generation, population and grid size.
pub open spec fn header_main(g: &Grid, generation: u64, o: &RenderOpts) -> Seq<char> {
    let t = o.theme;
    if o.color {
        sgr_text("1;"@, t.title_sgr) + "gol-rs"@ + reset_seq() + "  gen "@ + sgr_text(
            ""@,
            t.accent_sgr,
        ) + pad5(decimal_seq(generation as nat)) + reset_seq() + "  pop "@ + sgr_text(""@, t.pop_sgr)
            + pad5(decimal_seq(pop_of(g))) + reset_seq() + "  grid "@ + sgr_text(""@, t.accent_sgr)
            + decimal_seq(g.w as nat) + "x"@ + decimal_seq(g.h as nat) + reset_seq()
    } else {
        "gol-rs  gen "@ + pad5(decimal_seq(generation as nat)) + "  pop "@ + pad5(
            decimal_seq(pop_of(g)),
        ) + "  grid "@ + decimal_seq(g.w as nat) + "x"@ + decimal_seq(g.h as nat)
    }
}

/// Births and deaths of the last step, where known.
pub open spec fn header_stats(stats: Option<StepStats>, color: bool) -> Seq<char> {
    match stats {
        Some(s) => if color {
            "  +"@ + sgr_text(""@, 32) + decimal_seq(s.births as nat) + reset_seq() + "/-"@
                + sgr_text(""@, 31) + decimal_seq(s.deaths as nat) + reset_seq()
        } else {
            "  +"@ + decimal_seq(s.births as nat) + "/-"@ + decimal_seq(s.deaths as nat)
        },
        None => Seq::empty(),
    }
}

/// Largest cell age, in age-heat mode.
pub open spec fn header_age(g: &Grid, o: &RenderOpts) -> Seq<char> {
    let m = decimal_seq(max_upto(g.ages@, g.ages@.len() as int) as nat);
    if !o.age_heat {
        Seq::empty()
    } else if o.color {
        "  maxage "@ + sgr_text(""@, 31) + m + reset_seq()
    } else {
        "  maxage "@ + m
    }
}

/// Sparkline and status text, where present.
pub open spec fn header_extras(o: &RenderOpts) -> Seq<char> {
    (if o.sparkline@.len() > 0 {
        "  "@ + o.sparkline@
    } else {
        Seq::empty()
    }) + (if o.status_extra@.len() == 0 {
        Seq::empty()
    } else if o.color {
        "  "@ + sgr_text("1;"@, o.theme.title_sgr) + o.status_extra@ + reset_seq()
    } else {
        "  "@ + o.status_extra@
    })
}

/// The header line: generation, population, size, then the optional step
/// counts, largest age, sparkline and status, and the quit hint.
pub open spec fn header_text(g: &Grid, generation: u64, stats: Option<StepStats>, o: &RenderOpts) -> Seq<
    char,
> {
    header_main(g, generation, o) + header_stats(stats, o.color) + header_age(g, o) + header_extras(o)
        + "  ("@ + quit_hint(o.status_extra@) + ")"@ + eol_seq()
}

/// A whole frame: cursor home, the header where stats are shown, then the
/// grid in the chosen style.
pub open spec fn frame_text(g: &Grid, generation: u64, stats: Option<StepStats>, o: &RenderOpts) -> Seq<
    char,
> {
    seq!['\u{1b}', '[', 'H'] + (if o.show_stats {
        header_text(g, generation, stats, o)
    } else {
        Seq::empty()
    }) + match o.style {
        Style::Block => cells_body(g, Style::Block, o.color, o.age_heat, o.theme),
        Style::Dots => cells_body(g, Style::Dots, o.color, o.age_heat, o.theme),
        Style::Braille => braille_body(g, o.color, o.age_heat, o.theme),
    }
}

/// Append `n` right-aligned in a field of five.
fn push_pad5(out: &mut Vec<char>, n: u128)
    ensures
        final(out)@ == old(out)@ + pad5(decimal_seq(n as nat)),
{
    let mut digits: Vec<char> = Vec::new();
    push_decimal(&mut digits, n);
    assert(digits@ =~= decimal_seq(n as nat));
    if digits.len() < 5 {
        let pad = 5 - digits.len();
        let ghost start = out@;
        let mut k: usize = 0;
        while k < pad
            invariant
                k <= pad,
                out@ == start + Seq::new(k as nat, |i: int| ' '),
            decreases pad - k,
        {
            out.push(' ');
            assert(out@ =~= start + Seq::new((k + 1) as nat, |i: int| ' '));
            k += 1;
        }
    }
    push_chars(out, digits.as_slice());
    assert(out@ =~= old(out)@ + pad5(decimal_seq(n as nat)));
}

#[verifier::rlimit(60)]
fn write_header_main(grid: &Grid, generation: u64, opts: &RenderOpts, out: &mut Vec<char>)
    requires
        grid.wf(),
    ensures
        final(out)@ == old(out)@ + header_main(grid, generation, opts),
{
    let pop = grid.population();
    let theme = opts.theme;
    if opts.color {
        push_sgr(out, "1;", theme.title_sgr);
        push_str(out, "gol-rs");
        push_reset(out);
        push_str(out, "  gen ");
        push_sgr(out, "", theme.accent_sgr);
        push_pad5(out, generation as u128);
        push_reset(out);
        push_str(out, "  pop ");
        push_sgr(out, "", theme.pop_sgr);
        push_pad5(out, pop as u128);
        push_reset(out);
        push_str(out, "  grid ");
        push_sgr(out, "", theme.accent_sgr);
        push_decimal(out, grid.w as u128);
        push_str(out, "x");
        push_decimal(out, grid.h as u128);
        push_reset(out);
    } else {
        push_str(out, "gol-rs  gen ");
        push_pad5(out, generation as u128);
        push_str(out, "  pop ");
        push_pad5(out, pop as u128);
        push_str(out, "  grid ");
        push_decimal(out, grid.w as u128);
        push_str(out, "x");
        push_decimal(out, grid.h as u128);
    }
    assert(out@ =~= old(out)@ + header_main(grid, generation, opts));
}

fn write_header_stats(last_stats: Option<StepStats>, color: bool, out: &mut Vec<char>)
    ensures
        final(out)@ == old(out)@ + header_stats(last_stats, color),
{
    if let Some(s) = last_stats {
        if color {
            push_str(out, "  +");
            push_sgr(out, "", 32);
            push_decimal(out, s.births as u128);
            push_reset(out);
            push_str(out, "/-");
            push_sgr(out, "", 31);
            push_decimal(out, s.deaths as u128);
            push_reset(out);
        } else {
            push_str(out, "  +");
            push_decimal(out, s.births as u128);
            push_str(out, "/-");
            push_decimal(out, s.deaths as u128);
        }
    }
    assert(out@ =~= old(out)@ + header_stats(last_stats, color));
}

fn write_header_age(grid: &Grid, opts: &RenderOpts, out: &mut Vec<char>)
    ensures
        final(out)@ == old(out)@ + header_age(grid, opts),
{
    if opts.age_heat {
        push_str(out, "  maxage ");
        if opts.color {
            push_sgr(out, "", 31);
            push_decimal(out, grid.max_age() as u128);
            push_reset(out);
        } else {
            push_decimal(out, grid.max_age() as u128);
        }
    }
    assert(out@ =~= old(out)@ + header_age(grid, opts));
}

fn write_header_extras(opts: &RenderOpts, out: &mut Vec<char>)
    ensures
        final(out)@ == old(out)@ + header_extras(opts),
{
    let status = str_chars(opts.status_extra.as_str());
    let spark = str_chars(opts.sparkline.as_str());
    if spark.len() > 0 {
        push_str(out, "  ");
        push_chars(out, spark.as_slice());
    }
    let ghost mid = out@;
    if status.len() > 0 {
        push_str(out, "  ");
        if opts.color {
            push_sgr(out, "1;", opts.theme.title_sgr);
            push_chars(out, status.as_slice());
            push_reset(out);
        } else {
            push_chars(out, status.as_slice());
        }
    }
    assert(out@ =~= old(out)@ + header_extras(opts));
}

/// Append the header line.
#[verifier::rlimit(60)]
fn write_header(
    grid: &Grid,
    generation: u64,
    last_stats: Option<StepStats>,
    opts: &RenderOpts,
    out: &mut Vec<char>,
)
    requires
        grid.wf(),
    ensures
        final(out)@ == old(out)@ + header_text(grid, generation, last_stats, opts),
{
    write_header_main(grid, generation, opts, out);
    write_header_stats(last_stats, opts.color, out);
    write_header_age(grid, opts, out);
    write_header_extras(opts, out);
    let status = str_chars(opts.status_extra.as_str());
    let interactive = contains_str(status.as_slice(), "interactive");
    push_str(out, "  (");
    if interactive {
        push_str(out, "keys: spc . + - r t a w s p q");
    } else {
        push_str(out, "Ctrl-C to quit");
    }
    push_str(out, ")");
    push_eol(out);
    assert(out@ =~= old(out)@ + header_text(grid, generation, last_stats, opts));
}

/// The text of one animation frame: cursor home, the header (where
/// `show_stats`), then the grid in the chosen style.
pub fn render_frame(grid: &Grid, generation: u64, last_stats: Option<StepStats>, opts: &RenderOpts) -> (s: String)
    requires
        grid.wf(),
    ensures
        s@ == frame_text(grid, generation, last_stats, opts),
{
    let mut out: Vec<char> = Vec::new();
    out.push('\u{1b}');
    out.push('[');
    out.push('H');
    if opts.show_stats {
        write_header(grid, generation, last_stats, opts, &mut out);
    }
    match opts.style {
        Style::Block => render_cells(grid, opts, Style::Block, &mut out),
        Style::Dots => render_cells(grid, opts, Style::Dots, &mut out),
        Style::Braille => render_braille(grid, opts, &mut out),
    }
    assert(out@ =~= frame_text(grid, generation, last_stats, opts));
    string_from_chars(out)
}

} // verus!
