//! Life 1.05-style run-length encoded (RLE) pattern text: a strict parser
//! for untrusted input and a canonical, wrapped exporter.

use vstd::prelude::*;
use crate::pattern::{Pattern, PatternError, lemma_cell_in_rect, lemma_wf_dims, pattern_error_text};
use crate::rule::{
    Rule, law_rule_text_round_trip, lemma_mask_digits_are_digits, mask_digits, spec_parse_rule, spec_rule_bs, spec_rule_error,
};
use crate::text::{
    lemma_find_first, ascii_lower, char_debug_text, chars_eq_str, copy_range, debug_char, debug_str, decimal_seq,
    digit_value, push_chars, push_decimal, push_str, str_debug_text, drop_ws, find_char, find_first,
    is_ascii_digit, lines_of, lower_char, lower_chars, lower_seq, push_non_ws, split_chars,
    split_lines, split_on, spec_parse_usize, str_chars, string_from_chars, trim_chars, trim_seq,
    parse_usize, digits_value, is_ws, lemma_decimal_seq, lemma_digits_value_mono, lemma_lines_of_line,
    lemma_parse_decimal, lemma_split_on_piece, lemma_split_on_whole, lemma_trim_plain,
    lemma_trim_skip_lead, lemma_trim_skip_trail, strip_cr, trim_end_seq,
};

verus! {

/// Hard ceiling on the cells a parsed pattern may declare.
pub const MAX_RLE_CELLS: usize = 16000000;

/// Maximum encoded input, in bytes, accepted by the parser.
pub const MAX_RLE_INPUT_BYTES: usize = 8388608;

/// A field of the RLE header line.
#[derive(Clone, Copy, Debug, Eq, PartialEq, Structural)]
pub enum HeaderKey {
    X,
    Y,
    Rule,
}

/// What is wrong with an RLE text. Body positions count from 0 over the body
/// with its blanks removed.
#[derive(Clone, Copy, Debug, Eq, PartialEq, Structural)]
pub enum RleErrorKind {
    /// The input has more bytes than `MAX_RLE_INPUT_BYTES`.
    InputTooLarge { bytes: usize },
    /// Every line is blank or a comment.
    MissingHeader,
    /// A header field without `=`.
    InvalidHeaderField,
    /// A header field given twice.
    DuplicateField { key: HeaderKey },
    /// A header field other than `x`, `y` and `rule`.
    UnknownHeaderField,
    /// A dimension that is not an unsigned integer.
    NotAnInteger { key: HeaderKey },
    /// A dimension of 0.
    ZeroDimension { key: HeaderKey },
    /// A `rule` value that names no rule.
    InvalidRule,
    /// The header lacks `x` or `y`.
    MissingField { key: HeaderKey },
    /// `x * y` overflows `usize`.
    DimensionsOverflow,
    /// `x * y` exceeds `MAX_RLE_CELLS`.
    TooManyCells { cells: usize },
    /// The pattern storage could not be built.
    Pattern { error: PatternError },
    /// No body line follows the header.
    MissingBody,
    /// A run length overflows `usize`.
    RunOverflow { position: usize },
    /// A run length of 0.
    ZeroRun { position: usize },
    /// Cell data below the declared height.
    ExceedsHeight { position: usize },
    /// A run whose end column overflows `usize`.
    RowRunOverflow { position: usize },
    /// A run that ends past the declared width.
    BeyondWidth { position: usize, end: usize, width: usize },
    /// A row advance that overflows `usize`.
    RowCountOverflow { position: usize },
    /// A row advance past the last declared row.
    PastFinalRow { position: usize, height: usize },
    /// A run length written before `!`.
    RunBeforeTerminator { position: usize },
    /// Anything after the `!` terminator.
    TrailingData { position: usize },
    /// A character other than a digit, `b`, `o`, `$` or `!` (lower-cased).
    UnexpectedToken { position: usize, token: char },
    /// The body ends without `!`.
    MissingTerminator,
}

/// Error returned for malformed or unsafe RLE input: its kind, and the text it
/// concerns (the offending header field, the unknown key, or the rule
/// parser's message; empty otherwise).
#[derive(Clone, Debug, Eq, PartialEq)]
pub struct RleError {
    kind: RleErrorKind,
    detail: String,
}

impl View for RleError {
    type V = (RleErrorKind, Seq<char>);

    closed spec fn view(&self) -> (RleErrorKind, Seq<char>) {
        (self.kind, self.detail@)
    }
}

/// An error of `kind` with no detail text.
pub open spec fn bare(kind: RleErrorKind) -> (RleErrorKind, Seq<char>) {
    (kind, Seq::empty())
}

/// A result with its error taken by view.
pub open spec fn rle_result<T>(r: Result<T, RleError>) -> Result<T, (RleErrorKind, Seq<char>)> {
    match r {
        Ok(v) => Ok(v),
        Err(e) => Err(e@),
    }
}

/// A blank line or a `#` comment line.
pub open spec fn is_skippable(line: Seq<char>) -> bool {
    let t = trim_seq(line);
    t.len() == 0 || t[0] == '#'
}

/// Index of the first line at or after `k` that is neither blank nor a comment.
pub open spec fn header_index(lines: Seq<Seq<char>>, k: int) -> Option<int>
    decreases lines.len() - k,
{
    if k < 0 || k >= lines.len() {
        None
    } else if is_skippable(lines[k]) {
        header_index(lines, k + 1)
    } else {
        Some(k)
    }
}

/// A header dimension: an unsigned integer of at least 1.
pub open spec fn spec_parse_dimension(value: Seq<char>, key: HeaderKey) -> Result<
    usize,
    (RleErrorKind, Seq<char>),
> {
    match spec_parse_usize(value) {
        None => Err(bare(RleErrorKind::NotAnInteger { key })),
        Some(n) => if n == 0 {
            Err(bare(RleErrorKind::ZeroDimension { key }))
        } else {
            Ok(n)
        },
    }
}

/// Read the header fields in order, starting from the values found so far.
pub open spec fn header_fields(
    fields: Seq<Seq<char>>,
    w: Option<usize>,
    h: Option<usize>,
    rule: Option<Rule>,
) -> Result<(Option<usize>, Option<usize>, Option<Rule>), (RleErrorKind, Seq<char>)>
    decreases fields.len(),
{
    if fields.len() == 0 {
        Ok((w, h, rule))
    } else {
        let f = fields[0];
        match find_first(f, '=') {
            None => Err((RleErrorKind::InvalidHeaderField, f)),
            Some(k) => {
                let key = lower_seq(trim_seq(f.take(k as int)));
                let value = trim_seq(f.skip(k as int + 1));
                if key == "x"@ {
                    if w is Some {
                        Err(bare(RleErrorKind::DuplicateField { key: HeaderKey::X }))
                    } else {
                        match spec_parse_dimension(value, HeaderKey::X) {
                            Err(e) => Err(e),
                            Ok(v) => header_fields(fields.drop_first(), Some(v), h, rule),
                        }
                    }
                } else if key == "y"@ {
                    if h is Some {
                        Err(bare(RleErrorKind::DuplicateField { key: HeaderKey::Y }))
                    } else {
                        match spec_parse_dimension(value, HeaderKey::Y) {
                            Err(e) => Err(e),
                            Ok(v) => header_fields(fields.drop_first(), w, Some(v), rule),
                        }
                    }
                } else if key == "rule"@ {
                    if rule is Some {
                        Err(bare(RleErrorKind::DuplicateField { key: HeaderKey::Rule }))
                    } else {
                        match spec_parse_rule(value) {
                            None => Err((RleErrorKind::InvalidRule, spec_rule_error(value))),
                            Some(r) => header_fields(fields.drop_first(), w, h, Some(r)),
                        }
                    }
                } else {
                    Err((RleErrorKind::UnknownHeaderField, key))
                }
            },
        }
    }
}

/// The header line `x = W, y = H[, rule = R]`, fields in any order.
pub open spec fn spec_parse_header(header: Seq<char>) -> Result<
    (usize, usize, Option<Rule>),
    (RleErrorKind, Seq<char>),
> {
    match header_fields(split_on(header, ','), None, None, None) {
        Err(e) => Err(e),
        Ok((w, h, rule)) => match w {
            None => Err(bare(RleErrorKind::MissingField { key: HeaderKey::X })),
            Some(wv) => match h {
                None => Err(bare(RleErrorKind::MissingField { key: HeaderKey::Y })),
                Some(hv) => Ok((wv, hv, rule)),
            },
        },
    }
}

/// Everything up to the allocation of the pattern: the input size, the
/// header line, and the declared cell count. Gives the width, height, rule
/// and index of the header line.
pub open spec fn rle_header_stage(input: Seq<char>, bytes: nat) -> Result<
    (usize, usize, Option<Rule>, int),
    (RleErrorKind, Seq<char>),
> {
    if bytes > MAX_RLE_INPUT_BYTES {
        Err(bare(RleErrorKind::InputTooLarge { bytes: bytes as usize }))
    } else {
        let lines = lines_of(input);
        match header_index(lines, 0) {
            None => Err(bare(RleErrorKind::MissingHeader)),
            Some(k) => match spec_parse_header(trim_seq(lines[k])) {
                Err(e) => Err(e),
                Ok((w, h, rule)) => if w * h > usize::MAX {
                    Err(bare(RleErrorKind::DimensionsOverflow))
                } else if w * h > MAX_RLE_CELLS {
                    Err(bare(RleErrorKind::TooManyCells { cells: (w * h) as usize }))
                } else {
                    Ok((w, h, rule, k))
                },
            },
        }
    }
}

/// The body text: the non-blank characters of every line that is neither
/// blank nor a comment, in order.
pub open spec fn rle_body(lines: Seq<Seq<char>>) -> Seq<char>
    decreases lines.len(),
{
    if lines.len() == 0 {
        Seq::empty()
    } else if is_skippable(lines.last()) {
        rle_body(lines.drop_last())
    } else {
        rle_body(lines.drop_last()) + drop_ws(trim_seq(lines.last()))
    }
}

/// The cells `[x0, x1)` of row `y`.
pub open spec fn run_cells(y: int, x0: int, x1: int) -> Set<(int, int)> {
    Set::new(|c: (int, int)| c.1 == y && x0 <= c.0 < x1)
}

/// The pending run length, 1 when none was written.
pub open spec fn run_or_one(run: Option<usize>) -> int {
    match run {
        Some(n) => n as int,
        None => 1,
    }
}

/// The pending run length, 0 when none was written.
pub open spec fn run_or_zero(run: Option<usize>) -> int {
    match run {
        Some(n) => n as int,
        None => 0,
    }
}

/// Decode the body from position `i`, with the pending run `run`, at column
/// `x` of row `y`, having drawn the cells `live` so far. Gives the live
/// cells of the whole body.
pub open spec fn walk_body(
    body: Seq<char>,
    i: int,
    w: usize,
    h: usize,
    run: Option<usize>,
    x: usize,
    y: usize,
    live: Set<(int, int)>,
) -> Result<Set<(int, int)>, RleErrorKind>
    decreases body.len() - i,
{
    if i < 0 || i >= body.len() {
        Err(RleErrorKind::MissingTerminator)
    } else {
        let c = body[i];
        let position = i as usize;
        let t = ascii_lower(c);
        if is_ascii_digit(c) {
            let v = run_or_zero(run) * 10 + digit_value(c);
            if v > usize::MAX {
                Err(RleErrorKind::RunOverflow { position })
            } else {
                walk_body(body, i + 1, w, h, Some(v as usize), x, y, live)
            }
        } else if t == 'b' || t == 'o' {
            let count = run_or_one(run);
            let end = x + count;
            if count == 0 {
                Err(RleErrorKind::ZeroRun { position })
            } else if y >= h {
                Err(RleErrorKind::ExceedsHeight { position })
            } else if end > usize::MAX {
                Err(RleErrorKind::RowRunOverflow { position })
            } else if end > w {
                Err(RleErrorKind::BeyondWidth { position, end: end as usize, width: w })
            } else {
                let drawn = if t == 'o' {
                    live.union(run_cells(y as int, x as int, end))
                } else {
                    live
                };
                walk_body(body, i + 1, w, h, None, end as usize, y, drawn)
            }
        } else if t == '$' {
            let count = run_or_one(run);
            let ny = y + count;
            if count == 0 {
                Err(RleErrorKind::ZeroRun { position })
            } else if ny > usize::MAX {
                Err(RleErrorKind::RowCountOverflow { position })
            } else if ny >= h {
                Err(RleErrorKind::PastFinalRow { position, height: h })
            } else {
                walk_body(body, i + 1, w, h, None, 0, ny as usize, live)
            }
        } else if t == '!' {
            if run is Some {
                Err(RleErrorKind::RunBeforeTerminator { position })
            } else if i + 1 < body.len() {
                Err(RleErrorKind::TrailingData { position: (i + 1) as usize })
            } else {
                Ok(live)
            }
        } else {
            Err(RleErrorKind::UnexpectedToken { position, token: t })
        }
    }
}

/// Everything after the allocation: the body lines following the header
/// line `k` of a `w × h` pattern. Gives width, height, rule and live cells.
pub open spec fn rle_body_stage(input: Seq<char>, k: int, w: usize, h: usize, rule: Option<Rule>) -> Result<
    (usize, usize, Option<Rule>, Set<(int, int)>),
    (RleErrorKind, Seq<char>),
> {
    let lines = lines_of(input);
    rle_body_result(rle_body(lines.subrange(k + 1, lines.len() as int)), w, h, rule)
}

/// The outcome of decoding the body text `body` of a `w × h` pattern with
/// rule `rule`.
pub open spec fn rle_body_result(body: Seq<char>, w: usize, h: usize, rule: Option<Rule>) -> Result<
    (usize, usize, Option<Rule>, Set<(int, int)>),
    (RleErrorKind, Seq<char>),
> {
    if body.len() == 0 {
        Err(bare(RleErrorKind::MissingBody))
    } else {
        match walk_body(body, 0, w, h, None, 0, 0, Set::empty()) {
            Err(kind) => Err(bare(kind)),
            Ok(live) => Ok((w, h, rule, live)),
        }
    }
}

/// `p` is the `w × h` pattern with rule `rule` whose live cells are `live`.
pub open spec fn is_rle_image(p: &Pattern, m: (usize, usize, Option<Rule>, Set<(int, int)>)) -> bool {
    &&& p.wf()
    &&& p.spec_width() == m.0
    &&& p.spec_height() == m.1
    &&& p.spec_rule() == m.2
    &&& forall|x: int, y: int|
        0 <= x < m.0 && 0 <= y < m.1 ==> #[trigger] p.cell(x, y) == m.3.contains((x, y))
}

/// `r` is what the outcome `s` describes.
pub open spec fn rle_outcome(
    r: Result<Pattern, RleError>,
    s: Result<(usize, usize, Option<Rule>, Set<(int, int)>), (RleErrorKind, Seq<char>)>,
) -> bool {
    match s {
        Ok(m) => r matches Ok(p) && is_rle_image(&p, m),
        Err(e) => r matches Err(x) && x@ == e,
    }
}

/// The full outcome of parsing `input` (of `bytes` bytes), were the pattern's
/// storage always available.
pub open spec fn spec_parse_rle(input: Seq<char>, bytes: nat) -> Result<
    (usize, usize, Option<Rule>, Set<(int, int)>),
    (RleErrorKind, Seq<char>),
> {
    match rle_header_stage(input, bytes) {
        Err(e) => Err(e),
        Ok((w, h, rule, k)) => rle_body_stage(input, k, w, h, rule),
    }
}

/// Liveness of columns `0..n` of row `y` of `p`.
pub open spec fn row_prefix(p: &Pattern, y: int, n: int) -> Seq<bool> {
    Seq::new(n as nat, |x: int| p.cell(x, y))
}

/// Length of the run of equal values that ends `s`.
pub open spec fn trailing_run(s: Seq<bool>) -> nat
    decreases s.len(),
{
    if s.len() == 0 {
        0
    } else if s.len() >= 2 && s[s.len() - 2] == s.last() {
        trailing_run(s.drop_last()) + 1
    } else {
        1
    }
}

pub proof fn lemma_trailing_run_bounds(s: Seq<bool>)
    ensures
        s.len() > 0 ==> 1 <= trailing_run(s) <= s.len(),
    decreases s.len(),
{
    if s.len() >= 2 && s[s.len() - 2] == s.last() {
        lemma_trailing_run_bounds(s.drop_last());
    }
}

/// The text of one run: its length when above 1, then `o` or `b`.
pub open spec fn run_text(n: nat, alive: bool) -> Seq<char> {
    (if n > 1 {
        decimal_seq(n)
    } else {
        Seq::empty()
    }).push(if alive {
        'o'
    } else {
        'b'
    })
}

/// Run-length encoding of a row: its maximal runs, left to right.
pub open spec fn encode_runs(s: Seq<bool>) -> Seq<char>
    decreases s.len(),
{
    if s.len() == 0 {
        Seq::empty()
    } else {
        proof {
            lemma_trailing_run_bounds(s);
        }
        let n = trailing_run(s);
        encode_runs(s.take(s.len() - n)) + run_text(n, s.last())
    }
}

/// The last live column of row `y` below column `n`.
pub open spec fn last_live_in_row(p: &Pattern, y: int, n: int) -> Option<int>
    decreases n,
{
    if n <= 0 {
        None
    } else if p.cell(n - 1, y) {
        Some(n - 1)
    } else {
        last_live_in_row(p, y, n - 1)
    }
}

/// The last row below `n` with a live cell.
pub open spec fn last_live_row(p: &Pattern, n: int) -> Option<int>
    decreases n,
{
    if n <= 0 {
        None
    } else if last_live_in_row(p, n - 1, p.spec_width() as int) is Some {
        Some(n - 1)
    } else {
        last_live_row(p, n - 1)
    }
}

/// Encoded row `y`: the runs up to its last live cell (nothing for a dead row).
pub open spec fn row_text(p: &Pattern, y: int) -> Seq<char> {
    match last_live_in_row(p, y, p.spec_width() as int) {
        None => Seq::empty(),
        Some(lx) => encode_runs(row_prefix(p, y, lx + 1)),
    }
}

/// Rows `0..n` encoded and joined with `$`.
pub open spec fn rows_text(p: &Pattern, n: int) -> Seq<char>
    decreases n,
{
    if n <= 1 {
        row_text(p, 0)
    } else {
        rows_text(p, n - 1) + "$"@ + row_text(p, n - 1)
    }
}

/// The RLE body: the rows up to the last live one, then `!`.
pub open spec fn body_text(p: &Pattern) -> Seq<char> {
    match last_live_row(p, p.spec_height() as int) {
        None => "!"@,
        Some(ly) => rows_text(p, ly + 1) + "!"@,
    }
}

/// `s` cut into lines of at most 70 characters, each ended by a newline.
pub open spec fn wrap_lines(s: Seq<char>) -> Seq<char>
    decreases s.len(),
{
    if s.len() == 0 {
        Seq::empty()
    } else if s.len() <= 70 {
        s.push('\n')
    } else {
        s.take(70).push('\n') + wrap_lines(s.skip(70))
    }
}

/// The header line of an export, without its newline.
pub open spec fn header_text(p: &Pattern) -> Seq<char> {
    "x = "@ + decimal_seq(p.spec_width() as nat) + ", y = "@ + decimal_seq(p.spec_height() as nat)
        + match p.spec_rule() {
        Some(r) => ", rule = "@ + spec_rule_bs(r),
        None => Seq::empty(),
    }
}

/// Canonical RLE text of a pattern.
pub open spec fn spec_export_rle(p: &Pattern) -> Seq<char> {
    header_text(p) + "\n"@ + wrap_lines(body_text(p))
}

pub proof fn lemma_trailing_block(s: Seq<bool>, m: int, count: int, v: bool)
    requires
        1 <= count <= m <= s.len(),
        forall|j: int| m - count <= j < m ==> #[trigger] s[j] == v,
        m - count == 0 || s[m - count - 1] != v,
    ensures
        trailing_run(s.take(m)) == count,
    decreases count,
{
    let t = s.take(m);
    if count == 1 {
        if m >= 2 {
            assert(t[m - 2] == s[m - 2]);
        }
    } else {
        assert(t.drop_last() =~= s.take(m - 1));
        assert(s[m - 2] == v);
        lemma_trailing_block(s, m - 1, count - 1, v);
    }
}

/// `encode_runs` of a prefix whose trailing run is known.
pub proof fn lemma_encode_step(s: Seq<bool>, m: int, count: int, v: bool)
    requires
        1 <= count <= m <= s.len(),
        forall|j: int| m - count <= j < m ==> #[trigger] s[j] == v,
        m - count == 0 || s[m - count - 1] != v,
    ensures
        encode_runs(s.take(m)) == encode_runs(s.take(m - count)) + run_text(count as nat, v),
{
    lemma_trailing_block(s, m, count, v);
    let t = s.take(m);
    assert(t.take(m - count) =~= s.take(m - count));
    assert(t.last() == v);
}

pub(crate) fn push_run(out: &mut Vec<char>, count: usize, alive: bool)
    ensures
        final(out)@ == old(out)@ + run_text(count as nat, alive),
{
    if count > 1 {
        push_decimal(out, count as u128);
    }
    out.push(if alive {
        'o'
    } else {
        'b'
    });
}

/// Append the runs of row `y` up to and including column `last_x`.
fn encode_row(out: &mut Vec<char>, p: &Pattern, y: usize, last_x: usize)
    requires
        p.wf(),
        y < p.spec_height(),
        last_x < p.spec_width(),
    ensures
        final(out)@ == old(out)@ + encode_runs(row_prefix(p, y as int, last_x + 1)),
{
    let ghost s = row_prefix(p, y as int, last_x + 1);
    let mut current = match p.get(0, y) {
        Some(b) => b,
        None => false,
    };
    let mut count: usize = 0;
    let mut x: usize = 0;
    while x <= last_x
        invariant
            p.wf(),
            y < p.spec_height(),
            last_x < p.spec_width(),
            s == row_prefix(p, y as int, last_x + 1),
            x <= last_x + 1,
            count <= x,
            x > 0 ==> count >= 1,
            x == 0 ==> count == 0 && current == s[0],
            forall|j: int| x - count <= j < x ==> #[trigger] s[j] == current,
            x - count > 0 ==> s[x - count - 1] != current,
            out@ == old(out)@ + encode_runs(s.take(x - count)),
        decreases last_x + 1 - x,
    {
        let alive = match p.get(x, y) {
            Some(b) => b,
            None => false,
        };
        assert(alive == s[x as int]);
        if alive == current {
            count += 1;
        } else {
            proof {
                lemma_encode_step(s, x as int, count as int, current);
            }
            push_run(out, count, current);
            current = alive;
            count = 1;
        }
        x += 1;
    }
    proof {
        lemma_encode_step(s, last_x + 1, count as int, current);
        assert(s.take(last_x + 1) =~= s);
    }
    push_run(out, count, current);
}

/// The last live column of row `y`.
fn last_live_x(p: &Pattern, y: usize) -> (r: Option<usize>)
    requires
        p.wf(),
        y < p.spec_height(),
    ensures
        match r {
            Some(x) => last_live_in_row(p, y as int, p.spec_width() as int) == Some(x as int) && x
                < p.spec_width(),
            None => last_live_in_row(p, y as int, p.spec_width() as int) is None,
        },
{
    let mut n = p.width();
    while n > 0
        invariant
            p.wf(),
            y < p.spec_height(),
            n <= p.spec_width(),
            last_live_in_row(p, y as int, p.spec_width() as int) == last_live_in_row(p, y as int, n as int),
        decreases n,
    {
        if p.get(n - 1, y) == Some(true) {
            return Some(n - 1);
        }
        n -= 1;
    }
    None
}

/// The last row with a live cell.
fn last_live_y(p: &Pattern) -> (r: Option<usize>)
    requires
        p.wf(),
    ensures
        match r {
            Some(y) => last_live_row(p, p.spec_height() as int) == Some(y as int) && y < p.spec_height(),
            None => last_live_row(p, p.spec_height() as int) is None,
        },
{
    let mut n = p.height();
    while n > 0
        invariant
            p.wf(),
            n <= p.spec_height(),
            last_live_row(p, p.spec_height() as int) == last_live_row(p, n as int),
        decreases n,
    {
        if last_live_x(p, n - 1).is_some() {
            return Some(n - 1);
        }
        n -= 1;
    }
    None
}

/// Export a pattern as canonical, wrapped RLE text: the header line
/// `x = W, y = H[, rule = B…/S…]`, then the body in lines of at most 70
/// characters. Rows end at their last live cell; rows after the last live one
/// are left out.
#[must_use]
pub fn export_rle(pattern: &Pattern) -> (s: String)
    requires
        pattern.wf(),
    ensures
        s@ == spec_export_rle(pattern),
{
    let mut body: Vec<char> = Vec::new();
    match last_live_y(pattern) {
        Some(last_y) => {
            let mut y: usize = 0;
            while y <= last_y
                invariant
                    pattern.wf(),
                    last_y < pattern.spec_height(),
                    y <= last_y + 1,
                    body@ == (if y == 0 {
                        Seq::empty()
                    } else {
                        rows_text(pattern, y as int)
                    }),
                decreases last_y + 1 - y,
            {
                let ghost before = body@;
                if y > 0 {
                    push_str(&mut body, "$");
                }
                match last_live_x(pattern, y) {
                    Some(lx) => encode_row(&mut body, pattern, y, lx),
                    None => {},
                }
                proof {
                    if y == 0 {
                        assert(body@ =~= rows_text(pattern, 1));
                    } else {
                        assert(body@ =~= rows_text(pattern, y + 1));
                    }
                }
                y += 1;
            }
        },
        None => {},
    }
    push_str(&mut body, "!");
    let mut out: Vec<char> = Vec::new();
    push_str(&mut out, "x = ");
    push_decimal(&mut out, pattern.width() as u128);
    push_str(&mut out, ", y = ");
    push_decimal(&mut out, pattern.height() as u128);
    match pattern.rule() {
        Some(r) => {
            push_str(&mut out, ", rule = ");
            let text = r.to_string_bs();
            push_chars(&mut out, str_chars(text.as_str()).as_slice());
        },
        None => {},
    }
    assert(out@ =~= header_text(pattern));
    push_str(&mut out, "\n");
    let ghost head = out@;
    let ghost b = body@;
    assert(b =~= body_text(pattern));
    let mut i: usize = 0;
    assert(b.skip(0) =~= b);
    while i < body.len()
        invariant
            b == body@,
            i <= b.len(),
            head + wrap_lines(b) == out@ + wrap_lines(b.skip(i as int)),
        decreases b.len() - i,
    {
        let end: usize = if body.len() - i <= 70 {
            body.len()
        } else {
            i + 70
        };
        let chunk = copy_range(body.as_slice(), i, end);
        proof {
            let rest = b.skip(i as int);
            assert(b.skip(end as int) =~= rest.skip(end - i));
            if rest.len() <= 70 {
                assert(chunk@ =~= rest);
                assert(b.skip(end as int) =~= Seq::<char>::empty());
            } else {
                assert(chunk@ =~= rest.take(70));
            }
        }
        push_chars(&mut out, chunk.as_slice());
        out.push('\n');
        i = end;
    }
    string_from_chars(out)
}

impl RleError {
    fn bare(kind: RleErrorKind) -> (e: RleError)
        ensures
            e@ == bare(kind),
    {
        RleError { kind, detail: String::new() }
    }

    fn with_detail(kind: RleErrorKind, detail: String) -> (e: RleError)
        ensures
            e@ == (kind, detail@),
    {
        RleError { kind, detail }
    }

    /// What is wrong with the input.
    pub fn kind(&self) -> (k: RleErrorKind)
        ensures
            k == self@.0,
    {
        self.kind
    }
}

fn is_skippable_line(line: &[char]) -> (b: bool)
    ensures
        b == is_skippable(line@),
{
    let t = trim_chars(line);
    t.len() == 0 || t[0] == '#'
}

fn parse_dimension(value: &[char], key: HeaderKey) -> (r: Result<usize, RleError>)
    ensures
        rle_result(r) == spec_parse_dimension(value@, key),
{
    match parse_usize(value) {
        None => Err(RleError::bare(RleErrorKind::NotAnInteger { key })),
        Some(n) => if n == 0 {
            Err(RleError::bare(RleErrorKind::ZeroDimension { key }))
        } else {
            Ok(n)
        },
    }
}

fn parse_header(header: &[char]) -> (r: Result<(usize, usize, Option<Rule>), RleError>)
    ensures
        rle_result(r) == spec_parse_header(header@),
        r matches Ok((w, h, _)) ==> w >= 1 && h >= 1,
{
    let fields = split_chars(header, ',');
    let ghost fs = split_on(header@, ',');
    let mut w: Option<usize> = None;
    let mut h: Option<usize> = None;
    let mut rule: Option<Rule> = None;
    let mut i: usize = 0;
    assert(fs.skip(0) =~= fs);
    while i < fields.len()
        invariant
            i <= fields@.len() == fs.len(),
            fs == split_on(header@, ','),
            forall|j: int| 0 <= j < fields@.len() ==> #[trigger] fields@[j]@ == fs[j],
            header_fields(fs, None, None, None) == header_fields(fs.skip(i as int), w, h, rule),
            w matches Some(v) ==> v >= 1,
            h matches Some(v) ==> v >= 1,
        decreases fields@.len() - i,
    {
        let f = fields[i].as_slice();
        proof {
            assert(fs.skip(i as int)[0] == fs[i as int]);
            assert(fs.skip(i as int).drop_first() =~= fs.skip(i + 1));
            assert(f@ == fs[i as int]);
        }
        let eq = find_char(f, '=');
        let k = match eq {
            None => {
                let text = copy_range(f, 0, f.len());
                assert(text@ =~= f@);
                return Err(RleError::with_detail(RleErrorKind::InvalidHeaderField, string_from_chars(text)));
            },
            Some(k) => k,
        };
        assert(k < f.len());
        let raw_key = copy_range(f, 0, k);
        let trimmed_key = trim_chars(raw_key.as_slice());
        let key = lower_chars(trimmed_key.as_slice());
        let raw_value = copy_range(f, k + 1, f.len());
        let value = trim_chars(raw_value.as_slice());
        proof {
            assert(raw_key@ =~= f@.take(k as int));
            assert(raw_value@ =~= f@.skip(k + 1));
        }
        if chars_eq_str(key.as_slice(), "x") {
            if w.is_some() {
                return Err(RleError::bare(RleErrorKind::DuplicateField { key: HeaderKey::X }));
            }
            match parse_dimension(value.as_slice(), HeaderKey::X) {
                Ok(v) => {
                    w = Some(v);
                },
                Err(e) => {
                    return Err(e);
                },
            }
        } else if chars_eq_str(key.as_slice(), "y") {
            if h.is_some() {
                return Err(RleError::bare(RleErrorKind::DuplicateField { key: HeaderKey::Y }));
            }
            match parse_dimension(value.as_slice(), HeaderKey::Y) {
                Ok(v) => {
                    h = Some(v);
                },
                Err(e) => {
                    return Err(e);
                },
            }
        } else if chars_eq_str(key.as_slice(), "rule") {
            if rule.is_some() {
                return Err(RleError::bare(RleErrorKind::DuplicateField { key: HeaderKey::Rule }));
            }
            let text = string_from_chars(value);
            match Rule::parse(text.as_str()) {
                Ok(r) => {
                    rule = Some(r);
                },
                Err(m) => {
                    return Err(RleError::with_detail(RleErrorKind::InvalidRule, m));
                },
            }
        } else {
            return Err(RleError::with_detail(RleErrorKind::UnknownHeaderField, string_from_chars(key)));
        }
        i += 1;
    }
    assert(fs.skip(i as int) =~= Seq::<Seq<char>>::empty());
    match w {
        None => Err(RleError::bare(RleErrorKind::MissingField { key: HeaderKey::X })),
        Some(wv) => match h {
            None => Err(RleError::bare(RleErrorKind::MissingField { key: HeaderKey::Y })),
            Some(hv) => Ok((wv, hv, rule)),
        },
    }
}

/// Parse a Life 1.05-style run-length encoded pattern.
///
/// Comment lines beginning with `#` and arbitrary whitespace in the body are
/// accepted. The parser is strict about dimensions, run lengths, the
/// terminating `!`, and trailing data. Whether the pattern's storage can be
/// allocated depends on the machine: when it cannot, the error is
/// `RleErrorKind::Pattern` with `PatternError::AllocationFailed`; otherwise
/// the result is what `decode_rle_body` gives for the body on the allocated
/// blank pattern.
pub fn parse_rle(input: &str) -> (r: Result<Pattern, RleError>)
    ensures
        rle_header_stage(input@, input.len() as nat) matches Err(e) ==> r matches Err(x) && x@ == e,
        rle_header_stage(input@, input.len() as nat) matches Ok((w, h, rule, k)) ==> rle_outcome(
            r,
            rle_body_stage(input@, k, w, h, rule),
        ) || (r matches Err(x) && x@ == bare(
            RleErrorKind::Pattern { error: PatternError::AllocationFailed { width: w, height: h } },
        )),
{
    let bytes = input.len();
    if bytes > MAX_RLE_INPUT_BYTES {
        return Err(RleError::bare(RleErrorKind::InputTooLarge { bytes }));
    }
    let chars = str_chars(input);
    let lines = split_lines(chars.as_slice());
    let ghost ls = lines_of(input@);
    let mut k: usize = 0;
    while k < lines.len() && is_skippable_line(lines[k].as_slice())
        invariant
            k <= lines@.len() == ls.len(),
            ls == lines_of(input@),
            forall|j: int| 0 <= j < lines@.len() ==> #[trigger] lines@[j]@ == ls[j],
            header_index(ls, 0) == header_index(ls, k as int),
        decreases lines@.len() - k,
    {
        k += 1;
    }
    if k >= lines.len() {
        return Err(RleError::bare(RleErrorKind::MissingHeader));
    }
    let header = trim_chars(lines[k].as_slice());
    let (width, height, rule) = match parse_header(header.as_slice()) {
        Ok(v) => v,
        Err(e) => {
            return Err(e);
        },
    };
    let cells = match width.checked_mul(height) {
        Some(n) => n,
        None => {
            return Err(RleError::bare(RleErrorKind::DimensionsOverflow));
        },
    };
    if cells > MAX_RLE_CELLS {
        return Err(RleError::bare(RleErrorKind::TooManyCells { cells }));
    }
    let none: Vec<(usize, usize)> = Vec::new();
    let mut pattern = match Pattern::from_live_cells(width, height, none.as_slice()) {
        Ok(p) => p,
        Err(error) => {
            assert(width >= 1 && height >= 1);
            assert(width * height <= usize::MAX);
            assert(none@.len() == 0);
            assert(!(error is EmptyDimension));
            assert(!(error is DimensionsOverflow));
            assert(!(error is CoordinateOutOfBounds));
            assert(error == PatternError::AllocationFailed { width, height });
            return Err(RleError::bare(RleErrorKind::Pattern { error }));
        },
    };
    let mut body: Vec<char> = Vec::new();
    let mut j: usize = k + 1;
    while j < lines.len()
        invariant
            k < j <= lines@.len() == ls.len(),
            forall|q: int| 0 <= q < lines@.len() ==> #[trigger] lines@[q]@ == ls[q],
            body@ == rle_body(ls.subrange(k + 1, j as int)),
            ls == lines_of(input@),
            rle_header_stage(input@, input.len() as nat) == Ok::<
                (usize, usize, Option<Rule>, int),
                (RleErrorKind, Seq<char>),
            >((width, height, rule, k as int)),
        decreases lines@.len() - j,
    {
        proof {
            assert(ls.subrange(k + 1, j + 1).drop_last() =~= ls.subrange(k + 1, j as int));
            assert(ls.subrange(k + 1, j + 1).last() == ls[j as int]);
        }
        let line = lines[j].as_slice();
        if !is_skippable_line(line) {
            let t = trim_chars(line);
            push_non_ws(&mut body, t.as_slice());
        }
        j += 1;
    }
    proof {
        assert(ls.subrange(k + 1, ls.len() as int) =~= ls.subrange(k + 1, j as int));
    }
    decode_rle_body(pattern, body.as_slice(), rule)
}

/// Decode the body text of an RLE pattern onto `blank`, the dead
/// `width × height` rectangle that was allocated for it, and give it the rule
/// `rule`: the decoded pattern, or the first error in the body.
#[verifier::spinoff_prover]
#[verifier::rlimit(40)]
pub fn decode_rle_body(blank: Pattern, body: &[char], rule: Option<Rule>) -> (r: Result<Pattern, RleError>)
    requires
        blank.wf(),
        blank.spec_rule() is None,
        forall|x: int, y: int|
            0 <= x < blank.spec_width() && 0 <= y < blank.spec_height() ==> !#[trigger] blank.cell(
                x,
                y,
            ),
    ensures
        rle_outcome(r, rle_body_result(body@, blank.spec_width(), blank.spec_height(), rule)),
{
    if body.len() == 0 {
        return Err(RleError::bare(RleErrorKind::MissingBody));
    }
    let width = blank.width();
    let height = blank.height();
    let ghost w0 = blank.spec_width();
    let ghost h0 = blank.spec_height();
    let mut pattern = blank;
    let ghost b = body@;
    let ghost start = walk_body(b, 0, width, height, None, 0, 0, Set::empty());
    let ghost mut live: Set<(int, int)> = Set::empty();
    let mut run: Option<usize> = None;
    let mut x: usize = 0;
    let mut y: usize = 0;
    let mut i: usize = 0;
    while i < body.len()
        invariant
            b == body@,
            b.len() > 0,
            w0 == width,
            h0 == height,
            w0 == blank.spec_width(),
            h0 == blank.spec_height(),
            rle_body_result(b, w0, h0, rule) == (match start {
                Err(kind) => Err(bare(kind)),
                Ok(live) => Ok((w0, h0, rule, live)),
            }),
            start == walk_body(b, 0, width, height, None, 0, 0, Set::empty()),
            i <= b.len(),
            pattern.wf(),
            pattern.spec_width() == width,
            pattern.spec_height() == height,
            pattern.spec_rule() is None,
            forall|cx: int, cy: int|
                0 <= cx < width && 0 <= cy < height ==> #[trigger] pattern.cell(cx, cy) == live.contains((cx, cy)),
            start == walk_body(b, i as int, width, height, run, x, y, live),
        decreases b.len() - i,
    {
        let c = body[i];
        if '0' <= c && c <= '9' {
            let d = (c as u32 - 48) as usize;
            assert(d == digit_value(c));
            let base: usize = match run {
                Some(n) => n,
                None => 0,
            };
            let v = match base.checked_mul(10) {
                Some(t) => t.checked_add(d),
                None => None,
            };
            match v {
                Some(n) => {
                    run = Some(n);
                },
                None => {
                    assert(run_or_zero(run) * 10 + digit_value(c) > usize::MAX);
                    return Err(RleError::bare(RleErrorKind::RunOverflow { position: i }));
                },
            }
        } else {
            let t = lower_char(c);
            if t == 'b' || t == 'o' {
                let count: usize = match run {
                    Some(n) => n,
                    None => 1,
                };
                run = None;
                if count == 0 {
                    return Err(RleError::bare(RleErrorKind::ZeroRun { position: i }));
                }
                if y >= height {
                    return Err(RleError::bare(RleErrorKind::ExceedsHeight { position: i }));
                }
                let end = match x.checked_add(count) {
                    Some(e) => e,
                    None => {
                        return Err(RleError::bare(RleErrorKind::RowRunOverflow { position: i }));
                    },
                };
                if end > width {
                    return Err(
                        RleError::bare(RleErrorKind::BeyondWidth { position: i, end, width }),
                    );
                }
                if t == 'o' {
                    pattern.set_live_run(y, x, end);
                    proof {
                        live = live.union(run_cells(y as int, x as int, end as int));
                    }
                }
                x = end;
            } else if t == '$' {
                let count: usize = match run {
                    Some(n) => n,
                    None => 1,
                };
                run = None;
                if count == 0 {
                    return Err(RleError::bare(RleErrorKind::ZeroRun { position: i }));
                }
                y = match y.checked_add(count) {
                    Some(ny) => ny,
                    None => {
                        return Err(
                            RleError::bare(RleErrorKind::RowCountOverflow { position: i }),
                        );
                    },
                };
                if y >= height {
                    return Err(
                        RleError::bare(RleErrorKind::PastFinalRow { position: i, height }),
                    );
                }
                x = 0;
            } else if t == '!' {
                if run.is_some() {
                    return Err(RleError::bare(RleErrorKind::RunBeforeTerminator { position: i }));
                }
                if i + 1 < body.len() {
                    return Err(RleError::bare(RleErrorKind::TrailingData { position: i + 1 }));
                }
                return Ok(
                    match rule {
                        Some(r) => pattern.with_rule(r),
                        None => pattern,
                    },
                );
            } else {
                return Err(
                    RleError::bare(RleErrorKind::UnexpectedToken { position: i, token: t }),
                );
            }
        }
        i += 1;
    }
    Err(RleError::bare(RleErrorKind::MissingTerminator))
}

/// The name of a header field.
pub open spec fn key_name(key: HeaderKey) -> Seq<char> {
    match key {
        HeaderKey::X => "x"@,
        HeaderKey::Y => "y"@,
        HeaderKey::Rule => "rule"@,
    }
}

/// A message about the body character at `position` (counted from 1 in the text).
pub open spec fn at_body(position: usize, text: Seq<char>) -> Seq<char> {
    "body byte "@ + decimal_seq((position + 1) as nat) + ": "@ + text
}

/// Human-readable text of an RLE error.
pub open spec fn rle_error_text(e: (RleErrorKind, Seq<char>)) -> Seq<char> {
    let detail = e.1;
    match e.0 {
        RleErrorKind::InputTooLarge { bytes } => "encoded input is "@ + decimal_seq(bytes as nat)
            + " bytes; limit is 8388608"@,
        RleErrorKind::MissingHeader => "missing x/y header"@,
        RleErrorKind::InvalidHeaderField => "invalid header field "@ + str_debug_text(detail),
        RleErrorKind::DuplicateField { key } => "duplicate "@ + key_name(key) + " field in header"@,
        RleErrorKind::UnknownHeaderField => "unknown header field "@ + str_debug_text(detail),
        RleErrorKind::NotAnInteger { key } => key_name(key) + " must be a positive integer"@,
        RleErrorKind::ZeroDimension { key } => key_name(key) + " must be at least 1"@,
        RleErrorKind::InvalidRule => detail,
        RleErrorKind::MissingField { key } => "header is missing "@ + key_name(key),
        RleErrorKind::DimensionsOverflow => "declared dimensions overflow address space"@,
        RleErrorKind::TooManyCells { cells } => "declared pattern has "@ + decimal_seq(cells as nat)
            + " cells; limit is 16000000"@,
        RleErrorKind::Pattern { error } => pattern_error_text(error),
        RleErrorKind::MissingBody => "missing pattern body and ! terminator"@,
        RleErrorKind::RunOverflow { position } => at_body(
            position,
            "run length overflows address space"@,
        ),
        RleErrorKind::ZeroRun { position } => at_body(position, "run lengths must be at least 1"@),
        RleErrorKind::ExceedsHeight { position } => at_body(
            position,
            "cell data exceeds declared height"@,
        ),
        RleErrorKind::RowRunOverflow { position } => at_body(
            position,
            "row run overflows address space"@,
        ),
        RleErrorKind::BeyondWidth { position, end, width } => at_body(
            position,
            "row reaches column "@ + decimal_seq(end as nat) + ", beyond declared width "@
                + decimal_seq(width as nat),
        ),
        RleErrorKind::RowCountOverflow { position } => at_body(
            position,
            "row count overflows address space"@,
        ),
        RleErrorKind::PastFinalRow { position, height } => at_body(
            position,
            "body advances past the final row of declared height "@ + decimal_seq(height as nat),
        ),
        RleErrorKind::RunBeforeTerminator { position } => at_body(
            position,
            "a run length cannot prefix !"@,
        ),
        RleErrorKind::TrailingData { position } => at_body(
            position,
            "trailing data after ! terminator"@,
        ),
        RleErrorKind::UnexpectedToken { position, token } => at_body(
            position,
            "unexpected token "@ + char_debug_text(token) + "; expected b, o, $, or !"@,
        ),
        RleErrorKind::MissingTerminator => "missing ! terminator"@,
    }
}

fn push_key_name(out: &mut Vec<char>, key: HeaderKey)
    ensures
        final(out)@ == old(out)@ + key_name(key),
{
    match key {
        HeaderKey::X => push_str(out, "x"),
        HeaderKey::Y => push_str(out, "y"),
        HeaderKey::Rule => push_str(out, "rule"),
    }
}

fn push_at_body(out: &mut Vec<char>, position: usize, text: &str)
    ensures
        final(out)@ == old(out)@ + at_body(position, text@),
{
    push_str(out, "body byte ");
    push_decimal(out, position as u128 + 1);
    push_str(out, ": ");
    push_str(out, text);
}

impl RleError {
    /// The offending header field, the unknown key, or the rule parser's
    /// message; empty for other errors.
    pub fn detail(&self) -> (d: String)
        ensures
            d@ == self@.1,
    {
        self.detail.clone()
    }

    /// Human-readable description of the error.
    pub fn message(&self) -> (s: String)
        ensures
            s@ == rle_error_text(self@),
    {
        let mut out: Vec<char> = Vec::new();
        match self.kind {
            RleErrorKind::InputTooLarge { bytes } => {
                push_str(&mut out, "encoded input is ");
                push_decimal(&mut out, bytes as u128);
                push_str(&mut out, " bytes; limit is 8388608");
            },
            RleErrorKind::MissingHeader => push_str(&mut out, "missing x/y header"),
            RleErrorKind::InvalidHeaderField => {
                push_str(&mut out, "invalid header field ");
                let q = debug_str(self.detail.as_str());
                push_chars(&mut out, str_chars(q.as_str()).as_slice());
            },
            RleErrorKind::DuplicateField { key } => {
                push_str(&mut out, "duplicate ");
                push_key_name(&mut out, key);
                push_str(&mut out, " field in header");
            },
            RleErrorKind::UnknownHeaderField => {
                push_str(&mut out, "unknown header field ");
                let q = debug_str(self.detail.as_str());
                push_chars(&mut out, str_chars(q.as_str()).as_slice());
            },
            RleErrorKind::NotAnInteger { key } => {
                push_key_name(&mut out, key);
                push_str(&mut out, " must be a positive integer");
            },
            RleErrorKind::ZeroDimension { key } => {
                push_key_name(&mut out, key);
                push_str(&mut out, " must be at least 1");
            },
            RleErrorKind::InvalidRule => {
                push_chars(&mut out, str_chars(self.detail.as_str()).as_slice());
            },
            RleErrorKind::MissingField { key } => {
                push_str(&mut out, "header is missing ");
                push_key_name(&mut out, key);
            },
            RleErrorKind::DimensionsOverflow => push_str(
                &mut out,
                "declared dimensions overflow address space",
            ),
            RleErrorKind::TooManyCells { cells } => {
                push_str(&mut out, "declared pattern has ");
                push_decimal(&mut out, cells as u128);
                push_str(&mut out, " cells; limit is 16000000");
            },
            RleErrorKind::Pattern { error } => {
                let m = error.message();
                push_chars(&mut out, str_chars(m.as_str()).as_slice());
            },
            RleErrorKind::MissingBody => push_str(&mut out, "missing pattern body and ! terminator"),
            RleErrorKind::RunOverflow { position } => push_at_body(
                &mut out,
                position,
                "run length overflows address space",
            ),
            RleErrorKind::ZeroRun { position } => push_at_body(
                &mut out,
                position,
                "run lengths must be at least 1",
            ),
            RleErrorKind::ExceedsHeight { position } => push_at_body(
                &mut out,
                position,
                "cell data exceeds declared height",
            ),
            RleErrorKind::RowRunOverflow { position } => push_at_body(
                &mut out,
                position,
                "row run overflows address space",
            ),
            RleErrorKind::BeyondWidth { position, end, width } => {
                let mut text: Vec<char> = Vec::new();
                push_str(&mut text, "row reaches column ");
                push_decimal(&mut text, end as u128);
                push_str(&mut text, ", beyond declared width ");
                push_decimal(&mut text, width as u128);
                push_str(&mut out, "body byte ");
                push_decimal(&mut out, position as u128 + 1);
                push_str(&mut out, ": ");
                push_chars(&mut out, text.as_slice());
            },
            RleErrorKind::RowCountOverflow { position } => push_at_body(
                &mut out,
                position,
                "row count overflows address space",
            ),
            RleErrorKind::PastFinalRow { position, height } => {
                let mut text: Vec<char> = Vec::new();
                push_str(&mut text, "body advances past the final row of declared height ");
                push_decimal(&mut text, height as u128);
                push_str(&mut out, "body byte ");
                push_decimal(&mut out, position as u128 + 1);
                push_str(&mut out, ": ");
                push_chars(&mut out, text.as_slice());
            },
            RleErrorKind::RunBeforeTerminator { position } => push_at_body(
                &mut out,
                position,
                "a run length cannot prefix !",
            ),
            RleErrorKind::TrailingData { position } => push_at_body(
                &mut out,
                position,
                "trailing data after ! terminator",
            ),
            RleErrorKind::UnexpectedToken { position, token } => {
                let mut text: Vec<char> = Vec::new();
                push_str(&mut text, "unexpected token ");
                let q = debug_char(token);
                push_chars(&mut text, str_chars(q.as_str()).as_slice());
                push_str(&mut text, "; expected b, o, $, or !");
                push_str(&mut out, "body byte ");
                push_decimal(&mut out, position as u128 + 1);
                push_str(&mut out, ": ");
                push_chars(&mut out, text.as_slice());
            },
            RleErrorKind::MissingTerminator => push_str(&mut out, "missing ! terminator"),
        }
        string_from_chars(out)
    }

    /// The error as displayed: `invalid RLE: ` and the message.
    pub fn to_string(&self) -> (s: String)
        ensures
            s@ == "invalid RLE: "@ + rle_error_text(self@),
    {
        let mut out: Vec<char> = Vec::new();
        push_str(&mut out, "invalid RLE: ");
        let m = self.message();
        push_chars(&mut out, str_chars(m.as_str()).as_slice());
        string_from_chars(out)
    }
}

/// Live cells of row `y` among columns `0..m`, read from `s`.
pub open spec fn prefix_live(s: Seq<bool>, y: int, m: int) -> Set<(int, int)> {
    Set::new(|c: (int, int)| c.1 == y && 0 <= c.0 < m && s[c.0])
}

/// Decoding the digits `ds` of a run length, standing at `i`, leaves that run
/// length pending.
proof fn lemma_walk_digits(
    body: Seq<char>,
    i: int,
    ds: Seq<char>,
    j: int,
    w: usize,
    h: usize,
    x: usize,
    y: usize,
    live: Set<(int, int)>,
)
    requires
        0 <= i,
        i + ds.len() <= body.len(),
        forall|k: int| 0 <= k < ds.len() ==> #[trigger] body[i + k] == ds[k],
        forall|k: int| 0 <= k < ds.len() ==> is_ascii_digit(#[trigger] ds[k]),
        digits_value(ds) <= usize::MAX,
        0 <= j <= ds.len(),
        ds.len() >= 1,
    ensures
        walk_body(
            body,
            i + j,
            w,
            h,
            if j == 0 {
                None
            } else {
                Some(digits_value(ds.take(j)) as usize)
            },
            x,
            y,
            live,
        ) == walk_body(body, i + ds.len(), w, h, Some(digits_value(ds) as usize), x, y, live),
    decreases ds.len() - j,
{
    if j < ds.len() {
        lemma_digits_value_mono(ds, j + 1);
        lemma_digits_value_mono(ds, j);
        assert(ds.take(j + 1).drop_last() =~= ds.take(j));
        assert(ds.take(j + 1).last() == ds[j]);
        assert(body[i + j] == ds[j]);
        if j == 0 {
            assert(digits_value(ds.take(0)) == 0);
        }
        lemma_walk_digits(body, i, ds, j + 1, w, h, x, y, live);
    } else {
        assert(ds.take(j) =~= ds);
    }
}

/// Decoding one run's text draws the run and moves past it.
proof fn lemma_walk_run(
    body: Seq<char>,
    i: int,
    n: nat,
    alive: bool,
    w: usize,
    h: usize,
    x: usize,
    y: usize,
    live: Set<(int, int)>,
)
    requires
        n >= 1,
        0 <= i,
        i + run_text(n, alive).len() <= body.len(),
        body.subrange(i, i + run_text(n, alive).len()) == run_text(n, alive),
        y < h,
        x + n <= w,
    ensures
        walk_body(body, i, w, h, None, x, y, live) == walk_body(
            body,
            i + run_text(n, alive).len(),
            w,
            h,
            None,
            (x + n) as usize,
            y,
            if alive {
                live.union(run_cells(y as int, x as int, x + n))
            } else {
                live
            },
        ),
{
    let rt = run_text(n, alive);
    let k = rt.len() - 1;
    assert(body[i + k] == rt[k]);
    if n > 1 {
        lemma_decimal_seq(n);
        let ds = decimal_seq(n);
        assert(rt.len() == ds.len() + 1);
        assert forall|q: int| 0 <= q < ds.len() implies #[trigger] body[i + q] == ds[q] by {
            assert(body.subrange(i, i + rt.len())[q] == rt[q]);
        }
        lemma_walk_digits(body, i, ds, 0, w, h, x, y, live);
    }
}

/// Facts on the values at the end of a sequence that form its trailing run.
pub proof fn lemma_trailing_values(s: Seq<bool>)
    requires
        s.len() > 0,
    ensures
        forall|j: int| s.len() - trailing_run(s) <= j < s.len() ==> #[trigger] s[j] == s.last(),
        trailing_run(s) < s.len() ==> s[s.len() - trailing_run(s) - 1] != s.last(),
    decreases s.len(),
{
    lemma_trailing_run_bounds(s);
    if s.len() >= 2 && s[s.len() - 2] == s.last() {
        let t = s.drop_last();
        lemma_trailing_values(t);
        assert forall|j: int| s.len() - trailing_run(s) <= j < s.len() implies #[trigger] s[j] == s.last() by {
            if j < s.len() - 1 {
                assert(t[j] == t.last());
            }
        }
    }
}

/// Decoding the runs of `s.take(m)` from column 0 of row `y` draws its live
/// cells and ends at column `m`.
proof fn lemma_walk_row(
    body: Seq<char>,
    i: int,
    s: Seq<bool>,
    m: int,
    w: usize,
    h: usize,
    y: usize,
    live: Set<(int, int)>,
)
    requires
        0 <= m <= s.len(),
        s.len() <= w,
        y < h,
        0 <= i,
        i + encode_runs(s.take(m)).len() <= body.len(),
        body.subrange(i, i + encode_runs(s.take(m)).len()) == encode_runs(s.take(m)),
    ensures
        walk_body(body, i, w, h, None, 0, y, live) == walk_body(
            body,
            i + encode_runs(s.take(m)).len(),
            w,
            h,
            None,
            m as usize,
            y,
            live.union(prefix_live(s, y as int, m)),
        ),
    decreases m,
{
    if m == 0 {
        assert(live.union(prefix_live(s, y as int, 0)) =~= live);
    } else {
        let t = s.take(m);
        let n = trailing_run(t);
        lemma_trailing_run_bounds(t);
        lemma_trailing_values(t);
        assert(t.take(m - n) =~= s.take(m - n));
        let e0 = encode_runs(s.take(m - n));
        let rt = run_text(n, t.last());
        let e = encode_runs(t);
        assert(e == e0 + rt);
        assert(body.subrange(i, i + e0.len()) =~= e0) by {
            assert forall|q: int| 0 <= q < e0.len() implies body.subrange(i, i + e0.len())[q] == e0[q] by {
                assert(body.subrange(i, i + e.len())[q] == e[q]);
            }
        }
        lemma_walk_row(body, i, s, m - n, w, h, y, live);
        let mid = live.union(prefix_live(s, y as int, m - n));
        assert(body.subrange(i + e0.len(), i + e0.len() + rt.len()) =~= rt) by {
            assert forall|q: int| 0 <= q < rt.len() implies body.subrange(
                i + e0.len(),
                i + e0.len() + rt.len(),
            )[q] == rt[q] by {
                assert(body.subrange(i, i + e.len())[e0.len() + q] == e[e0.len() + q]);
            }
        }
        lemma_walk_run(body, i + e0.len(), n, t.last(), w, h, (m - n) as usize, y, mid);
        let drawn = if t.last() {
            mid.union(run_cells(y as int, m - n, m))
        } else {
            mid
        };
        assert(drawn =~= live.union(prefix_live(s, y as int, m))) by {
            assert forall|c: (int, int)| prefix_live(s, y as int, m).contains(c) && !prefix_live(
                s,
                y as int,
                m - n,
            ).contains(c) implies t.last() && run_cells(y as int, m - n, m).contains(c) by {
                assert(t[c.0] == s[c.0]);
            }
            assert forall|c: (int, int)| t.last() && run_cells(y as int, m - n, m).contains(c) implies prefix_live(
                s,
                y as int,
                m,
            ).contains(c) by {
                assert(t[c.0] == s[c.0]);
            }
        }
    }
}

/// Every live cell of `p`.
pub open spec fn live_set(p: &Pattern) -> Set<(int, int)> {
    Set::new(|c: (int, int)| p.cell(c.0, c.1))
}

/// The live cells of rows `0..n`.
pub open spec fn rows_live(p: &Pattern, n: int) -> Set<(int, int)> {
    Set::new(|c: (int, int)| c.1 < n && p.cell(c.0, c.1))
}

/// The column after the last live cell of row `y` (0 for a dead row).
pub open spec fn row_end(p: &Pattern, y: int) -> usize {
    match last_live_in_row(p, y, p.spec_width() as int) {
        Some(lx) => (lx + 1) as usize,
        None => 0,
    }
}

proof fn lemma_last_live_in_row(p: &Pattern, y: int, n: int)
    ensures
        last_live_in_row(p, y, n) matches Some(lx) ==> 0 <= lx < n && p.cell(lx, y) && forall|c: int|
            lx < c < n ==> !#[trigger] p.cell(c, y),
        last_live_in_row(p, y, n) is None ==> forall|c: int| 0 <= c < n ==> !#[trigger] p.cell(c, y),
    decreases n,
{
    if n > 0 {
        lemma_last_live_in_row(p, y, n - 1);
    }
}

proof fn lemma_last_live_row(p: &Pattern, n: int)
    ensures
        last_live_row(p, n) matches Some(ly) ==> 0 <= ly < n && last_live_in_row(
            p,
            ly,
            p.spec_width() as int,
        ) is Some && forall|r: int| ly < r < n ==> #[trigger] last_live_in_row(p, r, p.spec_width() as int) is None,
        last_live_row(p, n) is None ==> forall|r: int| 0 <= r < n ==> #[trigger] last_live_in_row(
            p,
            r,
            p.spec_width() as int,
        ) is None,
    decreases n,
{
    if n > 0 {
        lemma_last_live_row(p, n - 1);
    }
}

/// Decoding row `y`'s text from column 0 draws exactly row `y`'s live cells.
proof fn lemma_walk_row_text(
    body: Seq<char>,
    i: int,
    p: &Pattern,
    y: usize,
    live: Set<(int, int)>,
)
    requires
        p.wf(),
        y < p.spec_height(),
        0 <= i,
        i + row_text(p, y as int).len() <= body.len(),
        body.subrange(i, i + row_text(p, y as int).len()) == row_text(p, y as int),
    ensures
        walk_body(body, i, p.spec_width(), p.spec_height(), None, 0, y, live) == walk_body(
            body,
            i + row_text(p, y as int).len(),
            p.spec_width(),
            p.spec_height(),
            None,
            row_end(p, y as int),
            y,
            live.union(Set::new(|c: (int, int)| c.1 == y && p.cell(c.0, c.1))),
        ),
{
    broadcast use lemma_cell_in_rect;

    let w = p.spec_width();
    let row = Set::new(|c: (int, int)| c.1 == y && p.cell(c.0, c.1));
    lemma_last_live_in_row(p, y as int, w as int);
    match last_live_in_row(p, y as int, w as int) {
        None => {
            assert(live.union(row) =~= live) by {
                assert forall|c: (int, int)| row.contains(c) implies live.contains(c) by {
                    if 0 <= c.0 < w {
                        assert(!p.cell(c.0, y as int));
                    }
                }
            }
        },
        Some(lx) => {
            let s = row_prefix(p, y as int, lx + 1);
            assert(s.take(lx + 1) =~= s);
            lemma_walk_row(body, i, s, lx + 1, w, p.spec_height(), y, live);
            assert(prefix_live(s, y as int, lx + 1) =~= row) by {
                assert forall|c: (int, int)| row.contains(c) implies prefix_live(s, y as int, lx + 1).contains(c) by {
                    if c.0 > lx && c.0 < w {
                        assert(!p.cell(c.0, y as int));
                    }
                }
            }
        },
    }
}

/// Decoding the text of rows `0..n` draws their live cells and ends on row
/// `n - 1`, after its last live cell.
proof fn lemma_walk_rows(body: Seq<char>, i: int, p: &Pattern, n: int)
    requires
        p.wf(),
        1 <= n <= p.spec_height(),
        0 <= i,
        i + rows_text(p, n).len() <= body.len(),
        body.subrange(i, i + rows_text(p, n).len()) == rows_text(p, n),
    ensures
        walk_body(body, i, p.spec_width(), p.spec_height(), None, 0, 0, Set::empty()) == walk_body(
            body,
            i + rows_text(p, n).len(),
            p.spec_width(),
            p.spec_height(),
            None,
            row_end(p, n - 1),
            (n - 1) as usize,
            rows_live(p, n),
        ),
    decreases n,
{
    broadcast use lemma_cell_in_rect;

    let w = p.spec_width();
    let h = p.spec_height();
    if n == 1 {
        lemma_walk_row_text(body, i, p, 0, Set::empty());
        assert(Set::<(int, int)>::empty().union(Set::new(|c: (int, int)| c.1 == 0 && p.cell(c.0, c.1)))
            =~= rows_live(p, 1)) by {
            assert forall|c: (int, int)| rows_live(p, 1).contains(c) implies c.1 == 0 by {
                if c.1 < 0 {
                    assert(!p.cell(c.0, c.1));
                }
            }
        }
    } else {
        let prev = rows_text(p, n - 1);
        let rt = row_text(p, n - 1);
        let all = rows_text(p, n);
        reveal_strlit("$");
        assert(all == prev + "$"@ + rt);
        assert(body.subrange(i, i + prev.len()) =~= prev) by {
            assert forall|q: int| 0 <= q < prev.len() implies body.subrange(i, i + prev.len())[q] == prev[q] by {
                assert(body.subrange(i, i + all.len())[q] == all[q]);
            }
        }
        lemma_walk_rows(body, i, p, n - 1);
        let j = i + prev.len();
        assert(body[j] == '$') by {
            assert(body.subrange(i, i + all.len())[prev.len() as int] == all[prev.len() as int]);
        }
        assert(body.subrange(j + 1, j + 1 + rt.len()) =~= rt) by {
            assert forall|q: int| 0 <= q < rt.len() implies body.subrange(j + 1, j + 1 + rt.len())[q] == rt[q] by {
                assert(body.subrange(i, i + all.len())[prev.len() + 1 + q] == all[prev.len() + 1 + q]);
            }
        }
        lemma_walk_row_text(body, j + 1, p, (n - 1) as usize, rows_live(p, n - 1));
        assert(rows_live(p, n - 1).union(Set::new(|c: (int, int)| c.1 == (n - 1) as usize && p.cell(c.0, c.1)))
            =~= rows_live(p, n));
    }
}

/// Decoding the whole body of an export gives the pattern's live cells.
proof fn lemma_walk_body_text(p: &Pattern)
    requires
        p.wf(),
    ensures
        walk_body(body_text(p), 0, p.spec_width(), p.spec_height(), None, 0, 0, Set::empty()) == Ok::<
            Set<(int, int)>,
            RleErrorKind,
        >(live_set(p)),
{
    broadcast use lemma_cell_in_rect;

    let w = p.spec_width();
    let h = p.spec_height();
    let b = body_text(p);
    reveal_strlit("!");
    lemma_last_live_row(p, h as int);
    match last_live_row(p, h as int) {
        None => {
            assert(live_set(p) =~= Set::<(int, int)>::empty()) by {
                assert forall|c: (int, int)| live_set(p).contains(c) implies false by {
                    if 0 <= c.0 < w && 0 <= c.1 < h {
                        lemma_last_live_in_row(p, c.1, w as int);
                    }
                }
            }
        },
        Some(ly) => {
            let rt = rows_text(p, ly + 1);
            assert(b == rt + "!"@);
            assert(b.subrange(0, rt.len() as int) =~= rt);
            lemma_walk_rows(b, 0, p, ly + 1);
            assert(b[rt.len() as int] == '!');
            assert(rows_live(p, ly + 1) =~= live_set(p)) by {
                assert forall|c: (int, int)| live_set(p).contains(c) implies c.1 < ly + 1 by {
                    if c.1 > ly {
                        if 0 <= c.0 < w && 0 <= c.1 < h {
                            assert(last_live_in_row(p, c.1, w as int) is None);
                            lemma_last_live_in_row(p, c.1, w as int);
                        }
                    }
                }
            }
        },
    }
}

/// Characters that the exporter writes in an RLE body.
pub open spec fn is_body_char(c: char) -> bool {
    is_ascii_digit(c) || c == 'o' || c == 'b' || c == '$' || c == '!'
}

/// Every character is a body character.
pub open spec fn all_body_chars(s: Seq<char>) -> bool {
    forall|i: int| 0 <= i < s.len() ==> is_body_char(#[trigger] s[i])
}

pub proof fn lemma_body_chars_concat(a: Seq<char>, b: Seq<char>)
    requires
        all_body_chars(a),
        all_body_chars(b),
    ensures
        all_body_chars(a + b),
{
    assert forall|i: int| 0 <= i < (a + b).len() implies is_body_char(#[trigger] (a + b)[i]) by {
        if i < a.len() {
            assert((a + b)[i] == a[i]);
        } else {
            assert((a + b)[i] == b[i - a.len()]);
        }
    }
}

pub proof fn lemma_run_text_chars(n: nat, alive: bool)
    ensures
        all_body_chars(run_text(n, alive)),
{
    lemma_decimal_seq(n);
    let d = if n > 1 {
        decimal_seq(n)
    } else {
        Seq::empty()
    };
    assert forall|i: int| 0 <= i < run_text(n, alive).len() implies is_body_char(#[trigger] run_text(n, alive)[i]) by {
        if i < d.len() {
            assert(run_text(n, alive)[i] == d[i]);
        }
    }
}

pub proof fn lemma_encode_runs_chars(s: Seq<bool>)
    ensures
        all_body_chars(encode_runs(s)),
    decreases s.len(),
{
    if s.len() > 0 {
        lemma_trailing_run_bounds(s);
        let n = trailing_run(s);
        lemma_encode_runs_chars(s.take(s.len() - n));
        lemma_run_text_chars(n, s.last());
        lemma_body_chars_concat(encode_runs(s.take(s.len() - n)), run_text(n, s.last()));
    }
}

proof fn lemma_rows_text_chars(p: &Pattern, n: int)
    ensures
        all_body_chars(rows_text(p, n)),
    decreases n,
{
    reveal_strlit("$");
    if n <= 1 {
        if let Some(lx) = last_live_in_row(p, 0, p.spec_width() as int) {
            lemma_encode_runs_chars(row_prefix(p, 0, lx + 1));
        }
    } else {
        lemma_rows_text_chars(p, n - 1);
        if let Some(lx) = last_live_in_row(p, n - 1, p.spec_width() as int) {
            lemma_encode_runs_chars(row_prefix(p, n - 1, lx + 1));
        }
        lemma_body_chars_concat(rows_text(p, n - 1), "$"@);
        lemma_body_chars_concat(rows_text(p, n - 1) + "$"@, row_text(p, n - 1));
    }
}

proof fn lemma_body_text_chars(p: &Pattern)
    ensures
        all_body_chars(body_text(p)),
        body_text(p).len() >= 1,
{
    reveal_strlit("!");
    if let Some(ly) = last_live_row(p, p.spec_height() as int) {
        lemma_rows_text_chars(p, ly + 1);
        lemma_body_chars_concat(rows_text(p, ly + 1), "!"@);
    }
}

/// `s` cut into pieces of 70 characters (the last may be shorter).
pub open spec fn chunks70(s: Seq<char>) -> Seq<Seq<char>>
    decreases s.len(),
{
    if s.len() == 0 {
        Seq::empty()
    } else if s.len() <= 70 {
        seq![s]
    } else {
        seq![s.take(70)] + chunks70(s.skip(70))
    }
}

pub proof fn lemma_lines_of_wrap(s: Seq<char>)
    requires
        all_body_chars(s),
    ensures
        lines_of(wrap_lines(s)) == chunks70(s),
    decreases s.len(),
{
    if s.len() == 0 {
    } else if s.len() <= 70 {
        lemma_lines_of_line(s, Seq::empty());
        assert(s.push('\n') =~= s + seq!['\n'] + Seq::<char>::empty());
        assert(is_body_char(s.last()));
    } else {
        let a = s.take(70);
        assert forall|i: int| 0 <= i < a.len() implies #[trigger] a[i] != '\n' by {
            assert(is_body_char(s[i]));
        }
        assert(is_body_char(s[69]));
        let r = s.skip(70);
        assert forall|i: int| 0 <= i < r.len() implies is_body_char(#[trigger] r[i]) by {
            assert(r[i] == s[i + 70]);
        }
        lemma_lines_of_wrap(r);
        lemma_lines_of_line(a, wrap_lines(r));
        assert(a.push('\n') + wrap_lines(r) =~= a + seq!['\n'] + wrap_lines(r));
    }
}

proof fn lemma_rle_body_concat(a: Seq<Seq<char>>, b: Seq<Seq<char>>)
    ensures
        rle_body(a + b) == rle_body(a) + rle_body(b),
    decreases b.len(),
{
    if b.len() == 0 {
        assert(a + b =~= a);
    } else {
        lemma_rle_body_concat(a, b.drop_last());
        assert((a + b).drop_last() =~= a + b.drop_last());
        assert((a + b).last() == b.last());
    }
}

proof fn lemma_drop_ws_plain(s: Seq<char>)
    requires
        forall|i: int| 0 <= i < s.len() ==> !is_ws(#[trigger] s[i]),
    ensures
        drop_ws(s) == s,
    decreases s.len(),
{
    if s.len() > 0 {
        lemma_drop_ws_plain(s.drop_last());
        s.drop_last().lemma_filter_push(s.last(), |c: char| !is_ws(c));
        assert(s.drop_last().push(s.last()) =~= s);
    }
}

/// A body chunk is a body line: not blank, not a comment, nothing to strip.
proof fn lemma_chunk_line(c: Seq<char>)
    requires
        c.len() >= 1,
        all_body_chars(c),
    ensures
        !is_skippable(c),
        drop_ws(trim_seq(c)) == c,
{
    assert(is_body_char(c[0]));
    assert(is_body_char(c.last()));
    lemma_trim_plain(c);
    assert forall|i: int| 0 <= i < c.len() implies !is_ws(#[trigger] c[i]) by {
        assert(is_body_char(c[i]));
    }
    lemma_drop_ws_plain(c);
}

proof fn lemma_rle_body_single(c: Seq<char>)
    requires
        c.len() >= 1,
        all_body_chars(c),
    ensures
        rle_body(seq![c]) == c,
{
    lemma_chunk_line(c);
    assert(seq![c].drop_last() =~= Seq::<Seq<char>>::empty());
    assert(seq![c].last() == c);
    assert(rle_body(Seq::<Seq<char>>::empty()) == Seq::<char>::empty());
    assert(Seq::<char>::empty() + c =~= c);
}

#[verifier::spinoff_prover]
#[verifier::rlimit(40)]
proof fn lemma_rle_body_chunks(s: Seq<char>)
    requires
        all_body_chars(s),
    ensures
        rle_body(chunks70(s)) == s,
    decreases s.len(),
{
    if s.len() == 0 {
    } else if s.len() <= 70 {
        lemma_rle_body_single(s);
    } else {
        let a = s.take(70);
        let r = s.skip(70);
        assert(all_body_chars(a)) by {
            assert forall|i: int| 0 <= i < a.len() implies is_body_char(#[trigger] a[i]) by {
                assert(a[i] == s[i]);
            }
        }
        assert(all_body_chars(r)) by {
            assert forall|i: int| 0 <= i < r.len() implies is_body_char(#[trigger] r[i]) by {
                assert(r[i] == s[i + 70]);
            }
        }
        lemma_rle_body_single(a);
        lemma_rle_body_chunks(r);
        let cr = chunks70(r);
        lemma_rle_body_concat(seq![a], cr);
        assert(chunks70(s) == seq![a] + cr);
        assert(rle_body(seq![a] + cr) == a + r);
        assert(a + r =~= s);
    }
}

/// One header field `key = v` (after optional leading blanks): where its `=`
/// is, and what the parser reads as its key and value.
proof fn lemma_header_field(lead: Seq<char>, key: Seq<char>, v: Seq<char>)
    requires
        forall|i: int| 0 <= i < lead.len() ==> #[trigger] lead[i] == ' ',
        key.len() >= 1,
        forall|i: int|
            0 <= i < key.len() ==> #[trigger] key[i] != '=' && !is_ws(key[i]) && ascii_lower(key[i])
                == key[i],
        v.len() >= 1,
        !is_ws(v[0]),
        !is_ws(v.last()),
    ensures
        ({
            let f = lead + key + seq![' ', '=', ' '] + v;
            let k = lead.len() + key.len() + 1int;
            &&& find_first(f, '=') == Some(k as nat)
            &&& lower_seq(trim_seq(f.take(k))) == key
            &&& trim_seq(f.skip(k + 1)) == v
        }),
{
    let f = lead + key + seq![' ', '=', ' '] + v;
    let k = lead.len() + key.len() + 1int;
    assert forall|j: int| 0 <= j < k implies f[j] != '=' by {
        if j < lead.len() {
            assert(f[j] == lead[j]);
        } else if j < lead.len() + key.len() {
            assert(f[j] == key[j - lead.len()]);
        }
    }
    lemma_find_first(f, '=', k);
    let kf = key + seq![' '];
    assert(f.take(k) =~= lead + kf);
    assert forall|i: int| 0 <= i < lead.len() implies is_ws(#[trigger] lead[i]) by {}
    lemma_trim_skip_lead(lead, kf);
    lemma_trim_skip_trail(key, seq![' ']);
    assert(!is_ws(key.last()));
    assert(trim_end_seq(key) == key);
    assert(lower_seq(key) =~= key);
    assert(f.skip(k + 1) =~= seq![' '] + v);
    lemma_trim_skip_lead(seq![' '], v);
    lemma_trim_plain(v);
}

/// A dimension field `key = n` of the export's header.
proof fn lemma_dimension_field(
    lead: Seq<char>,
    key: HeaderKey,
    n: usize,
    rest: Seq<Seq<char>>,
    w: Option<usize>,
    h: Option<usize>,
    rule: Option<Rule>,
)
    requires
        forall|i: int| 0 <= i < lead.len() ==> #[trigger] lead[i] == ' ',
        n >= 1,
        key is X ==> w is None,
        key is Y ==> h is None,
        !(key is Rule),
    ensures
        header_fields(
            seq![lead + key_name(key) + seq![' ', '=', ' '] + decimal_seq(n as nat)] + rest,
            w,
            h,
            rule,
        ) == (if key is X {
            header_fields(rest, Some(n), h, rule)
        } else {
            header_fields(rest, w, Some(n), rule)
        }),
{
    reveal_strlit("x");
    reveal_strlit("y");
    let d = decimal_seq(n as nat);
    lemma_decimal_seq(n as nat);
    lemma_parse_decimal(n);
    lemma_header_field(lead, key_name(key), d);
    let f = lead + key_name(key) + seq![' ', '=', ' '] + d;
    let fields = seq![f] + rest;
    assert(fields.drop_first() =~= rest);
    assert(fields[0] == f);
    let k = lead.len() + key_name(key).len() + 1int;
    assert(trim_seq(f.skip(k + 1)) == d);
    assert(spec_parse_dimension(d, key) == Ok::<usize, (RleErrorKind, Seq<char>)>(n));
    if key is X {
        assert(lower_seq(trim_seq(f.take(k))) == "x"@);
    } else {
        assert(lower_seq(trim_seq(f.take(k))) == "y"@);
        assert("y"@ != "x"@) by {
            assert("y"@[0] != "x"@[0]);
        }
    }
}

/// The `rule` field of the export's header.
proof fn lemma_rule_field(r: Rule, rest: Seq<Seq<char>>, w: Option<usize>, h: Option<usize>)
    requires
        spec_parse_rule(spec_rule_bs(r)) == Some(r),
    ensures
        header_fields(
            seq![seq![' '] + "rule"@ + seq![' ', '=', ' '] + spec_rule_bs(r)] + rest,
            w,
            h,
            None,
        ) == header_fields(rest, w, h, Some(r)),
{
    reveal_strlit("x");
    reveal_strlit("y");
    reveal_strlit("rule");
    reveal_strlit("B");
    reveal_strlit("/S");
    let bs = spec_rule_bs(r);
    let mb = mask_digits(r.birth);
    let ms = mask_digits(r.survive);
    lemma_mask_digits_are_digits(r.survive, 9);
    assert(bs =~= seq!['B'] + mb + seq!['/', 'S'] + ms);
    if ms.len() > 0 {
        assert(bs.last() == ms.last());
    } else {
        assert(bs.last() == 'S');
    }
    lemma_header_field(seq![' '], "rule"@, bs);
    let fields = seq![seq![' '] + "rule"@ + seq![' ', '=', ' '] + bs] + rest;
    assert(fields.drop_first() =~= rest);
}

/// The rule's `B…/S…` text holds no comma.
proof fn lemma_rule_text_no_comma(r: Rule)
    ensures
        forall|i: int| 0 <= i < spec_rule_bs(r).len() ==> #[trigger] spec_rule_bs(r)[i] != ',',
{
    reveal_strlit("B");
    reveal_strlit("/S");
    let bs = spec_rule_bs(r);
    let mb = mask_digits(r.birth);
    let ms = mask_digits(r.survive);
    lemma_mask_digits_are_digits(r.birth, 9);
    lemma_mask_digits_are_digits(r.survive, 9);
    assert(bs =~= seq!['B'] + mb + seq!['/', 'S'] + ms);
    assert forall|j: int| 0 <= j < bs.len() implies #[trigger] bs[j] != ',' by {
        if 1 <= j < 1 + mb.len() {
            assert(bs[j] == mb[j - 1]);
        } else if j >= 3 + mb.len() {
            assert(bs[j] == ms[j - 3 - mb.len()]);
        }
    }
}

/// The export's header line reads back as the pattern's size and rule.
proof fn lemma_header_parse(p: &Pattern)
    requires
        p.wf(),
        p.spec_rule() matches Some(r) ==> spec_parse_rule(spec_rule_bs(r)) == Some(r),
    ensures
        spec_parse_header(header_text(p)) == Ok::<
            (usize, usize, Option<Rule>),
            (RleErrorKind, Seq<char>),
        >((p.spec_width(), p.spec_height(), p.spec_rule())),
{
    let w = p.spec_width();
    let h = p.spec_height();
    lemma_wf_dims(p);
    reveal_strlit("x = ");
    reveal_strlit(", y = ");
    reveal_strlit(", rule = ");
    reveal_strlit("x");
    reveal_strlit("y");
    reveal_strlit("rule");
    let dw = decimal_seq(w as nat);
    let dh = decimal_seq(h as nat);
    lemma_decimal_seq(w as nat);
    lemma_decimal_seq(h as nat);
    let eqs = seq![' ', '=', ' '];
    let f1 = Seq::<char>::empty() + key_name(HeaderKey::X) + eqs + dw;
    let f2 = seq![' '] + key_name(HeaderKey::Y) + eqs + dh;
    assert forall|i: int| 0 <= i < f1.len() implies #[trigger] f1[i] != ',' by {
        if i >= 4 {
            assert(f1[i] == dw[i - 4]);
        }
    }
    assert forall|i: int| 0 <= i < f2.len() implies #[trigger] f2[i] != ',' by {
        if i >= 5 {
            assert(f2[i] == dh[i - 5]);
        }
    }
    match p.spec_rule() {
        None => {
            assert(header_text(p) =~= f1 + seq![','] + f2);
            lemma_split_on_piece(f1, f2, ',');
            lemma_split_on_whole(f2, ',');
            assert(split_on(header_text(p), ',') =~= seq![f1] + seq![f2]);
            lemma_dimension_field(Seq::empty(), HeaderKey::X, w, seq![f2], None, None, None);
            assert(seq![f2] =~= seq![f2] + Seq::<Seq<char>>::empty());
            lemma_dimension_field(seq![' '], HeaderKey::Y, h, Seq::empty(), Some(w), None, None);
        },
        Some(r) => {
            let f3 = seq![' '] + "rule"@ + eqs + spec_rule_bs(r);
            lemma_rule_text_no_comma(r);
            assert forall|i: int| 0 <= i < f3.len() implies #[trigger] f3[i] != ',' by {
                if i >= 8 {
                    assert(f3[i] == spec_rule_bs(r)[i - 8]);
                }
            }
            assert(header_text(p) =~= f1 + seq![','] + (f2 + seq![','] + f3));
            lemma_split_on_piece(f1, f2 + seq![','] + f3, ',');
            lemma_split_on_piece(f2, f3, ',');
            lemma_split_on_whole(f3, ',');
            assert(split_on(header_text(p), ',') =~= seq![f1] + seq![f2, f3]);
            lemma_dimension_field(Seq::empty(), HeaderKey::X, w, seq![f2, f3], None, None, None);
            assert(seq![f2, f3] =~= seq![f2] + seq![f3]);
            lemma_dimension_field(seq![' '], HeaderKey::Y, h, seq![f3], Some(w), None, None);
            assert(seq![f3] =~= seq![f3] + Seq::<Seq<char>>::empty());
            lemma_rule_field(r, Seq::empty(), Some(w), Some(h));
        },
    }
}

/// No line break in `s`.
pub open spec fn one_line(s: Seq<char>) -> bool {
    forall|i: int| 0 <= i < s.len() ==> #[trigger] s[i] != '\n' && s[i] != '\r'
}

proof fn lemma_one_line_concat(a: Seq<char>, b: Seq<char>)
    requires
        one_line(a),
        one_line(b),
    ensures
        one_line(a + b),
{
    assert forall|i: int| 0 <= i < (a + b).len() implies #[trigger] (a + b)[i] != '\n' && (a + b)[i] != '\r' by {
        if i < a.len() {
            assert((a + b)[i] == a[i]);
        } else {
            assert((a + b)[i] == b[i - a.len()]);
        }
    }
}

proof fn lemma_digits_one_line(d: Seq<char>)
    requires
        forall|i: int| 0 <= i < d.len() ==> is_ascii_digit(#[trigger] d[i]),
    ensures
        one_line(d),
{
    assert forall|i: int| 0 <= i < d.len() implies #[trigger] d[i] != '\n' && d[i] != '\r' by {
        assert(is_ascii_digit(d[i]));
    }
}

/// The export's header line is one non-blank line that is not a comment.
proof fn lemma_header_line(p: &Pattern)
    ensures
        one_line(header_text(p)),
        strip_cr(header_text(p)) == header_text(p),
        trim_seq(header_text(p)) == header_text(p),
        !is_skippable(header_text(p)),
{
    reveal_strlit("x = ");
    reveal_strlit(", y = ");
    reveal_strlit(", rule = ");
    let l1 = "x = "@;
    let l2 = ", y = "@;
    let l3 = ", rule = "@;
    let dw = decimal_seq(p.spec_width() as nat);
    let dh = decimal_seq(p.spec_height() as nat);
    lemma_decimal_seq(p.spec_width() as nat);
    lemma_decimal_seq(p.spec_height() as nat);
    lemma_digits_one_line(dw);
    lemma_digits_one_line(dh);
    assert(one_line(l1)) by {
        assert forall|i: int| 0 <= i < l1.len() implies #[trigger] l1[i] != '\n' && l1[i] != '\r' by {
            assert(i == 0 || i == 1 || i == 2 || i == 3);
        }
    }
    assert(one_line(l2)) by {
        assert forall|i: int| 0 <= i < l2.len() implies #[trigger] l2[i] != '\n' && l2[i] != '\r' by {
            assert(i == 0 || i == 1 || i == 2 || i == 3 || i == 4 || i == 5);
        }
    }
    lemma_one_line_concat(l1, dw);
    lemma_one_line_concat(l1 + dw, l2);
    lemma_one_line_concat(l1 + dw + l2, dh);
    let base = l1 + dw + l2 + dh;
    assert(base.last() == dh.last());
    assert(is_ascii_digit(dh.last()));
    match p.spec_rule() {
        None => {
            assert(header_text(p) =~= base);
        },
        Some(r) => {
            reveal_strlit("B");
            reveal_strlit("/S");
            let mb = mask_digits(r.birth);
            let ms = mask_digits(r.survive);
            lemma_mask_digits_are_digits(r.birth, 9);
            lemma_mask_digits_are_digits(r.survive, 9);
            let bs = spec_rule_bs(r);
            assert(bs =~= seq!['B'] + mb + seq!['/', 'S'] + ms);
            lemma_digits_one_line(mb);
            lemma_digits_one_line(ms);
            assert(one_line(l3)) by {
                assert forall|i: int| 0 <= i < l3.len() implies #[trigger] l3[i] != '\n' && l3[i]
                    != '\r' by {
                    assert(i == 0 || i == 1 || i == 2 || i == 3 || i == 4 || i == 5 || i == 6 || i
                        == 7 || i == 8);
                }
            }
            let sb = seq!['B'];
            let ss = seq!['/', 'S'];
            assert(one_line(sb)) by {
                assert forall|i: int| 0 <= i < sb.len() implies #[trigger] sb[i] != '\n' && sb[i] != '\r' by {
                    assert(i == 0);
                }
            }
            assert(one_line(ss)) by {
                assert forall|i: int| 0 <= i < ss.len() implies #[trigger] ss[i] != '\n' && ss[i] != '\r' by {
                    assert(i == 0 || i == 1);
                }
            }
            lemma_one_line_concat(seq!['B'], mb);
            lemma_one_line_concat(seq!['B'] + mb, seq!['/', 'S']);
            lemma_one_line_concat(seq!['B'] + mb + seq!['/', 'S'], ms);
            lemma_one_line_concat(base, l3);
            lemma_one_line_concat(base + l3, bs);
            assert(header_text(p) =~= base + l3 + bs);
            if ms.len() > 0 {
                assert(bs.last() == ms.last());
                assert(is_ascii_digit(ms.last()));
            } else {
                assert(bs.last() == 'S');
            }
        },
    }
    let t = header_text(p);
    assert(t[0] == 'x');
    lemma_trim_plain(t);
}

/// Round trip: parsing the RLE export of a pattern gives back its width,
/// height, rule and live cells. This holds for every pattern within the
/// parser's limits (cell count and input size) whose rule, if any, uses only
/// neighbour counts 0..=8. The input size is counted in characters, which for
/// the export's ASCII text are its bytes.
pub proof fn law_rle_round_trip(p: &Pattern)
    requires
        p.wf(),
        p.spec_width() * p.spec_height() <= MAX_RLE_CELLS,
        spec_export_rle(p).len() <= MAX_RLE_INPUT_BYTES,
        p.spec_rule() matches Some(r) ==> r.birth < 512 && r.survive < 512,
    ensures
        spec_parse_rle(spec_export_rle(p), spec_export_rle(p).len()) == Ok::<
            (usize, usize, Option<Rule>, Set<(int, int)>),
            (RleErrorKind, Seq<char>),
        >((p.spec_width(), p.spec_height(), p.spec_rule(), live_set(p))),
{
    if let Some(r) = p.spec_rule() {
        law_rule_text_round_trip(r);
    }
    let text = spec_export_rle(p);
    let head = header_text(p);
    let b = body_text(p);
    reveal_strlit("\n");
    assert(text =~= head + seq!['\n'] + wrap_lines(b));
    lemma_header_line(p);
    lemma_body_text_chars(p);
    lemma_lines_of_line(head, wrap_lines(b));
    lemma_lines_of_wrap(b);
    let lines = lines_of(text);
    assert(lines == seq![head] + chunks70(b));
    assert(lines[0] == head);
    assert(header_index(lines, 0) == Some(0int));
    lemma_header_parse(p);
    assert(lines.subrange(1, lines.len() as int) =~= chunks70(b));
    lemma_rle_body_chunks(b);
    lemma_walk_body_text(p);
}

} // verus!
