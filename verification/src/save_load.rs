//! Saving then loading a grid: the RLE text that `to_rle` writes, read back by
//! `load_rle_into`, draws the same live cells.

use vstd::prelude::*;
use crate::grid::{has_live, is_live_bounds, lemma_live_bounds_unique, Grid};
use crate::patterns::{
    bbox_rows_text, decode_walk, decoded_live, dim_value, extend_last, grid_row, header_dim,
    is_drawn_clear, is_rle_header_line, last_true, max_row_len, rle_load_outcome, rle_scan,
    scan_parts, spec_decode_rle, spec_looks_like_plain, spec_to_rle, tag_run, trim_rows,
    trimmed_runs,
};
use crate::rle::{
    all_body_chars, chunks70, encode_runs, is_body_char, lemma_body_chars_concat,
    lemma_encode_runs_chars, lemma_lines_of_wrap, lemma_trailing_run_bounds, lemma_trailing_values,
    run_text, trailing_run, wrap_lines,
};
use crate::text::{
    decimal_seq, digits_value, is_ascii_digit, is_ws, lemma_decimal_seq,
    lemma_digits_value_mono, lemma_find_first, lemma_lines_of_line, lemma_parse_decimal,
    lemma_split_on_piece, lemma_split_on_whole, lemma_trim_plain, lemma_trim_skip_lead,
    lemma_ws_index_at, lines_of, split_on, strip_cr, trim_end_seq,
    trim_seq, trim_start_seq, words,
};

verus! {

/// Row `y` of the bounding box `b` without its trailing dead cells.
pub open spec fn box_row(g: &Grid, b: (usize, usize, usize, usize), y: int) -> Seq<bool> {
    let row = grid_row(g, b.0 as int, b.1 + y, b.2 - b.0 + 1);
    match last_true(row) {
        None => Seq::empty(),
        Some(k) => row.take(k + 1),
    }
}

/// Reading the digits `ds` of a run count, from `i`, leaves that count pending.
proof fn lemma_walk_digits(
    body: Seq<char>,
    i: int,
    ds: Seq<char>,
    j: int,
    rows: Seq<Seq<bool>>,
)
    requires
        0 <= i,
        i + ds.len() <= body.len(),
        forall|k: int| 0 <= k < ds.len() ==> #[trigger] body[i + k] == ds[k],
        forall|k: int| 0 <= k < ds.len() ==> is_ascii_digit(#[trigger] ds[k]),
        digits_value(ds) <= usize::MAX,
        0 <= j <= ds.len(),
        ds.len() >= 1,
    ensures
        decode_walk(body, i + j, rows, digits_value(ds.take(j)) as usize, j > 0) == decode_walk(
            body,
            i + ds.len(),
            rows,
            digits_value(ds) as usize,
            true,
        ),
    decreases ds.len() - j,
{
    if j < ds.len() {
        lemma_digits_value_mono(ds, j + 1);
        lemma_digits_value_mono(ds, j);
        assert(ds.take(j + 1).drop_last() =~= ds.take(j));
        assert(ds.take(j + 1).last() == ds[j]);
        assert(body[i + j] == ds[j]);
        if j == 0 {
            assert(digits_value(ds.take(0)) == 0);
        }
        lemma_walk_digits(body, i, ds, j + 1, rows);
    } else {
        assert(ds.take(j) =~= ds);
    }
}

/// Reading one run's text extends the last row by the run.
proof fn lemma_walk_run(body: Seq<char>, i: int, n: nat, alive: bool, rows: Seq<Seq<bool>>)
    requires
        n >= 1,
        n <= usize::MAX,
        0 <= i,
        rows.len() >= 1,
        i + run_text(n, alive).len() <= body.len(),
        body.subrange(i, i + run_text(n, alive).len()) == run_text(n, alive),
    ensures
        decode_walk(body, i, rows, 0, false) == decode_walk(
            body,
            i + run_text(n, alive).len(),
            extend_last(rows, n, alive),
            0,
            false,
        ),
{
    let rt = run_text(n, alive);
    let k = rt.len() - 1;
    assert(body[i + k] == rt[k]);
    if n > 1 {
        lemma_decimal_seq(n);
        let ds = decimal_seq(n);
        assert(rt.len() == ds.len() + 1);
        assert forall|q: int| 0 <= q < ds.len() implies #[trigger] body[i + q] == ds[q] by {
            assert(body.subrange(i, i + rt.len())[q] == rt[q]);
        }
        lemma_walk_digits(body, i, ds, 0, rows);
        assert(ds.take(0) =~= Seq::<char>::empty());
        assert(tag_run(n as usize, true) == n);
    } else {
        assert(tag_run(0, false) == 1);
    }
}

/// Reading the runs of `s` extends the last row by `s`.
proof fn lemma_walk_runs(body: Seq<char>, i: int, s: Seq<bool>, m: int, rows: Seq<Seq<bool>>)
    requires
        0 <= m <= s.len(),
        s.len() <= usize::MAX,
        0 <= i,
        rows.len() >= 1,
        i + encode_runs(s.take(m)).len() <= body.len(),
        body.subrange(i, i + encode_runs(s.take(m)).len()) == encode_runs(s.take(m)),
    ensures
        decode_walk(body, i, rows, 0, false) == decode_walk(
            body,
            i + encode_runs(s.take(m)).len(),
            rows.update(rows.len() - 1, rows.last() + s.take(m)),
            0,
            false,
        ),
    decreases m,
{
    if m == 0 {
        assert(rows.update(rows.len() - 1, rows.last() + s.take(0)) =~= rows);
    } else {
        let t = s.take(m);
        let n = trailing_run(t);
        lemma_trailing_run_bounds(t);
        lemma_trailing_values(t);
        assert(t.take(m - n) =~= s.take(m - n));
        let e0 = encode_runs(s.take(m - n));
        let rt = run_text(n, t.last());
        let e = encode_runs(t);
        assert(e == e0 + rt);
        assert(body.subrange(i, i + e0.len()) =~= e0) by {
            assert forall|q: int| 0 <= q < e0.len() implies body.subrange(i, i + e0.len())[q]
                == e0[q] by {
                assert(body.subrange(i, i + e.len())[q] == e[q]);
            }
        }
        lemma_walk_runs(body, i, s, m - n, rows);
        let mid = rows.update(rows.len() - 1, rows.last() + s.take(m - n));
        assert(body.subrange(i + e0.len(), i + e0.len() + rt.len()) =~= rt) by {
            assert forall|q: int| 0 <= q < rt.len() implies body.subrange(
                i + e0.len(),
                i + e0.len() + rt.len(),
            )[q] == rt[q] by {
                assert(body.subrange(i, i + e.len())[e0.len() + q] == e[e0.len() + q]);
            }
        }
        lemma_walk_run(body, i + e0.len(), n, t.last(), mid);
        assert(extend_last(mid, n, t.last()) =~= rows.update(rows.len() - 1, rows.last() + s.take(m)))
            by {
            assert(mid.last() + Seq::new(n, |q: int| t.last()) =~= rows.last() + s.take(m)) by {
                assert forall|q: int| 0 <= q < n implies #[trigger] s.take(m)[m - n + q] == t.last() by {
                    assert(t[m - n + q] == t.last());
                }
            }
        }
    }
}

/// Rows `0..n` of the bounding box, each without its trailing dead cells.
pub open spec fn box_rows(g: &Grid, b: (usize, usize, usize, usize), n: int) -> Seq<Seq<bool>> {
    Seq::new(n as nat, |y: int| box_row(g, b, y))
}

proof fn lemma_trimmed_runs(g: &Grid, b: (usize, usize, usize, usize), y: int)
    ensures
        trimmed_runs(grid_row(g, b.0 as int, b.1 + y, b.2 - b.0 + 1)) == encode_runs(box_row(g, b, y)),
{
    let row = grid_row(g, b.0 as int, b.1 + y, b.2 - b.0 + 1);
    if last_true(row) is None {
        assert(encode_runs(Seq::<bool>::empty()) == Seq::<char>::empty());
    }
}

/// Reading the text of rows `0..n` of the bounding box gives those rows.
proof fn lemma_walk_rows(body: Seq<char>, g: &Grid, b: (usize, usize, usize, usize), n: int)
    requires
        1 <= n,
        b.0 <= b.2,
        b.2 - b.0 + 1 <= usize::MAX,
        bbox_rows_text(g, b, n).len() <= body.len(),
        body.subrange(0, bbox_rows_text(g, b, n).len() as int) == bbox_rows_text(g, b, n),
    ensures
        decode_walk(body, 0, seq![Seq::<bool>::empty()], 0, false) == decode_walk(
            body,
            bbox_rows_text(g, b, n).len() as int,
            box_rows(g, b, n),
            0,
            false,
        ),
    decreases n,
{
    let w = b.2 - b.0 + 1;
    let s = box_row(g, b, n - 1);
    let row = grid_row(g, b.0 as int, b.1 + n - 1, w);
    lemma_trimmed_runs(g, b, n - 1);
    assert(s.len() <= w) by {
        lemma_last_true(row);
    }
    assert(s.take(s.len() as int) =~= s);
    if n == 1 {
        let e = encode_runs(s);
        assert(bbox_rows_text(g, b, 1) == e);
        lemma_walk_runs(body, 0, s, s.len() as int, seq![Seq::<bool>::empty()]);
        assert(seq![Seq::<bool>::empty()].update(0, Seq::<bool>::empty() + s) =~= box_rows(g, b, 1));
    } else {
        reveal_strlit("$");
        let t0 = bbox_rows_text(g, b, n - 1);
        let e = encode_runs(s);
        let t = bbox_rows_text(g, b, n);
        assert(t == t0 + "$"@ + e);
        assert(body.subrange(0, t0.len() as int) =~= t0) by {
            assert forall|q: int| 0 <= q < t0.len() implies body.subrange(0, t0.len() as int)[q]
                == t0[q] by {
                assert(body.subrange(0, t.len() as int)[q] == t[q]);
            }
        }
        lemma_walk_rows(body, g, b, n - 1);
        let r0 = box_rows(g, b, n - 1);
        let i = t0.len() as int;
        assert(body[i] == '$') by {
            assert(body.subrange(0, t.len() as int)[i] == t[i]);
        }
        assert(tag_run(0, false) == 1);
        let r1 = r0 + Seq::new(1, |k: int| Seq::<bool>::empty());
        assert(decode_walk(body, i, r0, 0, false) == decode_walk(body, i + 1, r1, 0, false));
        assert(body.subrange(i + 1, i + 1 + e.len()) =~= e) by {
            assert forall|q: int| 0 <= q < e.len() implies body.subrange(i + 1, i + 1 + e.len())[q]
                == e[q] by {
                assert(body.subrange(0, t.len() as int)[i + 1 + q] == t[i + 1 + q]);
            }
        }
        lemma_walk_runs(body, i + 1, s, s.len() as int, r1);
        assert(r1.update(r1.len() - 1, r1.last() + s) =~= box_rows(g, b, n));
    }
}

/// Where the last `true` is, and that nothing after it is `true`.
proof fn lemma_last_true(t: Seq<bool>)
    ensures
        last_true(t) matches Some(k) ==> 0 <= k < t.len() && t[k] && forall|j: int|
            k < j < t.len() ==> !#[trigger] t[j],
        last_true(t) is None ==> forall|j: int| 0 <= j < t.len() ==> !#[trigger] t[j],
    decreases t.len(),
{
    if t.len() > 0 && !t.last() {
        let u = t.drop_last();
        lemma_last_true(u);
        match last_true(t) {
            Some(k) => {
                assert forall|j: int| k < j < t.len() implies !#[trigger] t[j] by {
                    if j < t.len() - 1 {
                        assert(t[j] == u[j]);
                    }
                }
            },
            None => {
                assert forall|j: int| 0 <= j < t.len() implies !#[trigger] t[j] by {
                    if j < t.len() - 1 {
                        assert(t[j] == u[j]);
                    }
                }
            },
        }
    }
}

/// The longest of rows that are all at most `w` long, one of them exactly.
proof fn lemma_max_row_len(rows: Seq<Seq<bool>>, w: nat, i0: int)
    requires
        forall|i: int| 0 <= i < rows.len() ==> #[trigger] rows[i].len() <= w,
        0 <= i0 < rows.len(),
        rows[i0].len() == w,
    ensures
        max_row_len(rows) == w,
    decreases rows.len(),
{
    lemma_max_row_len_le(rows, w);
    lemma_max_row_len_ge(rows, i0);
}

proof fn lemma_max_row_len_le(rows: Seq<Seq<bool>>, w: nat)
    requires
        forall|i: int| 0 <= i < rows.len() ==> #[trigger] rows[i].len() <= w,
    ensures
        max_row_len(rows) <= w,
    decreases rows.len(),
{
    if rows.len() > 0 {
        let u = rows.drop_last();
        assert forall|i: int| 0 <= i < u.len() implies #[trigger] u[i].len() <= w by {
            assert(u[i] == rows[i]);
        }
        lemma_max_row_len_le(u, w);
    }
}

proof fn lemma_max_row_len_ge(rows: Seq<Seq<bool>>, i0: int)
    requires
        0 <= i0 < rows.len(),
    ensures
        max_row_len(rows) >= rows[i0].len(),
    decreases rows.len(),
{
    if i0 < rows.len() - 1 {
        let u = rows.drop_last();
        assert(u[i0] == rows[i0]);
        lemma_max_row_len_ge(u, i0);
    }
}

/// Facts on a bounding box of live cells.
proof fn lemma_box_facts(g: &Grid, b: (usize, usize, usize, usize))
    requires
        g.wf(),
        is_live_bounds(g, b),
    ensures
        b.0 <= b.2 < g.w,
        b.1 <= b.3 < g.h,
        box_row(g, b, b.3 - b.1).len() > 0,
        exists|y: int| 0 <= y <= b.3 - b.1 && #[trigger] box_row(g, b, y).len() == b.2 - b.0 + 1,
        forall|y: int| 0 <= y <= b.3 - b.1 ==> #[trigger] box_row(g, b, y).len() <= b.2 - b.0 + 1,
{
    let w = b.2 - b.0 + 1;
    let y2 = choose|y: int| 0 <= y < g.h && #[trigger] g.state_at(b.2 as int, y) != 0;
    let x3 = choose|x: int| 0 <= x < g.w && #[trigger] g.state_at(x, b.3 as int) != 0;
    let y0 = choose|y: int| 0 <= y < g.h && #[trigger] g.state_at(b.0 as int, y) != 0;
    let x1 = choose|x: int| 0 <= x < g.w && #[trigger] g.state_at(x, b.1 as int) != 0;
    assert(g.state_at(b.0 as int, y0) != 0);
    assert(g.state_at(x1, b.1 as int) != 0);
    let rb = grid_row(g, b.0 as int, b.3 as int, w);
    assert(rb[x3 - b.0]);
    lemma_last_true(rb);
    let yr = y2 - b.1;
    let rr = grid_row(g, b.0 as int, b.1 + yr, w);
    assert(rr[w - 1]);
    lemma_last_true(rr);
    assert(rr.take(w) =~= rr);
    assert(box_row(g, b, yr).len() == w);
    assert forall|y: int| 0 <= y <= b.3 - b.1 implies #[trigger] box_row(g, b, y).len() <= w by {
        lemma_last_true(grid_row(g, b.0 as int, b.1 + y, w));
    }
}

/// The body of the RLE text of a grid decodes to the rows of its bounding box.
proof fn lemma_decode_box(g: &Grid, b: (usize, usize, usize, usize))
    requires
        g.wf(),
        g.w * g.h <= usize::MAX,
        is_live_bounds(g, b),
    ensures
        spec_decode_rle(bbox_rows_text(g, b, b.3 - b.1 + 1) + "!"@) == Ok::<
            (usize, usize, Seq<Seq<bool>>),
            Seq<char>,
        >(((b.2 - b.0 + 1) as usize, (b.3 - b.1 + 1) as usize, box_rows(g, b, b.3 - b.1 + 1))),
{
    reveal_strlit("!");
    lemma_box_facts(g, b);
    let w = b.2 - b.0 + 1;
    let h = b.3 - b.1 + 1;
    let t = bbox_rows_text(g, b, h);
    let body = t + "!"@;
    assert(body.subrange(0, t.len() as int) =~= t);
    lemma_walk_rows(body, g, b, h);
    let rows = box_rows(g, b, h);
    assert(body[t.len() as int] == '!');
    assert(decode_walk(body, t.len() as int, rows, 0, false) == Some(rows));
    assert(trim_rows(rows) == rows) by {
        assert(rows.last() == box_row(g, b, h - 1));
    }
    let yw = choose|y: int| 0 <= y <= b.3 - b.1 && #[trigger] box_row(g, b, y).len() == w;
    assert forall|i: int| 0 <= i < rows.len() implies #[trigger] rows[i].len() <= w by {
        assert(rows[i] == box_row(g, b, i));
    }
    assert(rows[yw].len() == w);
    lemma_max_row_len(rows, w as nat, yw);
    assert(w * h <= g.w * g.h) by (nonlinear_arith)
        requires
            1 <= w <= g.w,
            1 <= h <= g.h,
    ;
}

/// The text of the rows of the bounding box is made of RLE body characters.
proof fn lemma_rows_text_chars(g: &Grid, b: (usize, usize, usize, usize), n: int)
    ensures
        all_body_chars(bbox_rows_text(g, b, n)),
    decreases n,
{
    let w = b.2 - b.0 + 1;
    if n <= 1 {
        lemma_trimmed_runs(g, b, 0);
        lemma_encode_runs_chars(box_row(g, b, 0));
    } else {
        reveal_strlit("$");
        lemma_rows_text_chars(g, b, n - 1);
        lemma_trimmed_runs(g, b, n - 1);
        lemma_encode_runs_chars(box_row(g, b, n - 1));
        assert(all_body_chars("$"@)) by {
            assert("$"@[0] == '$');
        }
        lemma_body_chars_concat(bbox_rows_text(g, b, n - 1), "$"@);
        lemma_body_chars_concat(bbox_rows_text(g, b, n - 1) + "$"@, encode_runs(box_row(g, b, n - 1)));
    }
}

/// Lines of body characters are all body text.
proof fn lemma_scan_chunks(s: Seq<char>, w: Option<usize>, h: Option<usize>, body: Seq<char>)
    requires
        all_body_chars(s),
    ensures
        rle_scan(chunks70(s), w, h, body) == (w, h, body + s),
    decreases s.len(),
{
    if s.len() == 0 {
        assert(body + s =~= body);
    } else {
        let c = if s.len() <= 70 {
            s
        } else {
            s.take(70)
        };
        assert(is_body_char(c[0]) && is_body_char(c.last())) by {
            assert(c[0] == s[0]);
            assert(c.last() == s[c.len() - 1]);
        }
        lemma_trim_plain(c);
        let lines = chunks70(s);
        assert(lines[0] == c);
        assert(trim_seq(lines[0]) == c);
        assert(!(c[0] == '#' || c[0] == 'x' || c[0] == 'X'));
        assert(rle_scan(lines, w, h, body) == rle_scan(lines.drop_first(), w, h, body + c));
        if s.len() <= 70 {
            assert(lines.drop_first() =~= Seq::<Seq<char>>::empty());
            assert(c == s);
        } else {
            let r = s.skip(70);
            assert forall|i: int| 0 <= i < r.len() implies is_body_char(#[trigger] r[i]) by {
                assert(r[i] == s[i + 70]);
            }
            assert(lines.drop_first() =~= chunks70(r));
            lemma_scan_chunks(r, w, h, body + c);
            assert(body + c + r =~= body + s);
        }
    }
}

/// A text without blanks is one word.
proof fn lemma_one_word(d: Seq<char>)
    requires
        d.len() > 0,
        forall|i: int| 0 <= i < d.len() ==> !is_ws(#[trigger] d[i]),
    ensures
        words(d) == seq![d],
{
    let k = d.len() as int;
    assert(trim_start_seq(d) == d);
    lemma_ws_index_at(d, k);
    assert(d.take(k) =~= d);
    assert(d.skip(k) =~= Seq::<char>::empty());
    assert(words(Seq::<char>::empty()) =~= Seq::<Seq<char>>::empty());
    assert(words(d) == seq![d.take(k)] + words(d.skip(k)));
    assert(seq![d] + Seq::<Seq<char>>::empty() =~= seq![d]);
}

/// Decimal digits are no blanks.
proof fn lemma_digits_not_ws(n: nat)
    ensures
        decimal_seq(n).len() > 0,
        forall|i: int| 0 <= i < decimal_seq(n).len() ==> !is_ws(#[trigger] decimal_seq(n)[i]),
        forall|i: int| 0 <= i < decimal_seq(n).len() ==> #[trigger] decimal_seq(n)[i] != ','
            && decimal_seq(n)[i] != '\n',
{
    lemma_decimal_seq(n);
    assert forall|i: int| 0 <= i < decimal_seq(n).len() implies !is_ws(#[trigger] decimal_seq(n)[i]) by {
        assert(is_ascii_digit(decimal_seq(n)[i]));
    }
    assert forall|i: int| 0 <= i < decimal_seq(n).len() implies #[trigger] decimal_seq(n)[i] != ','
        && decimal_seq(n)[i] != '\n' by {
        assert(is_ascii_digit(decimal_seq(n)[i]));
    }
}

/// The value of the header field `key = n` (after the key letter).
proof fn lemma_dim_field(key: char, n: usize)
    requires
        key == 'x' || key == 'y',
    ensures
        dim_value(seq![key, ' ', '=', ' '] + decimal_seq(n as nat), key, if key == 'x' {
            'X'
        } else {
            'Y'
        }) == Some(decimal_seq(n as nat)),
        header_dim(decimal_seq(n as nat), None) == Some(n),
{
    let d = decimal_seq(n as nat);
    lemma_digits_not_ws(n as nat);
    let p = seq![key, ' ', '=', ' '] + d;
    let e = seq!['='] + seq![' '] + d;
    assert(p.drop_first() =~= seq![' '] + e);
    assert(!is_ws(e[0]) && !is_ws(e.last())) by {
        assert(e.last() == d.last());
    }
    lemma_trim_skip_lead(seq![' '], e);
    lemma_trim_plain(e);
    assert(e.drop_first() =~= seq![' '] + d);
    assert(!is_ws(d[0]) && !is_ws(d.last()));
    lemma_trim_skip_lead(seq![' '], d);
    lemma_trim_plain(d);
    lemma_one_word(d);
    lemma_parse_decimal(n);
}

/// The header line of a save reads as its width and height.
proof fn lemma_header_dims(w: usize, h: usize)
    ensures
        scan_parts(
            split_on(
                seq!['x', ' ', '=', ' '] + decimal_seq(w as nat) + seq![','] + (seq![' ', 'y', ' ', '=', ' ']
                    + decimal_seq(h as nat)) + seq![','] + seq![' ', 'r', 'u', 'l', 'e', ' ', '=', ' ', 'B', '3', '/', 'S', '2', '3'],
                ',',
            ),
            None,
            None,
        ) == (Some(w), Some(h)),
{
    let dw = decimal_seq(w as nat);
    let dh = decimal_seq(h as nat);
    lemma_digits_not_ws(w as nat);
    lemma_digits_not_ws(h as nat);
    let p0 = seq!['x', ' ', '=', ' '] + dw;
    let p1 = seq![' ', 'y', ' ', '=', ' '] + dh;
    let p2 = seq![' ', 'r', 'u', 'l', 'e', ' ', '=', ' ', 'B', '3', '/', 'S', '2', '3'];
    assert forall|i: int| 0 <= i < p0.len() implies #[trigger] p0[i] != ',' by {
        if i >= 4 {
            assert(p0[i] == dw[i - 4]);
        }
    }
    assert forall|i: int| 0 <= i < p1.len() implies #[trigger] p1[i] != ',' by {
        if i >= 5 {
            assert(p1[i] == dh[i - 5]);
        }
    }
    assert forall|i: int| 0 <= i < p2.len() implies #[trigger] p2[i] != ',' by {}
    lemma_split_on_piece(p0, p1 + seq![','] + p2, ',');
    lemma_split_on_piece(p1, p2, ',');
    lemma_split_on_whole(p2, ',');
    assert(p0 + seq![','] + p1 + seq![','] + p2 =~= p0 + seq![','] + (p1 + seq![','] + p2));
    let parts = seq![p0, p1, p2];
    assert(split_on(p0 + seq![','] + p1 + seq![','] + p2, ',') =~= parts);
    // first part: `x = w`
    assert(!is_ws(p0[0]) && !is_ws(p0.last())) by {
        assert(p0.last() == dw.last());
    }
    lemma_trim_plain(p0);
    lemma_dim_field('x', w);
    // second part: ` y = h`
    let q1 = seq!['y', ' ', '=', ' '] + dh;
    assert(p1 =~= seq![' '] + q1);
    assert(!is_ws(q1[0]) && !is_ws(q1.last())) by {
        assert(q1.last() == dh.last());
    }
    lemma_trim_skip_lead(seq![' '], q1);
    lemma_trim_plain(q1);
    lemma_dim_field('y', h);
    // third part: ` rule = B3/S23`
    let q2 = p2.drop_first();
    assert(p2 =~= seq![' '] + q2);
    lemma_trim_skip_lead(seq![' '], q2);
    lemma_trim_plain(q2);
    let rest1 = parts.drop_first();
    let rest2 = rest1.drop_first();
    let rest3 = rest2.drop_first();
    assert(rest1 =~= seq![p1, p2]);
    assert(rest2 =~= seq![p2]);
    assert(rest3 =~= Seq::<Seq<char>>::empty());
    assert(trim_seq(parts[0]) == p0);
    assert(dim_value(p0, 'x', 'X') == Some(dw));
    assert(header_dim(dw, None) == Some(w));
    assert(scan_parts(parts, None, None) == scan_parts(rest1, Some(w), None));
    assert(trim_seq(rest1[0]) == q1);
    assert(dim_value(q1, 'x', 'X') is None);
    assert(dim_value(q1, 'y', 'Y') == Some(dh));
    assert(header_dim(dh, None) == Some(h));
    assert(scan_parts(rest1, Some(w), None) == scan_parts(rest2, Some(w), Some(h)));
    assert(trim_seq(rest2[0]) == q2);
    assert(q2[0] == 'r');
    assert(dim_value(q2, 'x', 'X') is None);
    assert(dim_value(q2, 'y', 'Y') is None);
    assert(scan_parts(rest2, Some(w), Some(h)) == scan_parts(rest3, Some(w), Some(h)));
}

/// The first character of a text that does not start with a blank survives
/// trimming.
proof fn lemma_trim_first(s: Seq<char>)
    requires
        s.len() > 0,
        !is_ws(s[0]),
    ensures
        trim_seq(s).len() > 0,
        trim_seq(s)[0] == s[0],
    decreases s.len(),
{
    assert(trim_start_seq(s) == s);
    lemma_trim_end_first(s);
}

proof fn lemma_trim_end_first(s: Seq<char>)
    requires
        s.len() > 0,
        !is_ws(s[0]),
    ensures
        trim_end_seq(s).len() > 0,
        trim_end_seq(s)[0] == s[0],
    decreases s.len(),
{
    if s.len() > 1 && is_ws(s.last()) {
        lemma_trim_end_first(s.drop_last());
    }
}


/// The header line of a save, without its newline.
pub open spec fn save_header(w: usize, h: usize) -> Seq<char> {
    "x = "@ + decimal_seq(w as nat) + ", y = "@ + decimal_seq(h as nat) + ", rule = B3/S23"@
}

/// The body of a save: the rows of the bounding box and the closing `!`.
pub open spec fn save_body(g: &Grid, b: (usize, usize, usize, usize)) -> Seq<char> {
    bbox_rows_text(g, b, b.3 - b.1 + 1) + "!"@
}

/// The header line has no line break, starts with `x` and ends with `3`.
proof fn lemma_save_header_chars(w: usize, h: usize)
    ensures
        forall|i: int| 0 <= i < save_header(w, h).len() ==> #[trigger] save_header(w, h)[i] != '\n',
        save_header(w, h).len() > 0,
        save_header(w, h)[0] == 'x',
        save_header(w, h).last() == '3',
        save_header(w, h) =~= seq!['x', ' ', '=', ' '] + decimal_seq(w as nat) + seq![',']
            + (seq![' ', 'y', ' ', '=', ' '] + decimal_seq(h as nat)) + seq![','] + seq![
            ' ',
            'r',
            'u',
            'l',
            'e',
            ' ',
            '=',
            ' ',
            'B',
            '3',
            '/',
            'S',
            '2',
            '3',
        ],
{
    reveal_strlit("x = ");
    reveal_strlit(", y = ");
    reveal_strlit(", rule = B3/S23");
    let dw = decimal_seq(w as nat);
    let dh = decimal_seq(h as nat);
    lemma_digits_not_ws(w as nat);
    lemma_digits_not_ws(h as nat);
    let hl = save_header(w, h);
    assert forall|i: int| 0 <= i < hl.len() implies #[trigger] hl[i] != '\n' by {
        if 4 <= i < 4 + dw.len() {
            assert(hl[i] == dw[i - 4]);
        } else if 10 + dw.len() <= i < 10 + dw.len() + dh.len() {
            assert(hl[i] == dh[i - 10 - dw.len()]);
        }
    }
}

/// A save of a grid with live cells, as its lines joined by line breaks.
proof fn lemma_save_text(g: &Grid, name: Seq<char>, b: (usize, usize, usize, usize))
    requires
        g.wf(),
        is_live_bounds(g, b),
    ensures
        spec_to_rle(g, name) =~= ("#N "@ + name) + seq!['\n'] + ("#O gol-rs"@ + seq!['\n'] + (
        save_header((b.2 - b.0 + 1) as usize, (b.3 - b.1 + 1) as usize) + seq!['\n'] + wrap_lines(
            save_body(g, b),
        ))),
{
    reveal_strlit("\n");
    reveal_strlit("#O gol-rs\n");
    reveal_strlit("#O gol-rs");
    reveal_strlit(", rule = B3/S23\n");
    reveal_strlit(", rule = B3/S23");
    lemma_box_facts(g, b);
    assert(has_live(g)) by {
        let y2 = choose|y: int| 0 <= y < g.h && #[trigger] g.state_at(b.2 as int, y) != 0;
        assert(g.state_at(b.2 as int, y2) != 0);
    }
    let c = choose|c: (usize, usize, usize, usize)| is_live_bounds(g, c);
    lemma_live_bounds_unique(g, b, c);
}

/// The lines of a save of a grid with live cells: the two comment lines, the
/// header and the body in chunks.
proof fn lemma_save_lines(g: &Grid, name: Seq<char>, b: (usize, usize, usize, usize))
    requires
        g.wf(),
        is_live_bounds(g, b),
        forall|i: int| 0 <= i < name.len() ==> #[trigger] name[i] != '\n',
    ensures
        lines_of(spec_to_rle(g, name)) == seq![
            strip_cr("#N "@ + name),
            "#O gol-rs"@,
            save_header((b.2 - b.0 + 1) as usize, (b.3 - b.1 + 1) as usize),
        ] + chunks70(save_body(g, b)),
        all_body_chars(save_body(g, b)),
{
    reveal_strlit("#N ");
    reveal_strlit("#O gol-rs");
    reveal_strlit("!");
    let w = (b.2 - b.0 + 1) as usize;
    let h = (b.3 - b.1 + 1) as usize;
    let l0 = "#N "@ + name;
    let l1 = "#O gol-rs"@;
    let hl = save_header(w, h);
    let body = save_body(g, b);
    lemma_save_text(g, name, b);
    lemma_save_header_chars(w, h);
    assert forall|i: int| 0 <= i < l0.len() implies #[trigger] l0[i] != '\n' by {
        if i >= 3 {
            assert(l0[i] == name[i - 3]);
        }
    }
    assert forall|i: int| 0 <= i < l1.len() implies #[trigger] l1[i] != '\n' by {}
    let t2 = hl + seq!['\n'] + wrap_lines(body);
    let t1 = l1 + seq!['\n'] + t2;
    lemma_lines_of_line(l0, t1);
    lemma_lines_of_line(l1, t2);
    lemma_lines_of_line(hl, wrap_lines(body));
    lemma_rows_text_chars(g, b, b.3 - b.1 + 1);
    assert(all_body_chars("!"@)) by {
        assert("!"@[0] == '!');
    }
    lemma_body_chars_concat(bbox_rows_text(g, b, b.3 - b.1 + 1), "!"@);
    lemma_lines_of_wrap(body);
    assert(strip_cr(l1) == l1);
    assert(strip_cr(hl) == hl);
    assert(seq![strip_cr(l0)] + (seq![l1] + (seq![hl] + chunks70(body))) =~= seq![
        strip_cr(l0),
        l1,
        hl,
    ] + chunks70(body));
}


/// Reading the lines of a save gives the saved width, height and body.
proof fn lemma_save_scan(g: &Grid, name: Seq<char>, b: (usize, usize, usize, usize))
    requires
        g.wf(),
        is_live_bounds(g, b),
        forall|i: int| 0 <= i < name.len() ==> #[trigger] name[i] != '\n',
    ensures
        rle_scan(lines_of(spec_to_rle(g, name)), None, None, Seq::empty()) == (
            Some((b.2 - b.0 + 1) as usize),
            Some((b.3 - b.1 + 1) as usize),
            save_body(g, b),
        ),
{
    reveal_strlit("#N ");
    reveal_strlit("#O gol-rs");
    let w = (b.2 - b.0 + 1) as usize;
    let h = (b.3 - b.1 + 1) as usize;
    let l0 = strip_cr("#N "@ + name);
    let l1 = "#O gol-rs"@;
    let hl = save_header(w, h);
    let body = save_body(g, b);
    lemma_save_lines(g, name, b);
    lemma_save_header_chars(w, h);
    let lines = lines_of(spec_to_rle(g, name));
    let r1 = lines.drop_first();
    let r2 = r1.drop_first();
    let r3 = r2.drop_first();
    assert(r1 =~= seq![l1, hl] + chunks70(body));
    assert(r2 =~= seq![hl] + chunks70(body));
    assert(r3 =~= chunks70(body));
    assert(l0[0] == '#');
    lemma_trim_first(l0);
    assert(rle_scan(lines, None, None, Seq::empty()) == rle_scan(r1, None, None, Seq::empty()));
    lemma_trim_plain(l1);
    assert(rle_scan(r1, None, None, Seq::empty()) == rle_scan(r2, None, None, Seq::empty()));
    lemma_trim_plain(hl);
    lemma_header_dims(w, h);
    assert(scan_parts(split_on(hl, ','), None, None) == (Some(w), Some(h)));
    assert(rle_scan(r2, None, None, Seq::empty()) == rle_scan(r3, Some(w), Some(h), Seq::empty()));
    lemma_scan_chunks(body, Some(w), Some(h), Seq::empty());
    assert(Seq::<char>::empty() + body =~= body);
}

/// A save is not read as Life 1.05 text: its header line is an RLE header.
proof fn lemma_save_not_plain(g: &Grid, name: Seq<char>, b: (usize, usize, usize, usize))
    requires
        g.wf(),
        is_live_bounds(g, b),
        forall|i: int| 0 <= i < name.len() ==> #[trigger] name[i] != '\n',
    ensures
        !spec_looks_like_plain(trim_start_seq(spec_to_rle(g, name))),
{
    reveal_strlit("#N ");
    let w = (b.2 - b.0 + 1) as usize;
    let h = (b.3 - b.1 + 1) as usize;
    let text = spec_to_rle(g, name);
    lemma_save_text(g, name, b);
    assert(text[0] == '#');
    assert(trim_start_seq(text) == text);
    lemma_save_lines(g, name, b);
    lemma_save_header_chars(w, h);
    let hl = save_header(w, h);
    let ls = lines_of(text);
    assert(ls[2] == hl);
    assert(trim_start_seq(hl) == hl);
    lemma_find_first(hl, '=', 2);
    assert(is_rle_header_line(ls[2]));
}


/// The decoded rows of a save mark exactly the live cells of the bounding box.
proof fn lemma_box_rows_live(g: &Grid, b: (usize, usize, usize, usize), dx: int, dy: int)
    requires
        g.wf(),
        is_live_bounds(g, b),
    ensures
        decoded_live(box_rows(g, b, b.3 - b.1 + 1), b.2 - b.0 + 1, b.3 - b.1 + 1, dx, dy) == (0 <= dx
            <= b.2 - b.0 && 0 <= dy <= b.3 - b.1 && g.state_at(b.0 + dx, b.1 + dy) != 0),
{
    let w = b.2 - b.0 + 1;
    let h = b.3 - b.1 + 1;
    if 0 <= dx < w && 0 <= dy < h {
        let row = grid_row(g, b.0 as int, b.1 + dy, w);
        lemma_last_true(row);
        assert(box_rows(g, b, h)[dy] == box_row(g, b, dy));
        assert(row[dx] == (g.state_at(b.0 + dx, b.1 + dy) != 0));
    }
}

/// Saving then loading: the RLE text that `to_rle` writes for a grid with live
/// cells, loaded by `load_rle_into` into a grid that the bounding box of those
/// cells fits in, is read as RLE (not as Life 1.05 text), and every outcome
/// that loading allows is a success that clears the grid and draws exactly the
/// live cells of the bounding box, centred. The name must hold no line break,
/// else it would spill out of its comment line.
pub proof fn law_save_load_round_trip(
    g: &Grid,
    name: Seq<char>,
    b: (usize, usize, usize, usize),
    g0: &Grid,
    g2: &Grid,
    r: Result<(), String>,
)
    requires
        g.wf(),
        g.w * g.h <= usize::MAX,
        is_live_bounds(g, b),
        forall|i: int| 0 <= i < name.len() ==> #[trigger] name[i] != '\n',
        g0.wf(),
        b.2 - b.0 + 1 <= g0.w,
        b.3 - b.1 + 1 <= g0.h,
    ensures
        !spec_looks_like_plain(trim_start_seq(spec_to_rle(g, name))),
        rle_load_outcome(g2, g0, spec_to_rle(g, name), r) ==> r is Ok && is_drawn_clear(
            g2,
            g0,
            |dx: int, dy: int|
                0 <= dx <= b.2 - b.0 && 0 <= dy <= b.3 - b.1 && g.state_at(b.0 + dx, b.1 + dy) != 0,
            (g0.w - (b.2 - b.0 + 1)) / 2,
            (g0.h - (b.3 - b.1 + 1)) / 2,
        ),
{
    let w = b.2 - b.0 + 1;
    let h = b.3 - b.1 + 1;
    lemma_save_not_plain(g, name, b);
    lemma_save_scan(g, name, b);
    lemma_decode_box(g, b);
    let rows = box_rows(g, b, h);
    let m1 = |dx: int, dy: int| decoded_live(rows, w, h, dx, dy);
    let m2 = |dx: int, dy: int|
        0 <= dx <= b.2 - b.0 && 0 <= dy <= b.3 - b.1 && g.state_at(b.0 + dx, b.1 + dy) != 0;
    assert forall|dx: int, dy: int| #[trigger] m1(dx, dy) == m2(dx, dy) by {
        lemma_box_rows_live(g, b, dx, dy);
    }
    assert(m1 =~= m2);
}


/// The lines of a save of a grid with no live cells.
proof fn lemma_empty_save_lines(g: &Grid, name: Seq<char>)
    requires
        g.wf(),
        !has_live(g),
        forall|i: int| 0 <= i < name.len() ==> #[trigger] name[i] != '\n',
    ensures
        lines_of(spec_to_rle(g, name)) == seq![
            strip_cr("#N "@ + name),
            "#O gol-rs"@,
            save_header(0, 0),
            seq!['!'],
        ],
{
    reveal_strlit("#N ");
    reveal_strlit("\n");
    reveal_strlit("#O gol-rs\n");
    reveal_strlit("#O gol-rs");
    reveal_strlit("x = 0, y = 0, rule = B3/S23\n!\n");
    reveal_strlit("x = ");
    reveal_strlit(", y = ");
    reveal_strlit(", rule = B3/S23");
    assert(decimal_seq(0) =~= seq!['0']);
    let l0 = "#N "@ + name;
    let l1 = "#O gol-rs"@;
    let hl = save_header(0, 0);
    let l3 = seq!['!'];
    let e = Seq::<char>::empty();
    assert(spec_to_rle(g, name) =~= l0 + seq!['\n'] + (l1 + seq!['\n'] + (hl + seq!['\n'] + (l3
        + seq!['\n'] + e))));
    lemma_save_header_chars(0, 0);
    assert forall|i: int| 0 <= i < l0.len() implies #[trigger] l0[i] != '\n' by {
        if i >= 3 {
            assert(l0[i] == name[i - 3]);
        }
    }
    assert forall|i: int| 0 <= i < l1.len() implies #[trigger] l1[i] != '\n' by {}
    assert forall|i: int| 0 <= i < l3.len() implies #[trigger] l3[i] != '\n' by {}
    let t3 = l3 + seq!['\n'] + e;
    let t2 = hl + seq!['\n'] + t3;
    let t1 = l1 + seq!['\n'] + t2;
    lemma_lines_of_line(l0, t1);
    lemma_lines_of_line(l1, t2);
    lemma_lines_of_line(hl, t3);
    lemma_lines_of_line(l3, e);
    assert(strip_cr(l1) == l1);
    assert(strip_cr(hl) == hl);
    assert(strip_cr(l3) == l3);
    assert(seq![strip_cr(l0)] + (seq![l1] + (seq![hl] + (seq![l3] + lines_of(e)))) =~= seq![
        strip_cr(l0),
        l1,
        hl,
        l3,
    ]);
}

/// Saving then loading a grid with no live cells: the text is read as RLE,
/// and every outcome that loading allows is a success that leaves the grid
/// cleared.
pub proof fn law_save_load_empty(
    g: &Grid,
    name: Seq<char>,
    g0: &Grid,
    g2: &Grid,
    r: Result<(), String>,
)
    requires
        g.wf(),
        !has_live(g),
        forall|i: int| 0 <= i < name.len() ==> #[trigger] name[i] != '\n',
        g0.wf(),
    ensures
        !spec_looks_like_plain(trim_start_seq(spec_to_rle(g, name))),
        rle_load_outcome(g2, g0, spec_to_rle(g, name), r) ==> r is Ok && is_drawn_clear(
            g2,
            g0,
            |dx: int, dy: int| false,
            g0.w as int / 2,
            g0.h as int / 2,
        ),
{
    reveal_strlit("#N ");
    reveal_strlit("#O gol-rs");
    let text = spec_to_rle(g, name);
    let l0 = strip_cr("#N "@ + name);
    let l1 = "#O gol-rs"@;
    let hl = save_header(0, 0);
    let l3 = seq!['!'];
    lemma_empty_save_lines(g, name);
    lemma_save_header_chars(0, 0);
    let lines = lines_of(text);
    // not Life 1.05 text
    assert(text[0] == '#') by {
        assert(lines[0] == l0);
        reveal_strlit("\n");
        reveal_strlit("#O gol-rs\n");
        reveal_strlit("x = 0, y = 0, rule = B3/S23\n!\n");
    }
    assert(trim_start_seq(text) == text);
    assert(lines[2] == hl);
    assert(trim_start_seq(hl) == hl);
    lemma_find_first(hl, '=', 2);
    assert(is_rle_header_line(lines[2]));
    // the scan
    let r1 = lines.drop_first();
    let r2 = r1.drop_first();
    let r3 = r2.drop_first();
    let r4 = r3.drop_first();
    assert(r1 =~= seq![l1, hl, l3]);
    assert(r2 =~= seq![hl, l3]);
    assert(r3 =~= seq![l3]);
    assert(r4 =~= Seq::<Seq<char>>::empty());
    assert(l0[0] == '#');
    lemma_trim_first(l0);
    lemma_trim_plain(l1);
    lemma_trim_plain(hl);
    lemma_trim_plain(l3);
    lemma_header_dims(0, 0);
    let e = Seq::<char>::empty();
    assert(rle_scan(lines, None, None, e) == rle_scan(r1, None, None, e));
    assert(rle_scan(r1, None, None, e) == rle_scan(r2, None, None, e));
    assert(rle_scan(r2, None, None, e) == rle_scan(r3, Some(0usize), Some(0usize), e));
    assert(e + l3 =~= l3);
    assert(trim_seq(r3[0]) == l3);
    assert(rle_scan(r3, Some(0usize), Some(0usize), e) == rle_scan(r4, Some(0usize), Some(0usize), e + l3));
    assert(rle_scan(r3, Some(0usize), Some(0usize), e) == (Some(0usize), Some(0usize), l3));
    // the decode
    let one = seq![Seq::<bool>::empty()];
    assert(decode_walk(l3, 0, one, 0, false) == Some(one));
    assert(trim_rows(one) == one);
    assert(max_row_len(one) == 0) by {
        assert(one.drop_last() =~= Seq::<Seq<bool>>::empty());
        assert(max_row_len(Seq::<Seq<bool>>::empty()) == 0);
        assert(one.last().len() == 0);
    }
    assert(spec_decode_rle(l3) == Ok::<(usize, usize, Seq<Seq<bool>>), Seq<char>>((1, 1, one)));
    let m1 = |dx: int, dy: int| decoded_live(one, 1, 1, dx, dy);
    let m2 = |dx: int, dy: int| false;
    assert(m1 =~= m2);
}

} // verus!
