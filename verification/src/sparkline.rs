//! Unicode block sparkline for population samples.

use vstd::prelude::*;
use crate::text::string_from_chars;

verus! {

/// Number of block characters, from U+2581 (lowest) to U+2588 (full).
pub const BLOCK_COUNT: usize = 8;

/// The block character of height `i` (0 = lowest, 7 = full).
pub open spec fn block_char(i: int) -> char {
    (0x2581 + i) as char
}

/// Smallest value of a non-empty sequence.
pub open spec fn seq_min(s: Seq<usize>) -> usize
    decreases s.len(),
{
    if s.len() <= 1 {
        s[0]
    } else if s.last() < seq_min(s.drop_last()) {
        s.last()
    } else {
        seq_min(s.drop_last())
    }
}

/// Largest value of a non-empty sequence.
pub open spec fn seq_max(s: Seq<usize>) -> usize
    decreases s.len(),
{
    if s.len() <= 1 {
        s[0]
    } else if s.last() > seq_max(s.drop_last()) {
        s.last()
    } else {
        seq_max(s.drop_last())
    }
}

/// The last `width` samples (all of them where there are fewer).
pub open spec fn sample_window(s: Seq<usize>, width: nat) -> Seq<usize> {
    if s.len() <= width {
        s
    } else {
        s.skip(s.len() - width)
    }
}

/// Block height of `v` in a window ranging from `lo` to `hi`: `7 * (v - lo) /
/// (hi - lo)` rounded to the nearest integer, halves rounded up; a flat window
/// gives the middle block, or the lowest where every sample is 0.
pub open spec fn block_index(v: int, lo: int, hi: int) -> int {
    if hi == lo {
        if hi == 0 {
            0
        } else {
            (BLOCK_COUNT / 2) as int
        }
    } else {
        (14 * (v - lo) + (hi - lo)) / (2 * (hi - lo))
    }
}

/// The sparkline text of the last `width` samples.
pub open spec fn spark_text(s: Seq<usize>, width: nat) -> Seq<char> {
    if s.len() == 0 || width == 0 {
        Seq::empty()
    } else {
        let w = sample_window(s, width);
        let lo = seq_min(w) as int;
        let hi = seq_max(w) as int;
        w.map_values(|v: usize| block_char(block_index(v as int, lo, hi)))
    }
}

/// Every element lies between the smallest and the largest.
pub proof fn lemma_min_max_bound(s: Seq<usize>, i: int)
    requires
        0 <= i < s.len(),
    ensures
        seq_min(s) <= s[i] <= seq_max(s),
    decreases s.len(),
{
    if s.len() > 1 && i < s.len() - 1 {
        lemma_min_max_bound(s.drop_last(), i);
    }
}

/// A sparkline has one block per sample of the window (the last `width`
/// samples), each between the lowest and the full block; where every sample of
/// the window is 0, all blocks are the lowest; the largest sample of a window
/// that is not flat gets the full block and the smallest the lowest.
pub proof fn law_sparkline_shape(s: Seq<usize>, width: nat)
    ensures
        spark_text(s, width).len() == (if s.len() < width { s.len() } else { width }),
        forall|i: int|
            0 <= i < spark_text(s, width).len() ==> block_char(0) <= #[trigger] spark_text(
                s,
                width,
            )[i] <= block_char(7),
        s.len() > 0 && width > 0 && seq_max(sample_window(s, width)) == 0 ==> forall|i: int|
            0 <= i < spark_text(s, width).len() ==> #[trigger] spark_text(s, width)[i] == block_char(0),
        forall|i: int|
            0 <= i < spark_text(s, width).len() && seq_min(sample_window(s, width)) < seq_max(
                sample_window(s, width),
            ) ==> (sample_window(s, width)[i] == seq_max(sample_window(s, width)) ==> #[trigger] spark_text(
                s,
                width,
            )[i] == block_char(7)) && (sample_window(s, width)[i] == seq_min(sample_window(s, width))
                ==> spark_text(s, width)[i] == block_char(0)),
{
    if s.len() > 0 && width > 0 {
        let w = sample_window(s, width);
        let lo = seq_min(w) as int;
        let hi = seq_max(w) as int;
        assert forall|i: int| 0 <= i < w.len() implies 0 <= #[trigger] block_index(
            w[i] as int,
            lo,
            hi,
        ) <= 7 by {
            lemma_min_max_bound(w, i);
            if hi != lo {
                let d = w[i] - lo;
                let span = hi - lo;
                assert((14 * d + span) / (2 * span) <= 7) by (nonlinear_arith)
                    requires
                        0 <= d <= span,
                        span > 0,
                ;
                assert((14 * d + span) / (2 * span) >= 0) by (nonlinear_arith)
                    requires
                        0 <= d <= span,
                        span > 0,
                ;
            }
        }
        assert forall|i: int| 0 <= i < w.len() && lo < hi && w[i] == hi implies #[trigger] block_index(
            w[i] as int,
            lo,
            hi,
        ) == 7 by {
            let span = hi - lo;
            assert((14 * span + span) / (2 * span) == 7) by (nonlinear_arith)
                requires
                    span > 0,
            ;
        }
        assert forall|i: int| 0 <= i < w.len() && lo == 0 && hi == 0 implies #[trigger] block_index(
            w[i] as int,
            lo,
            hi,
        ) == 0 by {}
        assert forall|i: int| 0 <= i < w.len() && lo < hi && w[i] == lo implies #[trigger] block_index(
            w[i] as int,
            lo,
            hi,
        ) == 0 by {
            let span = hi - lo;
            assert(span / (2 * span) == 0) by (nonlinear_arith)
                requires
                    span > 0,
            ;
        }
    }
}

/// The block character of height `i`.
fn block(i: u32) -> (c: char)
    requires
        i < 8,
    ensures
        c == block_char(i as int),
{
    if i == 0 {
        '\u{2581}'
    } else if i == 1 {
        '\u{2582}'
    } else if i == 2 {
        '\u{2583}'
    } else if i == 3 {
        '\u{2584}'
    } else if i == 4 {
        '\u{2585}'
    } else if i == 5 {
        '\u{2586}'
    } else if i == 6 {
        '\u{2587}'
    } else {
        '\u{2588}'
    }
}

/// Build a mini unicode sparkline of the last `width` samples (or fewer).
///
/// Empty samples → empty string. All-zero → all lowest bars. Values are
/// scaled linearly across the block set relative to min/max in the window.
pub fn sparkline(samples: &[usize], width: usize) -> (s: String)
    ensures
        s@ == spark_text(samples@, width as nat),
{
    if samples.len() == 0 || width == 0 {
        return string_from_chars(Vec::new());
    }
    let n = if samples.len() < width {
        samples.len()
    } else {
        width
    };
    let start = samples.len() - n;
    let ghost w = sample_window(samples@, width as nat);
    assert(w =~= samples@.skip(start as int));
    let mut lo = samples[start];
    let mut hi = samples[start];
    let mut k: usize = start + 1;
    while k < samples.len()
        invariant
            start < k <= samples.len(),
            w == samples@.skip(start as int),
            lo == seq_min(w.take(k - start)),
            hi == seq_max(w.take(k - start)),
        decreases samples.len() - k,
    {
        let ghost t = w.take(k + 1 - start);
        assert(t.drop_last() =~= w.take(k - start));
        assert(t.last() == samples@[k as int]);
        if samples[k] < lo {
            lo = samples[k];
        }
        if samples[k] > hi {
            hi = samples[k];
        }
        k += 1;
    }
    assert(w.take(w.len() as int) =~= w);
    let mut out: Vec<char> = Vec::new();
    let mut j: usize = start;
    while j < samples.len()
        invariant
            start <= j <= samples.len(),
            w == samples@.skip(start as int),
            lo == seq_min(w),
            hi == seq_max(w),
            out@.len() == j - start,
            forall|q: int|
                0 <= q < j - start ==> #[trigger] out@[q] == block_char(
                    block_index(w[q] as int, lo as int, hi as int),
                ),
        decreases samples.len() - j,
    {
        let v = samples[j];
        proof {
            lemma_min_max_bound(w, j - start);
        }
        let idx: u32 = if hi == lo {
            if hi == 0 {
                0
            } else {
                (BLOCK_COUNT / 2) as u32
            }
        } else {
            let d = (v - lo) as u128;
            let span = (hi - lo) as u128;
            assert(d <= span);
            assert(14 * d + span <= 15 * span);
            let q = (14 * d + span) / (2 * span);
            assert(q <= 7) by (nonlinear_arith)
                requires
                    q == (14 * d + span) / (2 * span),
                    d <= span,
                    span > 0,
            ;
            q as u32
        };
        out.push(block(idx));
        j += 1;
    }
    let ghost expect = spark_text(samples@, width as nat);
    assert(out@ =~= expect);
    string_from_chars(out)
}

} // verus!
