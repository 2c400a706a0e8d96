//! Character-level helpers shared by the parsers and encoders.
//!
//! Text is handled as sequences of `char`: inputs are read with
//! [`str_chars`], outputs are assembled in a `Vec<char>` and turned into a
//! `String` with [`string_from_chars`].

use vstd::prelude::*;

verus! {

/// ASCII decimal digit.
pub open spec fn is_ascii_digit(c: char) -> bool {
    '0' <= c && c <= '9'
}

/// Numeric value of an ASCII digit.
pub open spec fn digit_value(c: char) -> int {
    c as int - '0' as int
}

/// The character for a decimal digit `d` (0..=9).
pub open spec fn digit_char(d: int) -> char {
    (d + '0' as int) as char
}

/// ASCII lower-casing of a single character (other characters unchanged).
pub open spec fn ascii_lower(c: char) -> char {
    if 'A' <= c && c <= 'Z' {
        (c as int + 32) as char
    } else {
        c
    }
}

/// ASCII lower-casing of a whole text.
pub open spec fn lower_seq(s: Seq<char>) -> Seq<char> {
    s.map_values(|c: char| ascii_lower(c))
}

/// Unicode `White_Space` characters (what `char::is_whitespace` and
/// `str::trim` treat as blank).
pub open spec fn is_ws(c: char) -> bool {
    ||| ('\u{9}' <= c && c <= '\u{d}')
    ||| c == ' '
    ||| c == '\u{85}'
    ||| c == '\u{a0}'
    ||| c == '\u{1680}'
    ||| ('\u{2000}' <= c && c <= '\u{200a}')
    ||| c == '\u{2028}'
    ||| c == '\u{2029}'
    ||| c == '\u{202f}'
    ||| c == '\u{205f}'
    ||| c == '\u{3000}'
}

/// `s` without its leading blanks.
pub open spec fn trim_start_seq(s: Seq<char>) -> Seq<char>
    decreases s.len(),
{
    if s.len() > 0 && is_ws(s[0]) {
        trim_start_seq(s.drop_first())
    } else {
        s
    }
}

/// `s` without its trailing blanks.
pub open spec fn trim_end_seq(s: Seq<char>) -> Seq<char>
    decreases s.len(),
{
    if s.len() > 0 && is_ws(s.last()) {
        trim_end_seq(s.drop_last())
    } else {
        s
    }
}

/// `s` without leading and trailing blanks (`str::trim`).
pub open spec fn trim_seq(s: Seq<char>) -> Seq<char> {
    trim_end_seq(trim_start_seq(s))
}

/// Decimal rendering of `n` without leading zeros.
pub open spec fn decimal_seq(n: nat) -> Seq<char>
    decreases n,
{
    if n < 10 {
        seq![digit_char(n as int)]
    } else {
        decimal_seq(n / 10).push(digit_char((n % 10) as int))
    }
}

/// The characters of `s`, in order.
pub fn str_chars(s: &str) -> (v: Vec<char>)
    ensures
        v@ == s@,
{
    let mut v: Vec<char> = Vec::new();
    for c in it: s.chars()
        invariant
            v@ == it.seq().take(it.index() as int),
    {
        v.push(c);
    }
    proof {
        broadcast use vstd::string::axiom_spec_iter;
    }
    assert(v@ =~= s@);
    v
}

/// Collect characters into a `String` (std's `FromIterator<char>` for `String`).
#[verifier::external_body]
pub(crate) fn string_from_chars(chars: Vec<char>) -> (s: String)
    ensures
        s@ == chars@,
{
    String::from_iter(chars)
}

/// Name for the text that std's `Debug` formatting (`{:?}`) writes for a
/// character: the character in single quotes, with escapes.
pub uninterp spec fn char_debug_text(c: char) -> Seq<char>;

/// Name for the text that std's `Debug` formatting (`{:?}`) writes for a
/// string: the text in double quotes, with escapes.
pub uninterp spec fn str_debug_text(s: Seq<char>) -> Seq<char>;

/// Printable ASCII that `Debug` writes unescaped inside single quotes.
pub open spec fn plain_in_char_quotes(c: char) -> bool {
    ' ' <= c && c <= '~' && c != '\'' && c != '\\'
}

/// Printable ASCII that `Debug` writes unescaped inside double quotes.
pub open spec fn plain_in_str_quotes(c: char) -> bool {
    ' ' <= c && c <= '~' && c != '"' && c != '\\'
}

/// `format!("{c:?}")` (std's `Debug` for `char`). Trusted: the text is named
/// by `char_debug_text`; printable ASCII other than a quote or backslash is
/// written as itself between single quotes. The escapes std uses for other
/// characters are not stated.
#[verifier::external_body]
pub(crate) fn debug_char(c: char) -> (s: String)
    ensures
        s@ == char_debug_text(c),
        plain_in_char_quotes(c) ==> s@ == seq!['\'', c, '\''],
{
    format!("{c:?}")
}

/// `format!("{s:?}")` (std's `Debug` for `str`). Trusted: the text is named
/// by `str_debug_text`; text made only of printable ASCII other than `"` and
/// backslash is written as itself between double quotes. The escapes std uses
/// for other characters are not stated.
#[verifier::external_body]
pub(crate) fn debug_str(s: &str) -> (r: String)
    ensures
        r@ == str_debug_text(s@),
        (forall|i: int| 0 <= i < s@.len() ==> plain_in_str_quotes(#[trigger] s@[i])) ==> r@ == seq!['"']
            + s@ + seq!['"'],
{
    format!("{s:?}")
}

/// Unicode scalar values: what a `char` can hold.
pub open spec fn is_scalar(n: u32) -> bool {
    n <= 0x10FFFF && !(0xD800 <= n <= 0xDFFF)
}

/// `char::from_u32` (std). Trusted: as std documents, it gives the character
/// with code `n` exactly where `n` is a Unicode scalar value, `None` otherwise.
#[verifier::external_body]
pub(crate) fn char_from_u32(n: u32) -> (c: Option<char>)
    ensures
        c == (if is_scalar(n) {
            Some(n as char)
        } else {
            None
        }),
{
    char::from_u32(n)
}

/// `char::is_whitespace`.
pub fn is_whitespace(c: char) -> (b: bool)
    ensures
        b == is_ws(c),
{
    ('\u{9}' <= c && c <= '\u{d}') || c == ' ' || c == '\u{85}' || c == '\u{a0}' || c
        == '\u{1680}' || ('\u{2000}' <= c && c <= '\u{200a}') || c == '\u{2028}' || c
        == '\u{2029}' || c == '\u{202f}' || c == '\u{205f}' || c == '\u{3000}'
}

/// `char::to_ascii_lowercase`.
pub fn lower_char(c: char) -> (r: char)
    ensures
        r == ascii_lower(c),
{
    if 'A' <= c && c <= 'Z' {
        let b = c as u8;
        (b + 32) as char
    } else {
        c
    }
}

/// ASCII lower-casing of every character.
pub fn lower_chars(v: &[char]) -> (r: Vec<char>)
    ensures
        r@ == lower_seq(v@),
{
    let mut r: Vec<char> = Vec::new();
    for i in 0..v.len()
        invariant
            r@ == lower_seq(v@.take(i as int)),
    {
        r.push(lower_char(v[i]));
        assert(lower_seq(v@.take(i + 1)) =~= lower_seq(v@.take(i as int)).push(ascii_lower(v@[i as int])));
    }
    assert(v@.take(v.len() as int) =~= v@);
    r
}

pub proof fn lemma_trim_start_skip(s: Seq<char>, i: int)
    requires
        0 <= i <= s.len(),
        forall|j: int| 0 <= j < i ==> is_ws(#[trigger] s[j]),
    ensures
        trim_start_seq(s) == trim_start_seq(s.subrange(i, s.len() as int)),
    decreases i,
{
    if i > 0 {
        assert(s.drop_first().subrange(i - 1, s.drop_first().len() as int) =~= s.subrange(i, s.len() as int));
        lemma_trim_start_skip(s.drop_first(), i - 1);
    } else {
        assert(s.subrange(0, s.len() as int) =~= s);
    }
}

pub proof fn lemma_trim_end_skip(s: Seq<char>, k: int)
    requires
        0 <= k <= s.len(),
        forall|j: int| k <= j < s.len() ==> is_ws(#[trigger] s[j]),
    ensures
        trim_end_seq(s) == trim_end_seq(s.subrange(0, k)),
    decreases s.len() - k,
{
    if k < s.len() {
        assert(s.drop_last().subrange(0, k) =~= s.subrange(0, k));
        lemma_trim_end_skip(s.drop_last(), k);
    } else {
        assert(s.subrange(0, k) =~= s);
    }
}

/// A copy of `v[lo..hi]`.
pub fn copy_range(v: &[char], lo: usize, hi: usize) -> (r: Vec<char>)
    requires
        lo <= hi <= v@.len(),
    ensures
        r@ == v@.subrange(lo as int, hi as int),
{
    let mut r: Vec<char> = Vec::new();
    let mut i = lo;
    while i < hi
        invariant
            lo <= i <= hi <= v@.len(),
            r@ == v@.subrange(lo as int, i as int),
        decreases hi - i,
    {
        r.push(v[i]);
        assert(v@.subrange(lo as int, i + 1) =~= v@.subrange(lo as int, i as int).push(v@[i as int]));
        i += 1;
    }
    r
}

/// `str::trim` on a character sequence.
pub fn trim_chars(v: &[char]) -> (r: Vec<char>)
    ensures
        r@ == trim_seq(v@),
{
    let n = v.len();
    let mut lo: usize = 0;
    while lo < n && is_whitespace(v[lo])
        invariant
            lo <= n == v@.len(),
            forall|j: int| 0 <= j < lo ==> is_ws(#[trigger] v@[j]),
        decreases n - lo,
    {
        lo += 1;
    }
    proof {
        lemma_trim_start_skip(v@, lo as int);
    }
    let mut hi: usize = n;
    while hi > lo && is_whitespace(v[hi - 1])
        invariant
            lo <= hi <= n == v@.len(),
            forall|j: int| hi <= j < n ==> is_ws(#[trigger] v@[j]),
        decreases hi,
    {
        hi -= 1;
    }
    let ghost t = v@.subrange(lo as int, n as int);
    proof {
        assert(trim_start_seq(t) == t);
        lemma_trim_end_skip(t, hi - lo);
        assert(t.subrange(0, hi - lo) =~= v@.subrange(lo as int, hi as int));
        let u = v@.subrange(lo as int, hi as int);
        if u.len() > 0 {
            assert(!is_ws(u.last()));
        }
        assert(trim_end_seq(u) == u);
    }
    copy_range(v, lo, hi)
}

/// Whether the characters `a` spell out exactly `lit`.
pub fn chars_eq_str(a: &[char], lit: &str) -> (b: bool)
    ensures
        b == (a@ == lit@),
{
    let l = str_chars(lit);
    if a.len() != l.len() {
        return false;
    }
    let mut i: usize = 0;
    while i < a.len()
        invariant
            i <= a@.len() == l@.len(),
            l@ == lit@,
            forall|j: int| 0 <= j < i ==> a@[j] == l@[j],
        decreases a@.len() - i,
    {
        if a[i] != l[i] {
            return false;
        }
        i += 1;
    }
    assert(a@ =~= l@);
    true
}

/// Whether `p` occurs in `s` as a contiguous piece (`str::contains`).
pub open spec fn has_piece(s: Seq<char>, p: Seq<char>) -> bool {
    exists|i: int| 0 <= i && i + p.len() <= s.len() && #[trigger] s.subrange(i, i + p.len()) == p
}

/// Whether `p` occurs in `s` starting at `at`.
fn piece_at(s: &[char], p: &[char], at: usize) -> (b: bool)
    requires
        at + p@.len() <= s@.len(),
    ensures
        b == (s@.subrange(at as int, at + p@.len()) == p@),
{
    let sl = s.len();
    let mut k: usize = 0;
    while k < p.len()
        invariant
            k <= p@.len(),
            sl == s@.len(),
            at + p@.len() <= s@.len(),
            forall|j: int| 0 <= j < k ==> s@[at + j] == p@[j],
        decreases p@.len() - k,
    {
        if s[at + k] != p[k] {
            assert(s@.subrange(at as int, at + p@.len())[k as int] != p@[k as int]);
            return false;
        }
        k += 1;
    }
    assert(s@.subrange(at as int, at + p@.len()) =~= p@);
    true
}

/// Whether `lit` occurs in `s` (`str::contains`).
pub fn contains_str(s: &[char], lit: &str) -> (b: bool)
    ensures
        b == has_piece(s@, lit@),
{
    let p = str_chars(lit);
    if p.len() > s.len() {
        return false;
    }
    let last = s.len() - p.len();
    let mut i: usize = 0;
    while i < last
        invariant
            p@ == lit@,
            i <= last,
            last + p@.len() == s@.len(),
            forall|j: int| 0 <= j < i ==> #[trigger] s@.subrange(j, j + p@.len()) != p@,
        decreases last - i,
    {
        if piece_at(s, p.as_slice(), i) {
            return true;
        }
        i += 1;
    }
    if piece_at(s, p.as_slice(), last) {
        return true;
    }
    assert forall|j: int| 0 <= j && j + p@.len() <= s@.len() implies #[trigger] s@.subrange(
        j,
        j + p@.len(),
    ) != p@ by {
        if j < last {
        }
    }
    false
}

/// Index of the first occurrence of `c` in `s`.
pub open spec fn find_first(s: Seq<char>, c: char) -> Option<nat>
    decreases s.len(),
{
    if s.len() == 0 {
        None
    } else if s[0] == c {
        Some(0)
    } else {
        match find_first(s.drop_first(), c) {
            Some(k) => Some(k + 1),
            None => None,
        }
    }
}

/// `find_first` agrees with a direct description of the first occurrence.
pub proof fn lemma_find_first(s: Seq<char>, c: char, i: int)
    requires
        0 <= i <= s.len(),
        forall|j: int| 0 <= j < i ==> s[j] != c,
        i == s.len() || s[i] == c,
    ensures
        find_first(s, c) == (if i == s.len() { None } else { Some(i as nat) }),
    decreases s.len(),
{
    if s.len() > 0 && i > 0 {
        lemma_find_first(s.drop_first(), c, i - 1);
    }
}

/// Position of the first occurrence of `c` in `v`.
pub fn find_char(v: &[char], c: char) -> (r: Option<usize>)
    ensures
        match r {
            Some(i) => i < v@.len() && v@[i as int] == c && forall|j: int| 0 <= j < i ==> v@[j] != c,
            None => forall|j: int| 0 <= j < v@.len() ==> v@[j] != c,
        },
        r matches Some(i) ==> find_first(v@, c) == Some(i as nat),
        r is None ==> find_first(v@, c) is None,
{
    proof {
        if v@.len() == 0 {
            lemma_find_first(v@, c, 0);
        }
    }
    let mut i: usize = 0;
    while i < v.len()
        invariant
            i <= v@.len(),
            forall|j: int| 0 <= j < i ==> v@[j] != c,
        decreases v@.len() - i,
    {
        if v[i] == c {
            proof {
                lemma_find_first(v@, c, i as int);
            }
            return Some(i);
        }
        i += 1;
    }
    proof {
        lemma_find_first(v@, c, v@.len() as int);
    }
    None
}

/// Append the characters of `lit` to `out`.
pub fn push_str(out: &mut Vec<char>, lit: &str)
    ensures
        final(out)@ == old(out)@ + lit@,
{
    let l = str_chars(lit);
    let mut i: usize = 0;
    while i < l.len()
        invariant
            i <= l@.len(),
            l@ == lit@,
            out@ == old(out)@ + l@.take(i as int),
        decreases l@.len() - i,
    {
        out.push(l[i]);
        assert(l@.take(i + 1) =~= l@.take(i as int).push(l@[i as int]));
        i += 1;
    }
    assert(l@.take(l@.len() as int) =~= l@);
}

/// Append all of `src` to `out`.
pub fn push_chars(out: &mut Vec<char>, src: &[char])
    ensures
        final(out)@ == old(out)@ + src@,
{
    let mut i: usize = 0;
    while i < src.len()
        invariant
            i <= src@.len(),
            out@ == old(out)@ + src@.take(i as int),
        decreases src@.len() - i,
    {
        out.push(src[i]);
        assert(src@.take(i + 1) =~= src@.take(i as int).push(src@[i as int]));
        i += 1;
    }
    assert(src@.take(src@.len() as int) =~= src@);
}

/// The character for the decimal digit `d`.
pub fn digit_to_char(d: u64) -> (c: char)
    requires
        d < 10,
    ensures
        c == digit_char(d as int),
{
    let b = d as u8;
    (b + 48) as char
}

/// Append the decimal rendering of `n` (no leading zeros).
pub fn push_decimal(out: &mut Vec<char>, n: u128)
    ensures
        final(out)@ == old(out)@ + decimal_seq(n as nat),
    decreases n,
{
    if n >= 10 {
        push_decimal(out, n / 10);
    }
    out.push(digit_to_char((n % 10) as u64));
    proof {
        if n >= 10 {
            assert(decimal_seq(n as nat) == decimal_seq((n / 10) as nat).push(digit_char((n % 10) as int)));
        }
    }
}

/// The texts of `s` one after another.
pub open spec fn join_all(s: Seq<Seq<char>>) -> Seq<char>
    decreases s.len(),
{
    if s.len() == 0 {
        Seq::empty()
    } else {
        join_all(s.drop_last()) + s.last()
    }
}

/// Joining one more piece appends it.
pub proof fn lemma_join_next(f: spec_fn(int) -> Seq<char>, n: nat)
    ensures
        join_all(Seq::new(n + 1, f)) == join_all(Seq::new(n, f)) + f(n as int),
{
    assert(Seq::new(n + 1, f).drop_last() =~= Seq::new(n, f));
}

/// ASCII bytes of the decimal rendering of `n`.
pub open spec fn decimal_bytes(n: nat) -> Seq<u8>
    decreases n,
{
    if n < 10 {
        seq![(48 + n) as u8]
    } else {
        decimal_bytes(n / 10).push((48 + n % 10) as u8)
    }
}

/// Append the ASCII decimal rendering of `n`.
pub fn push_decimal_bytes(out: &mut Vec<u8>, n: u128)
    ensures
        final(out)@ == old(out)@ + decimal_bytes(n as nat),
    decreases n,
{
    if n >= 10 {
        push_decimal_bytes(out, n / 10);
    }
    out.push((48 + n % 10) as u8);
    proof {
        if n >= 10 {
            assert(decimal_bytes(n as nat) == decimal_bytes((n / 10) as nat).push((48 + n % 10) as u8));
        }
    }
}

/// Append the bytes of `lit` (ASCII text).
pub fn push_ascii(out: &mut Vec<u8>, lit: &[u8])
    ensures
        final(out)@ == old(out)@ + lit@,
{
    let mut i: usize = 0;
    while i < lit.len()
        invariant
            i <= lit@.len(),
            out@ == old(out)@ + lit@.take(i as int),
        decreases lit@.len() - i,
    {
        out.push(lit[i]);
        assert(lit@.take(i + 1) =~= lit@.take(i as int).push(lit@[i as int]));
        i += 1;
    }
    assert(lit@.take(lit@.len() as int) =~= lit@);
}

/// Pieces of `s` between occurrences of `c` (`str::split` with a char).
pub open spec fn split_on(s: Seq<char>, c: char) -> Seq<Seq<char>>
    decreases s.len(),
{
    match find_first(s, c) {
        None => seq![s],
        Some(k) => {
            if k < s.len() {
                seq![s.take(k as int)] + split_on(s.skip(k as int + 1), c)
            } else {
                seq![s]
            }
        },
    }
}

/// `s` without one trailing carriage return.
pub open spec fn strip_cr(s: Seq<char>) -> Seq<char> {
    if s.len() > 0 && s.last() == '\r' {
        s.drop_last()
    } else {
        s
    }
}

/// Lines of `s` (`str::lines`): split at `\n` or `\r\n`; a final line ending
/// adds no empty line.
pub open spec fn lines_of(s: Seq<char>) -> Seq<Seq<char>>
    decreases s.len(),
{
    if s.len() == 0 {
        Seq::empty()
    } else {
        match find_first(s, '\n') {
            None => seq![s],
            Some(k) => {
                if k < s.len() {
                    seq![strip_cr(s.take(k as int))] + lines_of(s.skip(k as int + 1))
                } else {
                    seq![s]
                }
            },
        }
    }
}

proof fn lemma_find_first_bound(s: Seq<char>, c: char)
    ensures
        find_first(s, c) matches Some(k) ==> k < s.len() && s[k as int] == c,
    decreases s.len(),
{
    if s.len() > 0 && s[0] != c {
        lemma_find_first_bound(s.drop_first(), c);
    }
}

/// `str::split` on a single character.
pub fn split_chars(v: &[char], c: char) -> (r: Vec<Vec<char>>)
    ensures
        r@.len() == split_on(v@, c).len(),
        forall|i: int| 0 <= i < r@.len() ==> #[trigger] r@[i]@ == split_on(v@, c)[i],
    decreases v@.len(),
{
    proof {
        lemma_find_first_bound(v@, c);
    }
    match find_char(v, c) {
        None => {
            let mut r: Vec<Vec<char>> = Vec::new();
            r.push(copy_range(v, 0, v.len()));
            assert(v@.subrange(0, v@.len() as int) =~= v@);
            r
        },
        Some(k) => {
            assert(k < v.len());
            let head = copy_range(v, 0, k);
            let rest = copy_range(v, k + 1, v.len());
            let tail = split_chars(rest.as_slice(), c);
            let mut r: Vec<Vec<char>> = Vec::new();
            r.push(head);
            let mut i: usize = 0;
            while i < tail.len()
                invariant
                    i <= tail@.len(),
                    r@.len() == i + 1,
                    r@[0]@ == v@.take(k as int),
                    forall|j: int| 0 <= j < i ==> #[trigger] r@[j + 1]@ == tail@[j]@,
                decreases tail@.len() - i,
            {
                r.push(copy_range(tail[i].as_slice(), 0, tail[i].len()));
                assert(tail@[i as int]@.subrange(0, tail@[i as int]@.len() as int) =~= tail@[i as int]@);
                i += 1;
            }
            assert(rest@ =~= v@.skip(k as int + 1));
            assert(v@.take(k as int) =~= v@.subrange(0, k as int));
            let ghost expect = split_on(v@, c);
            assert(expect == seq![v@.take(k as int)] + split_on(v@.skip(k as int + 1), c));
            assert forall|j: int| 0 <= j < r@.len() implies #[trigger] r@[j]@ == expect[j] by {
                if j > 0 {
                    assert(r@[(j - 1) + 1]@ == tail@[j - 1]@);
                }
            }
            r
        },
    }
}

/// `str::lines`.
pub fn split_lines(v: &[char]) -> (r: Vec<Vec<char>>)
    ensures
        r@.len() == lines_of(v@).len(),
        forall|i: int| 0 <= i < r@.len() ==> #[trigger] r@[i]@ == lines_of(v@)[i],
    decreases v@.len(),
{
    proof {
        lemma_find_first_bound(v@, '\n');
    }
    if v.len() == 0 {
        return Vec::new();
    }
    match find_char(v, '\n') {
        None => {
            let mut r: Vec<Vec<char>> = Vec::new();
            r.push(copy_range(v, 0, v.len()));
            assert(v@.subrange(0, v@.len() as int) =~= v@);
            r
        },
        Some(k) => {
            let mut head = copy_range(v, 0, k);
            if head.len() > 0 && head[head.len() - 1] == '\r' {
                head.pop();
            }
            assert(v@.take(k as int) =~= v@.subrange(0, k as int));
            assert(k < v.len());
            let rest = copy_range(v, k + 1, v.len());
            let tail = split_lines(rest.as_slice());
            let mut r: Vec<Vec<char>> = Vec::new();
            r.push(head);
            let mut i: usize = 0;
            while i < tail.len()
                invariant
                    i <= tail@.len(),
                    r@.len() == i + 1,
                    r@[0]@ == strip_cr(v@.take(k as int)),
                    forall|j: int| 0 <= j < i ==> #[trigger] r@[j + 1]@ == tail@[j]@,
                decreases tail@.len() - i,
            {
                r.push(copy_range(tail[i].as_slice(), 0, tail[i].len()));
                assert(tail@[i as int]@.subrange(0, tail@[i as int]@.len() as int) =~= tail@[i as int]@);
                i += 1;
            }
            assert(rest@ =~= v@.skip(k as int + 1));
            let ghost expect = lines_of(v@);
            assert(expect == seq![strip_cr(v@.take(k as int))] + lines_of(v@.skip(k as int + 1)));
            assert forall|j: int| 0 <= j < r@.len() implies #[trigger] r@[j]@ == expect[j] by {
                if j > 0 {
                    assert(r@[(j - 1) + 1]@ == tail@[j - 1]@);
                }
            }
            r
        },
    }
}

/// Value of a run of ASCII digits.
pub open spec fn digits_value(s: Seq<char>) -> int
    decreases s.len(),
{
    if s.len() == 0 {
        0
    } else {
        digits_value(s.drop_last()) * 10 + digit_value(s.last())
    }
}

/// Digits after an optional leading `+`.
pub open spec fn unsigned_digits(s: Seq<char>) -> Seq<char> {
    if s.len() > 0 && s[0] == '+' {
        s.drop_first()
    } else {
        s
    }
}

/// `str::parse::<usize>`: an optional `+`, then one or more ASCII digits whose
/// value fits a `usize`.
pub open spec fn spec_parse_usize(s: Seq<char>) -> Option<usize> {
    let d = unsigned_digits(s);
    if d.len() > 0 && (forall|i: int| 0 <= i < d.len() ==> is_ascii_digit(#[trigger] d[i]))
        && digits_value(d) <= usize::MAX {
        Some(digits_value(d) as usize)
    } else {
        None
    }
}

pub proof fn lemma_digits_value_mono(s: Seq<char>, k: int)
    requires
        0 <= k <= s.len(),
        forall|i: int| 0 <= i < s.len() ==> is_ascii_digit(#[trigger] s[i]),
    ensures
        0 <= digits_value(s.take(k)) <= digits_value(s),
    decreases s.len() - k,
{
    if k < s.len() {
        lemma_digits_value_mono(s, k + 1);
        assert(s.take(k + 1).drop_last() =~= s.take(k));
    } else {
        assert(s.take(k) =~= s);
    }
    if k > 0 {
        lemma_digits_value_nonneg(s.take(k));
    }
}

proof fn lemma_digits_value_nonneg(s: Seq<char>)
    requires
        forall|i: int| 0 <= i < s.len() ==> is_ascii_digit(#[trigger] s[i]),
    ensures
        digits_value(s) >= 0,
    decreases s.len(),
{
    if s.len() > 0 {
        lemma_digits_value_nonneg(s.drop_last());
    }
}

/// `str::parse::<usize>` on a character sequence.
pub fn parse_usize(s: &[char]) -> (r: Option<usize>)
    ensures
        r == spec_parse_usize(s@),
{
    let start: usize = if s.len() > 0 && s[0] == '+' {
        1
    } else {
        0
    };
    let d = copy_range(s, start, s.len());
    assert(d@ =~= unsigned_digits(s@));
    if d.len() == 0 {
        return None;
    }
    let mut i: usize = 0;
    while i < d.len()
        invariant
            i <= d@.len(),
            d@ == unsigned_digits(s@),
            forall|j: int| 0 <= j < i ==> is_ascii_digit(#[trigger] d@[j]),
        decreases d@.len() - i,
    {
        if !('0' <= d[i] && d[i] <= '9') {
            assert(!is_ascii_digit(d@[i as int]));
            return None;
        }
        i += 1;
    }
    let mut v: usize = 0;
    let mut k: usize = 0;
    while k < d.len()
        invariant
            k <= d@.len(),
            d@ == unsigned_digits(s@),
            forall|j: int| 0 <= j < d@.len() ==> is_ascii_digit(#[trigger] d@[j]),
            v == digits_value(d@.take(k as int)),
        decreases d@.len() - k,
    {
        let dv = (d[k] as u32 - 48) as usize;
        assert(d@.take(k + 1).drop_last() =~= d@.take(k as int));
        if v > (usize::MAX - dv) / 10 {
            proof {
                lemma_digits_value_mono(d@, k + 1);
                let m = usize::MAX as int;
                assert(v * 10 + dv > m) by (nonlinear_arith)
                    requires
                        v > (m - dv) / 10,
                        0 <= dv <= 9,
                        m > 9,
                ;
                assert(digits_value(d@.take(k + 1)) == v * 10 + dv);
            }
            return None;
        }
        v = v * 10 + dv;
        k += 1;
    }
    assert(d@.take(d@.len() as int) =~= d@);
    Some(v)
}

/// `s` with every blank removed.
pub open spec fn drop_ws(s: Seq<char>) -> Seq<char> {
    s.filter(|c: char| !is_ws(c))
}

/// Append the non-blank characters of `src` to `out`.
pub fn push_non_ws(out: &mut Vec<char>, src: &[char])
    ensures
        final(out)@ == old(out)@ + drop_ws(src@),
{
    let mut i: usize = 0;
    while i < src.len()
        invariant
            i <= src@.len(),
            out@ == old(out)@ + drop_ws(src@.take(i as int)),
        decreases src@.len() - i,
    {
        let c = src[i];
        proof {
            assert(src@.take(i + 1).drop_last() =~= src@.take(i as int));
            src@.take(i as int).lemma_filter_push(c, |c: char| !is_ws(c));
            assert(src@.take(i as int).push(c) =~= src@.take(i + 1));
        }
        if !is_whitespace(c) {
            out.push(c);
        }
        i += 1;
    }
    assert(src@.take(src@.len() as int) =~= src@);
}

/// `lines_of` splits off a first line that holds no newline.
pub proof fn lemma_lines_of_line(s: Seq<char>, t: Seq<char>)
    requires
        forall|i: int| 0 <= i < s.len() ==> #[trigger] s[i] != '\n',
    ensures
        lines_of(s + seq!['\n'] + t) == seq![strip_cr(s)] + lines_of(t),
{
    let u = s + seq!['\n'] + t;
    lemma_find_first(u, '\n', s.len() as int);
    assert(u.take(s.len() as int) =~= s);
    assert(u.skip(s.len() as int + 1) =~= t);
}

/// `split_on` splits off a first piece that holds no separator.
pub proof fn lemma_split_on_piece(a: Seq<char>, b: Seq<char>, c: char)
    requires
        forall|i: int| 0 <= i < a.len() ==> #[trigger] a[i] != c,
    ensures
        split_on(a + seq![c] + b, c) == seq![a] + split_on(b, c),
{
    let u = a + seq![c] + b;
    lemma_find_first(u, c, a.len() as int);
    assert(u.take(a.len() as int) =~= a);
    assert(u.skip(a.len() as int + 1) =~= b);
}

/// Text without the separator is a single piece.
pub proof fn lemma_split_on_whole(a: Seq<char>, c: char)
    requires
        forall|i: int| 0 <= i < a.len() ==> #[trigger] a[i] != c,
    ensures
        split_on(a, c) == seq![a],
{
    lemma_find_first(a, c, a.len() as int);
}

/// Text that neither starts nor ends with a blank is its own trim.
pub proof fn lemma_trim_plain(s: Seq<char>)
    requires
        s.len() > 0,
        !is_ws(s[0]),
        !is_ws(s.last()),
    ensures
        trim_seq(s) == s,
{
}

/// Leading blanks do not change a trim.
pub proof fn lemma_trim_skip_lead(a: Seq<char>, s: Seq<char>)
    requires
        forall|i: int| 0 <= i < a.len() ==> is_ws(#[trigger] a[i]),
    ensures
        trim_seq(a + s) == trim_seq(s),
{
    lemma_trim_start_skip(a + s, a.len() as int);
    assert((a + s).subrange(a.len() as int, (a + s).len() as int) =~= s);
}

/// Trailing blanks do not change a trim.
pub proof fn lemma_trim_skip_trail(s: Seq<char>, a: Seq<char>)
    requires
        forall|i: int| 0 <= i < a.len() ==> is_ws(#[trigger] a[i]),
        s.len() > 0,
        !is_ws(s[0]),
    ensures
        trim_seq(s + a) == trim_end_seq(s),
{
    assert(trim_start_seq(s + a) == s + a);
    lemma_trim_end_skip(s + a, s.len() as int);
    assert((s + a).subrange(0, s.len() as int) =~= s);
}

/// Facts on the decimal text of a number.
pub proof fn lemma_decimal_seq(n: nat)
    ensures
        decimal_seq(n).len() >= 1,
        forall|i: int| 0 <= i < decimal_seq(n).len() ==> is_ascii_digit(#[trigger] decimal_seq(n)[i]),
        digits_value(decimal_seq(n)) == n,
        n > 1 ==> decimal_seq(n).len() >= 1,
    decreases n,
{
    if n >= 10 {
        lemma_decimal_seq(n / 10);
        let d = decimal_seq(n / 10);
        assert(decimal_seq(n).drop_last() =~= d);
        assert(decimal_seq(n).last() == digit_char((n % 10) as int));
        assert(digit_value(digit_char((n % 10) as int)) == n % 10);
        assert((n / 10) * 10 + n % 10 == n);
        assert(digits_value(decimal_seq(n)) == digits_value(d) * 10 + digit_value(decimal_seq(n).last()));
    } else {
        assert(decimal_seq(n).drop_last() =~= Seq::<char>::empty());
        assert(digit_value(digit_char(n as int)) == n);
        assert(digits_value(Seq::<char>::empty()) == 0);
        assert(digits_value(decimal_seq(n)) == digits_value(decimal_seq(n).drop_last()) * 10 + digit_value(decimal_seq(n).last()));
    }
}

/// The decimal text of a `usize` parses back to it.
pub proof fn lemma_parse_decimal(n: usize)
    ensures
        spec_parse_usize(decimal_seq(n as nat)) == Some(n),
{
    lemma_decimal_seq(n as nat);
    let d = decimal_seq(n as nat);
    assert(unsigned_digits(d) == d);
}

/// `str::trim_start` on a character sequence.
pub fn trim_start_chars(v: &[char]) -> (r: Vec<char>)
    ensures
        r@ == trim_start_seq(v@),
{
    let n = v.len();
    let mut lo: usize = 0;
    while lo < n && is_whitespace(v[lo])
        invariant
            lo <= n == v@.len(),
            forall|j: int| 0 <= j < lo ==> is_ws(#[trigger] v@[j]),
        decreases n - lo,
    {
        lo += 1;
    }
    proof {
        lemma_trim_start_skip(v@, lo as int);
    }
    copy_range(v, lo, n)
}

/// `str::trim_end` on a character sequence.
pub fn trim_end_chars(v: &[char]) -> (r: Vec<char>)
    ensures
        r@ == trim_end_seq(v@),
{
    let n = v.len();
    let mut hi: usize = n;
    while hi > 0 && is_whitespace(v[hi - 1])
        invariant
            hi <= n == v@.len(),
            forall|j: int| hi <= j < n ==> is_ws(#[trigger] v@[j]),
        decreases hi,
    {
        hi -= 1;
    }
    proof {
        lemma_trim_end_skip(v@, hi as int);
        let u = v@.subrange(0, hi as int);
        if u.len() > 0 {
            assert(!is_ws(u.last()));
        }
        assert(trim_end_seq(u) == u);
    }
    copy_range(v, 0, hi)
}

/// `t` begins with `p`.
pub open spec fn starts_with(t: Seq<char>, p: Seq<char>) -> bool {
    p.len() <= t.len() && t.take(p.len() as int) == p
}

/// `str::starts_with` with a literal prefix.
pub fn chars_start_with(t: &[char], lit: &str) -> (b: bool)
    ensures
        b == starts_with(t@, lit@),
{
    let p = str_chars(lit);
    if p.len() > t.len() {
        return false;
    }
    let head = copy_range(t, 0, p.len());
    assert(head@ =~= t@.take(p@.len() as int));
    chars_eq_str(head.as_slice(), lit)
}

/// Index of the first blank of `s` (its length when there is none).
pub open spec fn ws_index(s: Seq<char>) -> nat
    decreases s.len(),
{
    if s.len() == 0 {
        0
    } else if is_ws(s[0]) {
        0
    } else {
        ws_index(s.drop_first()) + 1
    }
}

pub proof fn lemma_ws_index(s: Seq<char>)
    ensures
        ws_index(s) <= s.len(),
        forall|j: int| 0 <= j < ws_index(s) ==> !is_ws(#[trigger] s[j]),
        ws_index(s) < s.len() ==> is_ws(s[ws_index(s) as int]),
    decreases s.len(),
{
    if s.len() > 0 && !is_ws(s[0]) {
        lemma_ws_index(s.drop_first());
        assert forall|j: int| 0 <= j < ws_index(s) implies !is_ws(#[trigger] s[j]) by {
            if j > 0 {
                assert(s[j] == s.drop_first()[j - 1]);
            }
        }
    }
}

pub proof fn lemma_trim_start_len(s: Seq<char>)
    ensures
        trim_start_seq(s).len() <= s.len(),
        trim_start_seq(s).len() > 0 ==> !is_ws(trim_start_seq(s)[0]),
    decreases s.len(),
{
    if s.len() > 0 && is_ws(s[0]) {
        lemma_trim_start_len(s.drop_first());
    }
}

/// Blank-separated words of `s` (`str::split_whitespace`).
pub open spec fn words(s: Seq<char>) -> Seq<Seq<char>>
    decreases s.len(),
{
    let t = trim_start_seq(s);
    if t.len() == 0 {
        Seq::empty()
    } else {
        proof {
            lemma_trim_start_len(s);
            lemma_ws_index(t);
        }
        let k = ws_index(t);
        if k == 0 {
            Seq::empty()
        } else {
            seq![t.take(k as int)] + words(t.skip(k as int))
        }
    }
}

/// The first two blank-separated words of `s`, as many as there are.
pub fn first_words(v: &[char]) -> (r: Vec<Vec<char>>)
    ensures
        r@.len() == (if words(v@).len() < 2 {
            words(v@).len()
        } else {
            2
        }),
        forall|i: int| 0 <= i < r@.len() ==> #[trigger] r@[i]@ == words(v@)[i],
    decreases v@.len(),
{
    let t = trim_start_chars(v);
    proof {
        lemma_trim_start_len(v@);
        lemma_ws_index(t@);
    }
    let mut r: Vec<Vec<char>> = Vec::new();
    if t.len() == 0 {
        return r;
    }
    let mut k: usize = 0;
    while k < t.len() && !is_whitespace(t[k])
        invariant
            k <= t@.len(),
            forall|j: int| 0 <= j < k ==> !is_ws(#[trigger] t@[j]),
        decreases t@.len() - k,
    {
        k += 1;
    }
    assert(k == ws_index(t@)) by {
        lemma_ws_index_at(t@, k as int);
    }
    r.push(copy_range(t.as_slice(), 0, k));
    let rest = copy_range(t.as_slice(), k, t.len());
    assert(rest@ =~= t@.skip(k as int));
    assert(k >= 1);
    assert(words(v@) == seq![t@.take(k as int)] + words(rest@));
    let t2 = trim_start_chars(rest.as_slice());
    proof {
        lemma_trim_start_len(rest@);
        lemma_ws_index(t2@);
    }
    if t2.len() > 0 {
        let mut k2: usize = 0;
        while k2 < t2.len() && !is_whitespace(t2[k2])
            invariant
                k2 <= t2@.len(),
                forall|j: int| 0 <= j < k2 ==> !is_ws(#[trigger] t2@[j]),
            decreases t2@.len() - k2,
        {
            k2 += 1;
        }
        assert(k2 == ws_index(t2@)) by {
            lemma_ws_index_at(t2@, k2 as int);
        }
        r.push(copy_range(t2.as_slice(), 0, k2));
        assert(t2@.take(k2 as int) =~= t2@.subrange(0, k2 as int));
        assert(k2 >= 1);
        assert(words(rest@) == seq![t2@.take(k2 as int)] + words(t2@.skip(k2 as int)));
    } else {
        assert(words(rest@) == Seq::<Seq<char>>::empty());
    }
    assert(t@.take(k as int) =~= t@.subrange(0, k as int));
    r
}

pub proof fn lemma_ws_index_at(s: Seq<char>, k: int)
    requires
        0 <= k <= s.len(),
        forall|j: int| 0 <= j < k ==> !is_ws(#[trigger] s[j]),
        k == s.len() || is_ws(s[k]),
    ensures
        ws_index(s) == k,
    decreases k,
{
    if k > 0 {
        lemma_ws_index_at(s.drop_first(), k - 1);
    }
}

/// Digits after an optional leading `+` or `-`.
pub open spec fn signed_digits(s: Seq<char>) -> Seq<char> {
    if s.len() > 0 && (s[0] == '-' || s[0] == '+') {
        s.drop_first()
    } else {
        s
    }
}

/// `str::parse::<i64>`: an optional `+` or `-`, then one or more ASCII digits
/// whose signed value fits an `i64`.
pub open spec fn spec_parse_i64(s: Seq<char>) -> Option<i64> {
    let neg = s.len() > 0 && s[0] == '-';
    let d = signed_digits(s);
    if d.len() > 0 && (forall|i: int| 0 <= i < d.len() ==> is_ascii_digit(#[trigger] d[i])) {
        let v = if neg {
            -digits_value(d)
        } else {
            digits_value(d)
        };
        if i64::MIN <= v <= i64::MAX {
            Some(v as i64)
        } else {
            None
        }
    } else {
        None
    }
}

/// `str::parse::<i64>` on a character sequence.
pub fn parse_i64(s: &[char]) -> (r: Option<i64>)
    ensures
        r == spec_parse_i64(s@),
{
    let neg = s.len() > 0 && s[0] == '-';
    let start: usize = if s.len() > 0 && (s[0] == '-' || s[0] == '+') {
        1
    } else {
        0
    };
    let d = copy_range(s, start, s.len());
    assert(d@ =~= signed_digits(s@));
    if d.len() == 0 {
        return None;
    }
    let mut i: usize = 0;
    while i < d.len()
        invariant
            i <= d@.len(),
            d@ == signed_digits(s@),
            forall|j: int| 0 <= j < i ==> is_ascii_digit(#[trigger] d@[j]),
        decreases d@.len() - i,
    {
        if !('0' <= d[i] && d[i] <= '9') {
            assert(!is_ascii_digit(d@[i as int]));
            return None;
        }
        i += 1;
    }
    let limit: u64 = if neg {
        9223372036854775808
    } else {
        9223372036854775807
    };
    let mut v: u64 = 0;
    let mut k: usize = 0;
    while k < d.len()
        invariant
            k <= d@.len(),
            d@ == signed_digits(s@),
            d@.len() > 0,
            neg == (s@.len() > 0 && s@[0] == '-'),
            forall|j: int| 0 <= j < d@.len() ==> is_ascii_digit(#[trigger] d@[j]),
            v == digits_value(d@.take(k as int)),
            v <= limit,
            limit == (if neg {
                9223372036854775808u64
            } else {
                9223372036854775807u64
            }),
        decreases d@.len() - k,
    {
        let dv = (d[k] as u32 - 48) as u64;
        assert(d@.take(k + 1).drop_last() =~= d@.take(k as int));
        assert(dv == digit_value(d@[k as int]));
        if v > (limit - dv) / 10 {
            proof {
                lemma_digits_value_mono(d@, k + 1);
                assert(v * 10 + dv > limit) by (nonlinear_arith)
                    requires
                        v > (limit - dv) / 10,
                        0 <= dv <= 9,
                        limit > 9,
                ;
                assert(digits_value(d@.take(k + 1)) == v * 10 + dv);
                assert(d@.take(d@.len() as int) =~= d@);
            }
            return None;
        }
        v = v * 10 + dv;
        k += 1;
    }
    assert(d@.take(d@.len() as int) =~= d@);
    if neg {
        if v == 9223372036854775808 {
            Some(-9223372036854775807i64 - 1)
        } else {
            Some(-(v as i64))
        }
    } else {
        Some(v as i64)
    }
}

} // verus!
