//! Command-line configuration and the decisions of the simulation loop.
//!
//! Reading the arguments, the terminal, the clock and the file system is the
//! caller's part; this module turns what it reads into configuration, state
//! changes and text.

use vstd::prelude::*;
use crate::render::{spec_parse_style, style_error, Style};
use crate::rule::{spec_parse_ca_rule, spec_rule_error, CaRule, Rule};
use crate::text::{
    digit_value, find_char, find_first, is_ascii_digit, lower_chars, lower_seq, str_chars,
    chars_eq_str, copy_range, push_chars, push_str, starts_with, string_from_chars,
    chars_start_with,
};
use crate::theme::{spec_parse_theme, theme_error, Theme};

verus! {

/// Why `str::parse` rejects a text as an unsigned integer.
#[derive(Debug, Clone, Copy, PartialEq, Eq, Structural)]
pub enum IntFault {
    Empty,
    InvalidDigit,
    Overflow,
}

/// The message std's `ParseIntError` displays for each fault.
pub open spec fn int_fault_text(f: IntFault) -> Seq<char> {
    match f {
        IntFault::Empty => "cannot parse integer from empty string"@,
        IntFault::InvalidDigit => "invalid digit found in string"@,
        IntFault::Overflow => "number too large to fit in target type"@,
    }
}

/// Digits read left to right: the first character that is not a digit, or
/// the first digit that takes the value past `max`, stops the reading.
pub open spec fn scan_uint(d: Seq<char>, max: int) -> Result<int, IntFault>
    decreases d.len(),
{
    if d.len() == 0 {
        Ok(0)
    } else {
        match scan_uint(d.drop_last(), max) {
            Err(e) => Err(e),
            Ok(v) => if !is_ascii_digit(d.last()) {
                Err(IntFault::InvalidDigit)
            } else if v * 10 + digit_value(d.last()) > max {
                Err(IntFault::Overflow)
            } else {
                Ok(v * 10 + digit_value(d.last()))
            },
        }
    }
}

/// `str::parse` for an unsigned integer type whose largest value is `max`:
/// an optional `+`, then decimal digits.
pub open spec fn spec_parse_uint(s: Seq<char>, max: int) -> Result<int, IntFault> {
    if s.len() == 0 {
        Err(IntFault::Empty)
    } else if s.len() == 1 && (s[0] == '+' || s[0] == '-') {
        Err(IntFault::InvalidDigit)
    } else if s[0] == '+' {
        scan_uint(s.drop_first(), max)
    } else {
        scan_uint(s, max)
    }
}

proof fn lemma_scan_bound(d: Seq<char>, max: int)
    requires
        max >= 0,
    ensures
        scan_uint(d, max) matches Ok(v) ==> 0 <= v <= max,
    decreases d.len(),
{
    if d.len() > 0 {
        lemma_scan_bound(d.drop_last(), max);
    }
}

/// Read the digits `s[from..]` as `scan_uint` does.
fn scan_digits(s: &[char], from: usize, max: u64) -> (r: Result<u64, IntFault>)
    requires
        from <= s@.len(),
    ensures
        match r {
            Ok(v) => scan_uint(s@.skip(from as int), max as int) == Ok::<int, IntFault>(v as int),
            Err(e) => scan_uint(s@.skip(from as int), max as int) == Err::<int, IntFault>(e),
        },
{
    let ghost d = s@.skip(from as int);
    let mut v: u64 = 0;
    let mut i: usize = from;
    while i < s.len()
        invariant
            from <= i <= s@.len(),
            d == s@.skip(from as int),
            scan_uint(d.take(i - from), max as int) == Ok::<int, IntFault>(v as int),
            v <= max,
        decreases s@.len() - i,
    {
        let ghost t = d.take(i + 1 - from);
        assert(t.drop_last() =~= d.take(i - from));
        assert(t.last() == s@[i as int]);
        let c = s[i];
        if !('0' <= c && c <= '9') {
            proof {
                lemma_scan_prefix_err(d, (i + 1 - from) as int, max as int, IntFault::InvalidDigit);
            }
            return Err(IntFault::InvalidDigit);
        }
        let dv = (c as u32 - '0' as u32) as u128;
        let next = (v as u128) * 10 + dv;
        if next > max as u128 {
            proof {
                lemma_scan_prefix_err(d, (i + 1 - from) as int, max as int, IntFault::Overflow);
            }
            return Err(IntFault::Overflow);
        }
        v = next as u64;
        i += 1;
    }
    assert(d.take(s@.len() - from) =~= d);
    Ok(v)
}

/// Once a prefix of the digits fails, the whole reading fails the same way.
proof fn lemma_scan_prefix_err(d: Seq<char>, k: int, max: int, e: IntFault)
    requires
        0 <= k <= d.len(),
        scan_uint(d.take(k), max) == Err::<int, IntFault>(e),
    ensures
        scan_uint(d, max) == Err::<int, IntFault>(e),
    decreases d.len() - k,
{
    if k < d.len() {
        assert(d.take(k + 1).drop_last() =~= d.take(k));
        lemma_scan_prefix_err(d, k + 1, max, e);
    } else {
        assert(d.take(k) =~= d);
    }
}

/// `str::parse` for an unsigned integer type whose largest value is `max`.
pub fn parse_uint(s: &[char], max: u64) -> (r: Result<u64, IntFault>)
    ensures
        match r {
            Ok(v) => spec_parse_uint(s@, max as int) == Ok::<int, IntFault>(v as int),
            Err(e) => spec_parse_uint(s@, max as int) == Err::<int, IntFault>(e),
        },
{
    if s.len() == 0 {
        return Err(IntFault::Empty);
    }
    if s.len() == 1 && (s[0] == '+' || s[0] == '-') {
        return Err(IntFault::InvalidDigit);
    }
    if s[0] == '+' {
        assert(s@.skip(1) =~= s@.drop_first());
        scan_digits(s, 1, max)
    } else {
        assert(s@.skip(0) =~= s@);
        scan_digits(s, 0, max)
    }
}

/// Every character is an ASCII digit.
pub open spec fn all_digits(s: Seq<char>) -> bool {
    forall|i: int| 0 <= i < s.len() ==> is_ascii_digit(#[trigger] s[i])
}

/// Digits with at most one `.` and at least one digit.
pub open spec fn is_mantissa(m: Seq<char>) -> bool {
    match find_first(m, '.') {
        None => m.len() > 0 && all_digits(m),
        Some(p) => m.len() > 1 && all_digits(m.take(p as int)) && all_digits(m.skip(p as int + 1)),
    }
}

/// An optional sign, then one or more digits.
pub open spec fn is_exponent(x: Seq<char>) -> bool {
    let d = if x.len() > 0 && (x[0] == '+' || x[0] == '-') {
        x.drop_first()
    } else {
        x
    };
    d.len() > 0 && all_digits(d)
}

/// A decimal number: mantissa, then optionally `e` and an exponent.
pub open spec fn is_decimal(b: Seq<char>) -> bool {
    match find_first(b, 'e') {
        None => is_mantissa(b),
        Some(k) => is_mantissa(b.take(k as int)) && is_exponent(b.skip(k as int + 1)),
    }
}

/// The texts that `str::parse::<f64>` accepts, as std documents them: when
/// lower-cased, an optional sign, then `inf`, `infinity`, `nan` or a decimal
/// number with an optional exponent.
pub open spec fn is_float_text(s: Seq<char>) -> bool {
    let l = lower_seq(s);
    let b = if l.len() > 0 && (l[0] == '+' || l[0] == '-') {
        l.drop_first()
    } else {
        l
    };
    b == "inf"@ || b == "infinity"@ || b == "nan"@ || is_decimal(b)
}

/// The message std's `ParseFloatError` displays for a rejected text.
pub open spec fn float_fault_text(s: Seq<char>) -> Seq<char> {
    if s.len() == 0 {
        "cannot parse float from empty string"@
    } else {
        "invalid float literal"@
    }
}

fn all_digits_in(s: &[char]) -> (b: bool)
    ensures
        b == all_digits(s@),
{
    let mut i: usize = 0;
    while i < s.len()
        invariant
            i <= s@.len(),
            forall|j: int| 0 <= j < i ==> is_ascii_digit(#[trigger] s@[j]),
        decreases s@.len() - i,
    {
        if !('0' <= s[i] && s[i] <= '9') {
            return false;
        }
        i += 1;
    }
    true
}

fn mantissa_ok(m: &[char]) -> (b: bool)
    ensures
        b == is_mantissa(m@),
{
    let n = m.len();
    match find_char(m, '.') {
        None => {
            proof {
                lemma_no_first(m@, '.');
            }
            m.len() > 0 && all_digits_in(m)
        },
        Some(p) => {
            let head = copy_range(m, 0, p);
            let tail = copy_range(m, p + 1, n);
            assert(head@ =~= m@.take(p as int));
            assert(tail@ =~= m@.skip(p + 1));
            m.len() > 1 && all_digits_in(head.as_slice()) && all_digits_in(tail.as_slice())
        },
    }
}

fn exponent_ok(x: &[char]) -> (b: bool)
    ensures
        b == is_exponent(x@),
{
    if x.len() > 0 && (x[0] == '+' || x[0] == '-') {
        let d = copy_range(x, 1, x.len());
        assert(d@ =~= x@.drop_first());
        d.len() > 0 && all_digits_in(d.as_slice())
    } else {
        x.len() > 0 && all_digits_in(x)
    }
}

/// Where `c` does not occur, `find_first` finds nothing.
proof fn lemma_no_first(s: Seq<char>, c: char)
    requires
        forall|j: int| 0 <= j < s.len() ==> s[j] != c,
    ensures
        find_first(s, c) is None,
    decreases s.len(),
{
    if s.len() > 0 {
        assert forall|j: int| 0 <= j < s.drop_first().len() implies s.drop_first()[j] != c by {
            assert(s.drop_first()[j] == s[j + 1]);
        }
        lemma_no_first(s.drop_first(), c);
    }
}

/// Whether `str::parse::<f64>` accepts the text.
pub fn float_text_ok(s: &[char]) -> (b: bool)
    ensures
        b == is_float_text(s@),
{
    let l = lower_chars(s);
    let b = if l.len() > 0 && (l[0] == '+' || l[0] == '-') {
        copy_range(l.as_slice(), 1, l.len())
    } else {
        copy_range(l.as_slice(), 0, l.len())
    };
    let ghost lv = lower_seq(s@);
    assert(b@ =~= (if lv.len() > 0 && (lv[0] == '+' || lv[0] == '-') {
        lv.drop_first()
    } else {
        lv
    }));
    let bs = b.as_slice();
    if chars_eq_str(bs, "inf") || chars_eq_str(bs, "infinity") || chars_eq_str(bs, "nan") {
        return true;
    }
    match find_char(bs, 'e') {
        None => {
            proof {
                lemma_no_first(b@, 'e');
            }
            mantissa_ok(bs)
        },
        Some(k) => {
            let m = copy_range(bs, 0, k);
            let x = copy_range(bs, k + 1, b.len());
            assert(m@ =~= b@.take(k as int));
            assert(x@ =~= b@.skip(k + 1));
            mantissa_ok(m.as_slice()) && exponent_ok(x.as_slice())
        },
    }
}

/// Configuration read from the command line. Paths are kept as given.
pub struct Config {
    pub w: usize,
    pub h: usize,
    pub gens: u64,
    pub delay_ms: u64,
    pub seed: u64,
    pub pattern: String,
    /// Text given to `--density`, already checked to be a number that
    /// `f64` parsing accepts; the density is 0.25 where it is absent.
    pub density: Option<String>,
    pub load: Option<String>,
    pub save: Option<String>,
    pub save_every: Option<u64>,
    pub dump: Option<String>,
    pub style: Style,
    pub rule: CaRule,
    /// True if the user passed `--rule` on the CLI (overrides RLE header rule).
    pub rule_explicit: bool,
    pub age_heat: bool,
    pub theme: Theme,
    pub wrap: bool,
    pub rotate90: bool,
    pub flip_h: bool,
    pub flip_v: bool,
    pub until_stable: bool,
    pub until_cycle: bool,
    pub analyze: bool,
    pub record_dir: Option<String>,
    pub record_every: u64,
    pub interactive: bool,
    pub quiet: bool,
    pub summary: bool,
    pub color: bool,
    pub stats_path: Option<String>,
    pub export_ppm: Option<String>,
    pub bench: bool,
    pub list_patterns: bool,
    pub list_rules: bool,
    /// `-h` / `--help` was given: print the help and stop.
    pub help: bool,
}

/// What a `Config` holds, with texts as character sequences.
pub struct Settings {
    pub w: usize,
    pub h: usize,
    pub gens: u64,
    pub delay_ms: u64,
    pub seed: u64,
    pub pattern: Seq<char>,
    pub density: Option<Seq<char>>,
    pub load: Option<Seq<char>>,
    pub save: Option<Seq<char>>,
    pub save_every: Option<u64>,
    pub dump: Option<Seq<char>>,
    pub style: Style,
    pub rule: CaRule,
    pub rule_explicit: bool,
    pub age_heat: bool,
    pub theme: Theme,
    pub wrap: bool,
    pub rotate90: bool,
    pub flip_h: bool,
    pub flip_v: bool,
    pub until_stable: bool,
    pub until_cycle: bool,
    pub analyze: bool,
    pub record_dir: Option<Seq<char>>,
    pub record_every: u64,
    pub interactive: bool,
    pub quiet: bool,
    pub summary: bool,
    pub color: bool,
    pub stats_path: Option<Seq<char>>,
    pub export_ppm: Option<Seq<char>>,
    pub bench: bool,
    pub list_patterns: bool,
    pub list_rules: bool,
    pub help: bool,
}

/// The text of an optional string.
#[verifier::opaque]
pub open spec fn opt_text(o: Option<String>) -> Option<Seq<char>> {
    match o {
        Some(s) => Some(s@),
        None => None,
    }
}

/// The text of a present string.
pub proof fn lemma_opt_text(o: Option<String>)
    ensures
        opt_text(o) == (match o {
            Some(s) => Some(s@),
            None => None::<Seq<char>>,
        }),
{
    reveal(opt_text);
}

impl View for Config {
    type V = Settings;

    open spec fn view(&self) -> Settings {
        self.settings()
    }
}

impl Config {
    /// What the configuration holds. Kept folded: a configuration is
    /// compared as a whole, field by field only where one changes.
    #[verifier::opaque]
    pub open spec fn settings(&self) -> Settings {
        Settings {
            w: self.w,
            h: self.h,
            gens: self.gens,
            delay_ms: self.delay_ms,
            seed: self.seed,
            pattern: self.pattern@,
            density: opt_text(self.density),
            load: opt_text(self.load),
            save: opt_text(self.save),
            save_every: self.save_every,
            dump: opt_text(self.dump),
            style: self.style,
            rule: self.rule,
            rule_explicit: self.rule_explicit,
            age_heat: self.age_heat,
            theme: self.theme,
            wrap: self.wrap,
            rotate90: self.rotate90,
            flip_h: self.flip_h,
            flip_v: self.flip_v,
            until_stable: self.until_stable,
            until_cycle: self.until_cycle,
            analyze: self.analyze,
            record_dir: opt_text(self.record_dir),
            record_every: self.record_every,
            interactive: self.interactive,
            quiet: self.quiet,
            summary: self.summary,
            color: self.color,
            stats_path: opt_text(self.stats_path),
            export_ppm: opt_text(self.export_ppm),
            bench: self.bench,
            list_patterns: self.list_patterns,
            list_rules: self.list_rules,
            help: self.help,
        }
    }
}

/// The settings before any argument is read.
pub open spec fn default_settings(seed: u64) -> Settings {
    Settings {
        w: 60,
        h: 30,
        gens: 500,
        delay_ms: 80,
        seed,
        pattern: "random"@,
        density: None,
        load: None,
        save: None,
        save_every: None,
        dump: None,
        style: Style::Block,
        rule: CaRule::LifeLike(crate::rule::conway_rule()),
        rule_explicit: false,
        age_heat: false,
        theme: crate::theme::preset(0),
        wrap: true,
        rotate90: false,
        flip_h: false,
        flip_v: false,
        until_stable: false,
        until_cycle: false,
        analyze: false,
        record_dir: None,
        record_every: 1,
        interactive: false,
        quiet: false,
        summary: false,
        color: true,
        stats_path: None,
        export_ppm: None,
        bench: false,
        list_patterns: false,
        list_rules: false,
        help: false,
    }
}

impl Config {
    /// The defaults, with `seed` for the random pattern (the caller picks a
    /// time-based one).
    pub fn with_seed(seed: u64) -> (c: Self)
        ensures
            c@ == default_settings(seed),
    {
        proof {
            reveal(Config::settings);
            lemma_opt_text(None);
        }
        Config {
            w: 60,
            h: 30,
            gens: 500,
            delay_ms: 80,
            seed,
            pattern: string_from_chars(str_chars("random")),
            density: None,
            load: None,
            save: None,
            save_every: None,
            dump: None,
            style: Style::Block,
            rule: CaRule::LifeLike(Rule::conway()),
            rule_explicit: false,
            age_heat: false,
            theme: Theme::classic(),
            wrap: true,
            rotate90: false,
            flip_h: false,
            flip_v: false,
            until_stable: false,
            until_cycle: false,
            analyze: false,
            record_dir: None,
            record_every: 1,
            interactive: false,
            quiet: false,
            summary: false,
            color: true,
            stats_path: None,
            export_ppm: None,
            bench: false,
            list_patterns: false,
            list_rules: false,
            help: false,
        }
    }
}

/// The arguments the command line knows.
#[derive(Debug, Clone, Copy, PartialEq, Eq, Structural)]
pub enum ArgKind {
    Width,
    Height,
    Gens,
    Delay,
    Seed,
    Pattern,
    Density,
    ListPatterns,
    ListRules,
    Load,
    Save,
    SaveEvery,
    Dump,
    Style,
    Rule,
    Age,
    Theme,
    Finite,
    Rotate90,
    FlipH,
    FlipV,
    UntilStable,
    UntilCycle,
    Analyze,
    Record,
    RecordEvery,
    Interactive,
    Quiet,
    Summary,
    NoColor,
    Stats,
    ExportPpm,
    Bench,
    Help,
    Unknown,
}

/// Which argument a text names.
pub open spec fn arg_kind(a: Seq<char>) -> ArgKind {
    if a == "-W"@ || a == "--width"@ {
        ArgKind::Width
    } else if a == "-H"@ || a == "--height"@ {
        ArgKind::Height
    } else if a == "-g"@ || a == "--gens"@ {
        ArgKind::Gens
    } else if a == "-d"@ || a == "--delay"@ {
        ArgKind::Delay
    } else if a == "-s"@ || a == "--seed"@ {
        ArgKind::Seed
    } else if a == "-p"@ || a == "--pattern"@ {
        ArgKind::Pattern
    } else if a == "--density"@ {
        ArgKind::Density
    } else if a == "--list-patterns"@ {
        ArgKind::ListPatterns
    } else if a == "--list-rules"@ {
        ArgKind::ListRules
    } else if a == "--load"@ {
        ArgKind::Load
    } else if a == "--save"@ {
        ArgKind::Save
    } else if a == "--save-every"@ {
        ArgKind::SaveEvery
    } else if a == "--dump"@ {
        ArgKind::Dump
    } else if a == "--style"@ {
        ArgKind::Style
    } else if a == "--rule"@ {
        ArgKind::Rule
    } else if a == "--age"@ {
        ArgKind::Age
    } else if a == "--theme"@ {
        ArgKind::Theme
    } else {
        arg_kind_rest(a)
    }
}

pub open spec fn arg_kind_rest(a: Seq<char>) -> ArgKind {
    if a == "--finite"@ || a == "--no-wrap"@ {
        ArgKind::Finite
    } else if a == "--rotate90"@ {
        ArgKind::Rotate90
    } else if a == "--flip-h"@ {
        ArgKind::FlipH
    } else if a == "--flip-v"@ {
        ArgKind::FlipV
    } else if a == "--until-stable"@ {
        ArgKind::UntilStable
    } else if a == "--until-cycle"@ {
        ArgKind::UntilCycle
    } else if a == "--analyze"@ {
        ArgKind::Analyze
    } else if a == "--record"@ {
        ArgKind::Record
    } else if a == "--record-every"@ {
        ArgKind::RecordEvery
    } else if a == "-i"@ || a == "--interactive"@ {
        ArgKind::Interactive
    } else if a == "--quiet"@ || a == "--once"@ {
        ArgKind::Quiet
    } else if a == "--summary"@ {
        ArgKind::Summary
    } else if a == "--no-color"@ {
        ArgKind::NoColor
    } else if a == "--stats"@ {
        ArgKind::Stats
    } else if a == "--export-ppm"@ {
        ArgKind::ExportPpm
    } else if a == "--bench"@ {
        ArgKind::Bench
    } else if a == "-h"@ || a == "--help"@ {
        ArgKind::Help
    } else {
        ArgKind::Unknown
    }
}

/// Arguments that take a value.
pub open spec fn needs_value(k: ArgKind) -> bool {
    match k {
        ArgKind::Width | ArgKind::Height | ArgKind::Gens | ArgKind::Delay | ArgKind::Seed
        | ArgKind::Pattern | ArgKind::Density | ArgKind::Load | ArgKind::Save | ArgKind::SaveEvery
        | ArgKind::Style | ArgKind::Rule | ArgKind::Theme | ArgKind::Record | ArgKind::RecordEvery
        | ArgKind::Stats | ArgKind::ExportPpm => true,
        _ => false,
    }
}

/// An unsigned value of an argument, or the message naming the argument.
pub open spec fn int_value(name: Seq<char>, v: Seq<char>, max: int) -> Result<int, Seq<char>> {
    match spec_parse_uint(v, max) {
        Ok(n) => Ok(n),
        Err(e) => Err(name + ": "@ + int_fault_text(e)),
    }
}

/// The settings after an argument of kind `k` with value `v`.
pub open spec fn value_step(k: ArgKind, v: Seq<char>, m: Settings) -> Result<Settings, Seq<char>> {
    match k {
        ArgKind::Width => match int_value("--width"@, v, usize::MAX as int) {
            Ok(n) => Ok(Settings { w: n as usize, ..m }),
            Err(e) => Err(e),
        },
        ArgKind::Height => match int_value("--height"@, v, usize::MAX as int) {
            Ok(n) => Ok(Settings { h: n as usize, ..m }),
            Err(e) => Err(e),
        },
        ArgKind::Gens => match int_value("--gens"@, v, u64::MAX as int) {
            Ok(n) => Ok(Settings { gens: n as u64, ..m }),
            Err(e) => Err(e),
        },
        ArgKind::Delay => match int_value("--delay"@, v, u64::MAX as int) {
            Ok(n) => Ok(Settings { delay_ms: n as u64, ..m }),
            Err(e) => Err(e),
        },
        ArgKind::Seed => match int_value("--seed"@, v, u64::MAX as int) {
            Ok(n) => Ok(Settings { seed: n as u64, ..m }),
            Err(e) => Err(e),
        },
        ArgKind::Pattern => Ok(Settings { pattern: v, ..m }),
        ArgKind::Density => if is_float_text(v) {
            Ok(Settings { density: Some(v), ..m })
        } else {
            Err("--density: "@ + float_fault_text(v))
        },
        ArgKind::Load => Ok(Settings { load: Some(v), ..m }),
        ArgKind::Save => Ok(Settings { save: Some(v), ..m }),
        ArgKind::SaveEvery => match int_value("--save-every"@, v, u64::MAX as int) {
            Ok(n) => Ok(Settings { save_every: Some(n as u64), ..m }),
            Err(e) => Err(e),
        },
        ArgKind::Style => match spec_parse_style(v) {
            Some(st) => Ok(Settings { style: st, ..m }),
            None => Err(style_error(v)),
        },
        ArgKind::Rule => match spec_parse_ca_rule(v) {
            Some(r) => Ok(Settings { rule: r, rule_explicit: true, ..m }),
            None => Err(spec_rule_error(v)),
        },
        ArgKind::Theme => match spec_parse_theme(v) {
            Some(t) => Ok(Settings { theme: t, ..m }),
            None => Err(theme_error(v)),
        },
        ArgKind::Record => Ok(Settings { record_dir: Some(v), ..m }),
        ArgKind::RecordEvery => match int_value("--record-every"@, v, u64::MAX as int) {
            Ok(n) => Ok(Settings { record_every: n as u64, ..m }),
            Err(e) => Err(e),
        },
        ArgKind::Stats => Ok(Settings { stats_path: Some(v), ..m }),
        _ => Ok(Settings { export_ppm: Some(v), ..m }),
    }
}

/// The settings after a flag of kind `k` that takes no value; `None` for an
/// unknown argument.
pub open spec fn flag_step(k: ArgKind, m: Settings) -> Option<Settings> {
    match k {
        ArgKind::ListPatterns => Some(Settings { list_patterns: true, ..m }),
        ArgKind::ListRules => Some(Settings { list_rules: true, ..m }),
        ArgKind::Age => Some(Settings { age_heat: true, ..m }),
        ArgKind::Finite => Some(Settings { wrap: false, ..m }),
        ArgKind::Rotate90 => Some(Settings { rotate90: true, ..m }),
        ArgKind::FlipH => Some(Settings { flip_h: true, ..m }),
        ArgKind::FlipV => Some(Settings { flip_v: true, ..m }),
        ArgKind::UntilStable => Some(Settings { until_stable: true, ..m }),
        ArgKind::UntilCycle => Some(Settings { until_cycle: true, ..m }),
        ArgKind::Analyze => Some(Settings { analyze: true, ..m }),
        ArgKind::Interactive => Some(Settings { interactive: true, ..m }),
        ArgKind::Quiet => Some(Settings { quiet: true, ..m }),
        ArgKind::Summary => Some(Settings { summary: true, ..m }),
        ArgKind::NoColor => Some(Settings { color: false, ..m }),
        ArgKind::Bench => Some(Settings { bench: true, ..m }),
        _ => None,
    }
}

/// What reading argument `i` does.
pub enum ArgStep {
    /// Go on at argument `.0` with these settings.
    Next(int, Settings),
    /// Help was asked for: stop reading.
    Help(Settings),
    /// The arguments are refused with this message.
    Fail(Seq<char>),
}

/// Reading argument `i` of `argv` with settings `m`.
pub open spec fn spec_arg_step(argv: Seq<Seq<char>>, i: int, m: Settings) -> ArgStep {
    let a = argv[i];
    let k = arg_kind(a);
    if needs_value(k) {
        if i + 1 >= argv.len() {
            ArgStep::Fail(a + " requires a value"@)
        } else {
            match value_step(k, argv[i + 1], m) {
                Ok(m2) => ArgStep::Next(i + 2, m2),
                Err(e) => ArgStep::Fail(e),
            }
        }
    } else if k == ArgKind::Dump {
        if i + 1 < argv.len() && !starts_with(argv[i + 1], "-"@) {
            ArgStep::Next(i + 2, Settings { dump: Some(argv[i + 1]), ..m })
        } else {
            ArgStep::Next(i + 1, Settings { dump: Some("rle"@), ..m })
        }
    } else if k == ArgKind::Help {
        ArgStep::Help(Settings { help: true, ..m })
    } else {
        match flag_step(k, m) {
            Some(m2) => ArgStep::Next(i + 1, m2),
            None => ArgStep::Fail("unknown argument: "@ + a),
        }
    }
}

/// Reading the arguments from `i` on.
pub open spec fn scan_args(argv: Seq<Seq<char>>, i: int, m: Settings) -> Result<Settings, Seq<char>>
    decreases argv.len() - i,
{
    if i < 0 || i >= argv.len() {
        Ok(m)
    } else {
        match spec_arg_step(argv, i, m) {
            ArgStep::Next(j, m2) => if i < j <= argv.len() {
                scan_args(argv, j, m2)
            } else {
                Ok(m2)
            },
            ArgStep::Help(m2) => Ok(m2),
            ArgStep::Fail(e) => Err(e),
        }
    }
}

/// The texts of the arguments.
pub open spec fn arg_texts(argv: Seq<String>) -> Seq<Seq<char>> {
    argv.map_values(|s: String| s@)
}

fn int_arg(name: &str, v: &String, max: u64) -> (r: Result<u64, String>)
    ensures
        match r {
            Ok(n) => int_value(name@, v@, max as int) == Ok::<int, Seq<char>>(n as int),
            Err(e) => int_value(name@, v@, max as int) == Err::<int, Seq<char>>(e@),
        },
{
    let chars = str_chars(v.as_str());
    match parse_uint(chars.as_slice(), max) {
        Ok(n) => Ok(n),
        Err(f) => {
            let mut out: Vec<char> = Vec::new();
            push_str(&mut out, name);
            push_str(&mut out, ": ");
            match f {
                IntFault::Empty => push_str(&mut out, "cannot parse integer from empty string"),
                IntFault::InvalidDigit => push_str(&mut out, "invalid digit found in string"),
                IntFault::Overflow => push_str(&mut out, "number too large to fit in target type"),
            }
            Err(string_from_chars(out))
        },
    }
}

#[verifier::spinoff_prover]
#[verifier::rlimit(40)]
fn with_w(cfg: Config, x: usize) -> (c: Config)
    ensures
        c@ == (Settings { w: x, ..cfg@ }),
{
    proof {
        reveal(Config::settings);
    }
    Config { w: x, ..cfg }
}

#[verifier::spinoff_prover]
#[verifier::rlimit(40)]
fn with_h(cfg: Config, x: usize) -> (c: Config)
    ensures
        c@ == (Settings { h: x, ..cfg@ }),
{
    proof {
        reveal(Config::settings);
    }
    Config { h: x, ..cfg }
}

#[verifier::spinoff_prover]
#[verifier::rlimit(40)]
fn with_gens(cfg: Config, x: u64) -> (c: Config)
    ensures
        c@ == (Settings { gens: x, ..cfg@ }),
{
    proof {
        reveal(Config::settings);
    }
    Config { gens: x, ..cfg }
}

#[verifier::spinoff_prover]
#[verifier::rlimit(40)]
fn with_delay(cfg: Config, x: u64) -> (c: Config)
    ensures
        c@ == (Settings { delay_ms: x, ..cfg@ }),
{
    proof {
        reveal(Config::settings);
    }
    Config { delay_ms: x, ..cfg }
}

#[verifier::spinoff_prover]
#[verifier::rlimit(40)]
fn with_seed(cfg: Config, x: u64) -> (c: Config)
    ensures
        c@ == (Settings { seed: x, ..cfg@ }),
{
    proof {
        reveal(Config::settings);
    }
    Config { seed: x, ..cfg }
}

#[verifier::spinoff_prover]
#[verifier::rlimit(40)]
fn with_save_every(cfg: Config, x: u64) -> (c: Config)
    ensures
        c@ == (Settings { save_every: Some(x), ..cfg@ }),
{
    proof {
        reveal(Config::settings);
    }
    Config { save_every: Some(x), ..cfg }
}

#[verifier::spinoff_prover]
#[verifier::rlimit(40)]
fn with_record_every(cfg: Config, x: u64) -> (c: Config)
    ensures
        c@ == (Settings { record_every: x, ..cfg@ }),
{
    proof {
        reveal(Config::settings);
    }
    Config { record_every: x, ..cfg }
}

#[verifier::spinoff_prover]
#[verifier::rlimit(40)]
fn with_pattern(cfg: Config, x: String) -> (c: Config)
    ensures
        c@ == (Settings { pattern: x@, ..cfg@ }),
{
    proof {
        reveal(Config::settings);
    }
    Config { pattern: x, ..cfg }
}

#[verifier::spinoff_prover]
#[verifier::rlimit(40)]
fn with_density(cfg: Config, x: String) -> (c: Config)
    ensures
        c@ == (Settings { density: Some(x@), ..cfg@ }),
{
    proof {
        reveal(Config::settings);
        lemma_opt_text(Some(x));
    }
    Config { density: Some(x), ..cfg }
}

#[verifier::spinoff_prover]
#[verifier::rlimit(40)]
fn with_load(cfg: Config, x: String) -> (c: Config)
    ensures
        c@ == (Settings { load: Some(x@), ..cfg@ }),
{
    proof {
        reveal(Config::settings);
        lemma_opt_text(Some(x));
    }
    Config { load: Some(x), ..cfg }
}

#[verifier::spinoff_prover]
#[verifier::rlimit(40)]
fn with_save(cfg: Config, x: String) -> (c: Config)
    ensures
        c@ == (Settings { save: Some(x@), ..cfg@ }),
{
    proof {
        reveal(Config::settings);
        lemma_opt_text(Some(x));
    }
    Config { save: Some(x), ..cfg }
}

#[verifier::spinoff_prover]
#[verifier::rlimit(40)]
fn with_record_dir(cfg: Config, x: String) -> (c: Config)
    ensures
        c@ == (Settings { record_dir: Some(x@), ..cfg@ }),
{
    proof {
        reveal(Config::settings);
        lemma_opt_text(Some(x));
    }
    Config { record_dir: Some(x), ..cfg }
}

#[verifier::spinoff_prover]
#[verifier::rlimit(40)]
fn with_stats_path(cfg: Config, x: String) -> (c: Config)
    ensures
        c@ == (Settings { stats_path: Some(x@), ..cfg@ }),
{
    proof {
        reveal(Config::settings);
        lemma_opt_text(Some(x));
    }
    Config { stats_path: Some(x), ..cfg }
}

#[verifier::spinoff_prover]
#[verifier::rlimit(40)]
fn with_export_ppm(cfg: Config, x: String) -> (c: Config)
    ensures
        c@ == (Settings { export_ppm: Some(x@), ..cfg@ }),
{
    proof {
        reveal(Config::settings);
        lemma_opt_text(Some(x));
    }
    Config { export_ppm: Some(x), ..cfg }
}

#[verifier::spinoff_prover]
#[verifier::rlimit(40)]
fn with_dump(cfg: Config, x: String) -> (c: Config)
    ensures
        c@ == (Settings { dump: Some(x@), ..cfg@ }),
{
    proof {
        reveal(Config::settings);
        lemma_opt_text(Some(x));
    }
    Config { dump: Some(x), ..cfg }
}

#[verifier::spinoff_prover]
#[verifier::rlimit(40)]
fn with_style(cfg: Config, x: Style) -> (c: Config)
    ensures
        c@ == (Settings { style: x, ..cfg@ }),
{
    proof {
        reveal(Config::settings);
    }
    Config { style: x, ..cfg }
}

#[verifier::spinoff_prover]
#[verifier::rlimit(40)]
fn with_rule(cfg: Config, x: CaRule) -> (c: Config)
    ensures
        c@ == (Settings { rule: x, rule_explicit: true, ..cfg@ }),
{
    proof {
        reveal(Config::settings);
    }
    Config { rule: x, rule_explicit: true, ..cfg }
}

#[verifier::spinoff_prover]
#[verifier::rlimit(40)]
fn with_theme(cfg: Config, x: Theme) -> (c: Config)
    ensures
        c@ == (Settings { theme: x, ..cfg@ }),
{
    proof {
        reveal(Config::settings);
    }
    Config { theme: x, ..cfg }
}

#[verifier::spinoff_prover]
#[verifier::rlimit(40)]
fn with_list_patterns_true(cfg: Config) -> (c: Config)
    ensures
        c@ == (Settings { list_patterns: true, ..cfg@ }),
{
    proof {
        reveal(Config::settings);
    }
    Config { list_patterns: true, ..cfg }
}

#[verifier::spinoff_prover]
#[verifier::rlimit(40)]
fn with_list_rules_true(cfg: Config) -> (c: Config)
    ensures
        c@ == (Settings { list_rules: true, ..cfg@ }),
{
    proof {
        reveal(Config::settings);
    }
    Config { list_rules: true, ..cfg }
}

#[verifier::spinoff_prover]
#[verifier::rlimit(40)]
fn with_age_heat_true(cfg: Config) -> (c: Config)
    ensures
        c@ == (Settings { age_heat: true, ..cfg@ }),
{
    proof {
        reveal(Config::settings);
    }
    Config { age_heat: true, ..cfg }
}

#[verifier::spinoff_prover]
#[verifier::rlimit(40)]
fn with_wrap_false(cfg: Config) -> (c: Config)
    ensures
        c@ == (Settings { wrap: false, ..cfg@ }),
{
    proof {
        reveal(Config::settings);
    }
    Config { wrap: false, ..cfg }
}

#[verifier::spinoff_prover]
#[verifier::rlimit(40)]
fn with_rotate90_true(cfg: Config) -> (c: Config)
    ensures
        c@ == (Settings { rotate90: true, ..cfg@ }),
{
    proof {
        reveal(Config::settings);
    }
    Config { rotate90: true, ..cfg }
}

#[verifier::spinoff_prover]
#[verifier::rlimit(40)]
fn with_flip_h_true(cfg: Config) -> (c: Config)
    ensures
        c@ == (Settings { flip_h: true, ..cfg@ }),
{
    proof {
        reveal(Config::settings);
    }
    Config { flip_h: true, ..cfg }
}

#[verifier::spinoff_prover]
#[verifier::rlimit(40)]
fn with_flip_v_true(cfg: Config) -> (c: Config)
    ensures
        c@ == (Settings { flip_v: true, ..cfg@ }),
{
    proof {
        reveal(Config::settings);
    }
    Config { flip_v: true, ..cfg }
}

#[verifier::spinoff_prover]
#[verifier::rlimit(40)]
fn with_until_stable_true(cfg: Config) -> (c: Config)
    ensures
        c@ == (Settings { until_stable: true, ..cfg@ }),
{
    proof {
        reveal(Config::settings);
    }
    Config { until_stable: true, ..cfg }
}

#[verifier::spinoff_prover]
#[verifier::rlimit(40)]
fn with_until_cycle_true(cfg: Config) -> (c: Config)
    ensures
        c@ == (Settings { until_cycle: true, ..cfg@ }),
{
    proof {
        reveal(Config::settings);
    }
    Config { until_cycle: true, ..cfg }
}

#[verifier::spinoff_prover]
#[verifier::rlimit(40)]
fn with_analyze_true(cfg: Config) -> (c: Config)
    ensures
        c@ == (Settings { analyze: true, ..cfg@ }),
{
    proof {
        reveal(Config::settings);
    }
    Config { analyze: true, ..cfg }
}

#[verifier::spinoff_prover]
#[verifier::rlimit(40)]
fn with_interactive_true(cfg: Config) -> (c: Config)
    ensures
        c@ == (Settings { interactive: true, ..cfg@ }),
{
    proof {
        reveal(Config::settings);
    }
    Config { interactive: true, ..cfg }
}

#[verifier::spinoff_prover]
#[verifier::rlimit(40)]
fn with_quiet_true(cfg: Config) -> (c: Config)
    ensures
        c@ == (Settings { quiet: true, ..cfg@ }),
{
    proof {
        reveal(Config::settings);
    }
    Config { quiet: true, ..cfg }
}

#[verifier::spinoff_prover]
#[verifier::rlimit(40)]
fn with_summary_true(cfg: Config) -> (c: Config)
    ensures
        c@ == (Settings { summary: true, ..cfg@ }),
{
    proof {
        reveal(Config::settings);
    }
    Config { summary: true, ..cfg }
}

#[verifier::spinoff_prover]
#[verifier::rlimit(40)]
fn with_color_false(cfg: Config) -> (c: Config)
    ensures
        c@ == (Settings { color: false, ..cfg@ }),
{
    proof {
        reveal(Config::settings);
    }
    Config { color: false, ..cfg }
}

#[verifier::spinoff_prover]
#[verifier::rlimit(40)]
fn with_bench_true(cfg: Config) -> (c: Config)
    ensures
        c@ == (Settings { bench: true, ..cfg@ }),
{
    proof {
        reveal(Config::settings);
    }
    Config { bench: true, ..cfg }
}

#[verifier::spinoff_prover]
#[verifier::rlimit(40)]
fn with_help_true(cfg: Config) -> (c: Config)
    ensures
        c@ == (Settings { help: true, ..cfg@ }),
{
    proof {
        reveal(Config::settings);
    }
    Config { help: true, ..cfg }
}

fn int_field(k: ArgKind, v: &String, cfg: Config) -> (r: Result<Config, String>)
    requires
        k == ArgKind::Width || k == ArgKind::Height || k == ArgKind::Gens || k == ArgKind::Delay
            || k == ArgKind::Seed || k == ArgKind::SaveEvery || k == ArgKind::RecordEvery,
    ensures
        match value_step(k, v@, cfg@) {
            Ok(m) => r matches Ok(c) && c@ == m,
            Err(e) => r matches Err(msg) && msg@ == e,
        },
{
    let (name, max) = match k {
        ArgKind::Width => ("--width", usize::MAX as u64),
        ArgKind::Height => ("--height", usize::MAX as u64),
        ArgKind::Gens => ("--gens", u64::MAX),
        ArgKind::Delay => ("--delay", u64::MAX),
        ArgKind::Seed => ("--seed", u64::MAX),
        ArgKind::SaveEvery => ("--save-every", u64::MAX),
        _ => ("--record-every", u64::MAX),
    };
    let n = match int_arg(name, v, max) {
        Ok(n) => n,
        Err(e) => {
            return Err(e);
        },
    };
    Ok(
        match k {
            ArgKind::Width => with_w(cfg, n as usize),
            ArgKind::Height => with_h(cfg, n as usize),
            ArgKind::Gens => with_gens(cfg, n),
            ArgKind::Delay => with_delay(cfg, n),
            ArgKind::Seed => with_seed(cfg, n),
            ArgKind::SaveEvery => with_save_every(cfg, n),
            _ => with_record_every(cfg, n),
        },
    )
}

fn choice_field(k: ArgKind, v: &String, cfg: Config) -> (r: Result<Config, String>)
    requires
        k == ArgKind::Style || k == ArgKind::Rule || k == ArgKind::Theme || k == ArgKind::Density,
    ensures
        match value_step(k, v@, cfg@) {
            Ok(m) => r matches Ok(c) && c@ == m,
            Err(e) => r matches Err(msg) && msg@ == e,
        },
{
    match k {
        ArgKind::Style => match Style::parse(v.as_str()) {
            Ok(x) => Ok(with_style(cfg, x)),
            Err(e) => Err(e),
        },
        ArgKind::Rule => match CaRule::parse(v.as_str()) {
            Ok(x) => Ok(with_rule(cfg, x)),
            Err(e) => Err(e),
        },
        ArgKind::Theme => match Theme::parse(v.as_str()) {
            Ok(x) => Ok(with_theme(cfg, x)),
            Err(e) => Err(e),
        },
        _ => {
            let chars = str_chars(v.as_str());
            if float_text_ok(chars.as_slice()) {
                Ok(with_density(cfg, v.clone()))
            } else {
                let mut out: Vec<char> = Vec::new();
                push_str(&mut out, "--density: ");
                if chars.len() == 0 {
                    push_str(&mut out, "cannot parse float from empty string");
                } else {
                    push_str(&mut out, "invalid float literal");
                }
                Err(string_from_chars(out))
            }
        },
    }
}

fn text_field(k: ArgKind, v: &String, cfg: Config) -> (c: Config)
    requires
        k == ArgKind::Pattern || k == ArgKind::Load || k == ArgKind::Save || k == ArgKind::Record
            || k == ArgKind::Stats || k == ArgKind::ExportPpm,
    ensures
        value_step(k, v@, cfg@) == Ok::<Settings, Seq<char>>(c@),
{
    let t = v.clone();
    match k {
        ArgKind::Pattern => with_pattern(cfg, t),
        ArgKind::Load => with_load(cfg, t),
        ArgKind::Save => with_save(cfg, t),
        ArgKind::Record => with_record_dir(cfg, t),
        ArgKind::Stats => with_stats_path(cfg, t),
        _ => with_export_ppm(cfg, t),
    }
}

/// Apply an argument of kind `k` with value `v`.
fn apply_value(k: ArgKind, v: &String, cfg: Config) -> (r: Result<Config, String>)
    requires
        needs_value(k),
    ensures
        match value_step(k, v@, cfg@) {
            Ok(m) => r matches Ok(c) && c@ == m,
            Err(e) => r matches Err(msg) && msg@ == e,
        },
{
    match k {
        ArgKind::Width | ArgKind::Height | ArgKind::Gens | ArgKind::Delay | ArgKind::Seed
        | ArgKind::SaveEvery | ArgKind::RecordEvery => int_field(k, v, cfg),
        ArgKind::Style | ArgKind::Rule | ArgKind::Theme | ArgKind::Density => choice_field(k, v, cfg),
        _ => Ok(text_field(k, v, cfg)),
    }
}

/// Apply a flag of kind `k` that takes no value; `None` for an unknown one.
#[verifier::spinoff_prover]
#[verifier::rlimit(40)]
fn apply_flag(k: ArgKind, cfg: Config) -> (r: Option<Config>)
    requires
        !needs_value(k),
        k != ArgKind::Dump,
        k != ArgKind::Help,
    ensures
        match flag_step(k, cfg@) {
            Some(m) => r matches Some(c) && c@ == m,
            None => r is None,
        },
{
    match k {
        ArgKind::ListPatterns => Some(with_list_patterns_true(cfg)),
        ArgKind::ListRules => Some(with_list_rules_true(cfg)),
        ArgKind::Age => Some(with_age_heat_true(cfg)),
        ArgKind::Finite => Some(with_wrap_false(cfg)),
        ArgKind::Rotate90 => Some(with_rotate90_true(cfg)),
        ArgKind::FlipH => Some(with_flip_h_true(cfg)),
        ArgKind::FlipV => Some(with_flip_v_true(cfg)),
        ArgKind::UntilStable => Some(with_until_stable_true(cfg)),
        ArgKind::UntilCycle => Some(with_until_cycle_true(cfg)),
        ArgKind::Analyze => Some(with_analyze_true(cfg)),
        ArgKind::Interactive => Some(with_interactive_true(cfg)),
        ArgKind::Quiet => Some(with_quiet_true(cfg)),
        ArgKind::Summary => Some(with_summary_true(cfg)),
        ArgKind::NoColor => Some(with_color_false(cfg)),
        ArgKind::Bench => Some(with_bench_true(cfg)),
        _ => None,
    }
}

/// Which argument `a` names.
fn classify(a: &[char]) -> (k: ArgKind)
    ensures
        k == arg_kind(a@),
{
    if chars_eq_str(a, "-W") || chars_eq_str(a, "--width") {
        ArgKind::Width
    } else if chars_eq_str(a, "-H") || chars_eq_str(a, "--height") {
        ArgKind::Height
    } else if chars_eq_str(a, "-g") || chars_eq_str(a, "--gens") {
        ArgKind::Gens
    } else if chars_eq_str(a, "-d") || chars_eq_str(a, "--delay") {
        ArgKind::Delay
    } else if chars_eq_str(a, "-s") || chars_eq_str(a, "--seed") {
        ArgKind::Seed
    } else if chars_eq_str(a, "-p") || chars_eq_str(a, "--pattern") {
        ArgKind::Pattern
    } else if chars_eq_str(a, "--density") {
        ArgKind::Density
    } else if chars_eq_str(a, "--list-patterns") {
        ArgKind::ListPatterns
    } else if chars_eq_str(a, "--list-rules") {
        ArgKind::ListRules
    } else if chars_eq_str(a, "--load") {
        ArgKind::Load
    } else if chars_eq_str(a, "--save") {
        ArgKind::Save
    } else if chars_eq_str(a, "--save-every") {
        ArgKind::SaveEvery
    } else if chars_eq_str(a, "--dump") {
        ArgKind::Dump
    } else if chars_eq_str(a, "--style") {
        ArgKind::Style
    } else if chars_eq_str(a, "--rule") {
        ArgKind::Rule
    } else if chars_eq_str(a, "--age") {
        ArgKind::Age
    } else if chars_eq_str(a, "--theme") {
        ArgKind::Theme
    } else {
        classify_rest(a)
    }
}

fn classify_rest(a: &[char]) -> (k: ArgKind)
    ensures
        k == arg_kind_rest(a@),
{
    if chars_eq_str(a, "--finite") || chars_eq_str(a, "--no-wrap") {
        ArgKind::Finite
    } else if chars_eq_str(a, "--rotate90") {
        ArgKind::Rotate90
    } else if chars_eq_str(a, "--flip-h") {
        ArgKind::FlipH
    } else if chars_eq_str(a, "--flip-v") {
        ArgKind::FlipV
    } else if chars_eq_str(a, "--until-stable") {
        ArgKind::UntilStable
    } else if chars_eq_str(a, "--until-cycle") {
        ArgKind::UntilCycle
    } else if chars_eq_str(a, "--analyze") {
        ArgKind::Analyze
    } else if chars_eq_str(a, "--record") {
        ArgKind::Record
    } else if chars_eq_str(a, "--record-every") {
        ArgKind::RecordEvery
    } else if chars_eq_str(a, "-i") || chars_eq_str(a, "--interactive") {
        ArgKind::Interactive
    } else if chars_eq_str(a, "--quiet") || chars_eq_str(a, "--once") {
        ArgKind::Quiet
    } else if chars_eq_str(a, "--summary") {
        ArgKind::Summary
    } else if chars_eq_str(a, "--no-color") {
        ArgKind::NoColor
    } else if chars_eq_str(a, "--stats") {
        ArgKind::Stats
    } else if chars_eq_str(a, "--export-ppm") {
        ArgKind::ExportPpm
    } else if chars_eq_str(a, "--bench") {
        ArgKind::Bench
    } else if chars_eq_str(a, "-h") || chars_eq_str(a, "--help") {
        ArgKind::Help
    } else {
        ArgKind::Unknown
    }
}

/// The fields of a configuration, as its view shows them.
pub proof fn lemma_config_fields(c: &Config)
    ensures
        c@.w == c.w && c@.h == c.h && c@.gens == c.gens && c@.delay_ms == c.delay_ms && c@.seed
            == c.seed,
        c@.pattern == c.pattern@,
        c@.density == opt_text(c.density) && c@.load == opt_text(c.load) && c@.save == opt_text(
            c.save,
        ) && c@.dump == opt_text(c.dump) && c@.record_dir == opt_text(c.record_dir)
            && c@.stats_path == opt_text(c.stats_path) && c@.export_ppm == opt_text(c.export_ppm),
        c@.save_every == c.save_every && c@.record_every == c.record_every,
        c@.style == c.style && c@.rule == c.rule && c@.rule_explicit == c.rule_explicit && c@.theme
            == c.theme,
        c@.age_heat == c.age_heat && c@.wrap == c.wrap && c@.rotate90 == c.rotate90 && c@.flip_h
            == c.flip_h && c@.flip_v == c.flip_v,
        c@.until_stable == c.until_stable && c@.until_cycle == c.until_cycle && c@.analyze
            == c.analyze,
        c@.interactive == c.interactive && c@.quiet == c.quiet && c@.summary == c.summary
            && c@.color == c.color && c@.bench == c.bench,
        c@.list_patterns == c.list_patterns && c@.list_rules == c.list_rules && c@.help == c.help,
{
    reveal(Config::settings);
}

/// What reading one argument does.
enum Flow {
    Next(usize, Config),
    Help(Config),
    Fail(String),
}

fn needs_value_exec(k: ArgKind) -> (b: bool)
    ensures
        b == needs_value(k),
{
    match k {
        ArgKind::Width | ArgKind::Height | ArgKind::Gens | ArgKind::Delay | ArgKind::Seed
        | ArgKind::Pattern | ArgKind::Density | ArgKind::Load | ArgKind::Save | ArgKind::SaveEvery
        | ArgKind::Style | ArgKind::Rule | ArgKind::Theme | ArgKind::Record | ArgKind::RecordEvery
        | ArgKind::Stats | ArgKind::ExportPpm => true,
        _ => false,
    }
}

/// Read argument `i`.
fn arg_step(argv: &[String], i: usize, cfg: Config) -> (r: Flow)
    requires
        i < argv@.len(),
    ensures
        match spec_arg_step(arg_texts(argv@), i as int, cfg@) {
            ArgStep::Next(j, m) => r matches Flow::Next(j2, c) && j2 == j && c@ == m,
            ArgStep::Help(m) => r matches Flow::Help(c) && c@ == m,
            ArgStep::Fail(e) => r matches Flow::Fail(msg) && msg@ == e,
        },
{
    let ghost texts = arg_texts(argv@);
    let n = argv.len();
    let a = str_chars(argv[i].as_str());
    assert(texts[i as int] == a@);
    let k = classify(a.as_slice());
    if needs_value_exec(k) {
        if i + 1 >= n {
            let mut out: Vec<char> = Vec::new();
            push_chars(&mut out, a.as_slice());
            push_str(&mut out, " requires a value");
            Flow::Fail(string_from_chars(out))
        } else {
            assert(texts[i + 1] == argv@[i + 1]@);
            match apply_value(k, &argv[i + 1], cfg) {
                Ok(c) => Flow::Next(i + 2, c),
                Err(e) => Flow::Fail(e),
            }
        }
    } else if k == ArgKind::Dump {
        if i + 1 < n {
            let next = str_chars(argv[i + 1].as_str());
            assert(texts[i + 1] == next@);
            if !chars_start_with(next.as_slice(), "-") {
                return Flow::Next(i + 2, with_dump(cfg, argv[i + 1].clone()));
            }
        }
        Flow::Next(i + 1, with_dump(cfg, string_from_chars(str_chars("rle"))))
    } else if k == ArgKind::Help {
        Flow::Help(with_help_true(cfg))
    } else {
        match apply_flag(k, cfg) {
            Some(c) => Flow::Next(i + 1, c),
            None => {
                let mut out: Vec<char> = Vec::new();
                push_str(&mut out, "unknown argument: ");
                push_chars(&mut out, a.as_slice());
                Flow::Fail(string_from_chars(out))
            },
        }
    }
}

/// Read the command-line arguments (program name excluded) into a
/// configuration. Later arguments override earlier ones; the first argument
/// that is refused gives the error; `-h` / `--help` stops the reading.
/// `default_seed` is the seed where none is given.
pub fn parse_args(argv: &[String], default_seed: u64) -> (r: Result<Config, String>)
    ensures
        match scan_args(arg_texts(argv@), 0, default_settings(default_seed)) {
            Ok(m) => r matches Ok(c) && c@ == m,
            Err(e) => r matches Err(msg) && msg@ == e,
        },
{
    let ghost texts = arg_texts(argv@);
    let mut cfg = Config::with_seed(default_seed);
    let mut i: usize = 0;
    while i < argv.len()
        invariant
            i <= argv@.len(),
            texts == arg_texts(argv@),
            scan_args(texts, 0, default_settings(default_seed)) == scan_args(texts, i as int, cfg@),
        decreases argv@.len() - i,
    {
        match arg_step(argv, i, cfg) {
            Flow::Next(j, c) => {
                cfg = c;
                i = j;
            },
            Flow::Help(c) => {
                return Ok(c);
            },
            Flow::Fail(e) => {
                return Err(e);
            },
        }
    }
    Ok(cfg)
}

/// The checks made once all arguments are read, in order; `density_in_range`
/// says whether the density (0.25 where none was given) lies in 0.0..=1.0.
pub open spec fn spec_validate(m: Settings, density_in_range: bool) -> Result<(), Seq<char>> {
    if m.list_patterns || m.list_rules {
        Ok(())
    } else if m.w < 4 || m.h < 4 {
        Err("grid too small (min 4x4)"@)
    } else if !density_in_range {
        Err("density must be between 0.0 and 1.0"@)
    } else if m.save_every == Some(0u64) {
        Err("--save-every must be >= 1"@)
    } else if m.save_every is Some && m.save is None {
        Err("--save-every requires --save PATH"@)
    } else if m.record_every == 0 {
        Err("--record-every must be >= 1"@)
    } else if m.dump is Some && lower_seq(m.dump->0) != "rle"@ && lower_seq(m.dump->0) != "ascii"@ {
        Err("--dump format must be rle or ascii"@)
    } else if m.interactive && m.quiet {
        Err("--interactive cannot be combined with --quiet"@)
    } else if m.bench && m.interactive {
        Err("--bench cannot be combined with --interactive"@)
    } else {
        Ok(())
    }
}

fn fail(msg: &str) -> (r: Result<(), String>)
    ensures
        r matches Err(m) && m@ == msg@,
{
    Err(string_from_chars(str_chars(msg)))
}

/// Check a configuration once all arguments are read (not needed where a
/// listing is asked for). The density is parsed by the caller, which says
/// whether it lies in 0.0..=1.0.
pub fn validate(cfg: &Config, density_in_range: bool) -> (r: Result<(), String>)
    ensures
        match spec_validate(cfg@, density_in_range) {
            Ok(()) => r is Ok,
            Err(e) => r matches Err(msg) && msg@ == e,
        },
{
    proof {
        lemma_config_fields(cfg);
        lemma_opt_text(cfg.save);
        lemma_opt_text(cfg.dump);
    }
    if cfg.list_patterns || cfg.list_rules {
        return Ok(());
    }
    if cfg.w < 4 || cfg.h < 4 {
        return fail("grid too small (min 4x4)");
    }
    if !density_in_range {
        return fail("density must be between 0.0 and 1.0");
    }
    if let Some(n) = cfg.save_every {
        if n == 0 {
            return fail("--save-every must be >= 1");
        }
        if cfg.save.is_none() {
            return fail("--save-every requires --save PATH");
        }
    }
    if cfg.record_every == 0 {
        return fail("--record-every must be >= 1");
    }
    if let Some(fmt) = &cfg.dump {
        let f = lower_chars(str_chars(fmt.as_str()).as_slice());
        if !chars_eq_str(f.as_slice(), "rle") && !chars_eq_str(f.as_slice(), "ascii") {
            return fail("--dump format must be rle or ascii");
        }
    }
    if cfg.interactive && cfg.quiet {
        return fail("--interactive cannot be combined with --quiet");
    }
    if cfg.bench && cfg.interactive {
        return fail("--bench cannot be combined with --interactive");
    }
    Ok(())
}

} // verus!
