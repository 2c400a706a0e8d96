//! Life-like birth/survive rules and the multi-state rule selector.

use vstd::prelude::*;
use crate::text::{
    chars_eq_str, copy_range, decimal_seq, digit_char, digit_to_char, digit_value, find_char,
    find_first, is_ascii_digit, lower_chars, lower_seq, push_chars, push_decimal, push_str,
    str_chars, string_from_chars, trim_chars, trim_seq, lemma_find_first, lemma_trim_plain,
};

verus! {

/// Life-like cellular automaton rule with birth/survive bitmasks.
///
/// Bit `k` (0..=8) set means neighbour count `k` triggers birth or survival.
#[derive(Clone, Copy, Debug, PartialEq, Eq, Structural)]
pub struct Rule {
    /// Bitmask of neighbour counts that birth a dead cell (bits 0–8).
    pub birth: u16,
    /// Bitmask of neighbour counts that keep a live cell alive (bits 0–8).
    pub survive: u16,
}

/// Whether bit `k` of `mask` is set.
pub open spec fn mask_has(mask: u16, k: int) -> bool {
    0 <= k <= 8 && (mask & (1u16 << (k as u16))) != 0
}

/// The mask with bit `c` set for every count `c` in `counts`.
pub open spec fn mask_of(counts: Seq<u8>) -> u16
    decreases counts.len(),
{
    if counts.len() == 0 {
        0
    } else {
        mask_of(counts.drop_last()) | (1u16 << (counts.last() as u16))
    }
}

/// Every count is a possible neighbour count (0..=8).
pub open spec fn counts_in_range(counts: Seq<u8>) -> bool {
    forall|i: int| 0 <= i < counts.len() ==> #[trigger] counts[i] <= 8
}

/// The rule with the given birth and survive counts, if all are in range.
pub open spec fn spec_from_lists(birth: Seq<u8>, survive: Seq<u8>) -> Option<Rule> {
    if counts_in_range(birth) && counts_in_range(survive) {
        Some(Rule { birth: mask_of(birth), survive: mask_of(survive) })
    } else {
        None
    }
}

/// The counts written as a run of digits `0`..`8`, if it is one.
pub open spec fn digit_counts(s: Seq<char>) -> Option<Seq<u8>> {
    if forall|i: int| 0 <= i < s.len() ==> '0' <= #[trigger] s[i] && s[i] <= '8' {
        Some(s.map_values(|c: char| digit_value(c) as u8))
    } else {
        None
    }
}

/// Every character is an ASCII digit.
pub open spec fn all_digits(s: Seq<char>) -> bool {
    forall|i: int| 0 <= i < s.len() ==> is_ascii_digit(#[trigger] s[i])
}

pub open spec fn conway_rule() -> Rule {
    Rule { birth: 8, survive: 12 }
}

pub open spec fn highlife_rule() -> Rule {
    Rule { birth: 72, survive: 12 }
}

pub open spec fn seeds_rule() -> Rule {
    Rule { birth: 4, survive: 0 }
}

pub open spec fn daynight_rule() -> Rule {
    Rule { birth: 456, survive: 472 }
}

pub open spec fn lwd_rule() -> Rule {
    Rule { birth: 8, survive: 511 }
}

pub open spec fn maze_rule() -> Rule {
    Rule { birth: 8, survive: 62 }
}

pub open spec fn replicator_rule() -> Rule {
    Rule { birth: 170, survive: 170 }
}

/// The presets reachable by name (lower-cased, trimmed text).
pub open spec fn named_rule(t: Seq<char>) -> Option<Rule> {
    if t == "conway"@ || t == "life"@ || t == "b3/s23"@ {
        Some(conway_rule())
    } else if t == "highlife"@ || t == "b36/s23"@ {
        Some(highlife_rule())
    } else if t == "seeds"@ || t == "b2/s"@ {
        Some(seeds_rule())
    } else if t == "daynight"@ || t == "day-night"@ || t == "day&night"@ || t == "b3678/s34678"@ {
        Some(daynight_rule())
    } else if t == "life-without-death"@ || t == "lwd"@ || t == "b3/s012345678"@ {
        Some(lwd_rule())
    } else if t == "maze"@ || t == "b3/s12345"@ {
        Some(maze_rule())
    } else if t == "replicator"@ || t == "b1357/s1357"@ {
        Some(replicator_rule())
    } else {
        None
    }
}

/// `B…/S…` notation after its leading `b`: birth digits, `/`, `s`, survive digits.
pub open spec fn spec_parse_bs(rest: Seq<char>) -> Option<Rule> {
    match find_first(rest, '/') {
        None => None,
        Some(k) => {
            let b = rest.take(k as int);
            let s = rest.skip(k as int + 1);
            if s.len() > 0 && s[0] == 's' {
                match (digit_counts(b), digit_counts(s.drop_first())) {
                    (Some(bv), Some(sv)) => spec_from_lists(bv, sv),
                    _ => None,
                }
            } else {
                None
            }
        },
    }
}

/// Classic `survive/birth` notation: two runs of digits around the first `/`.
pub open spec fn spec_parse_sb(t: Seq<char>) -> Option<Rule> {
    match find_first(t, '/') {
        None => None,
        Some(k) => {
            let sp = t.take(k as int);
            let bp = t.skip(k as int + 1);
            if all_digits(sp) && all_digits(bp) {
                match (digit_counts(sp), digit_counts(bp)) {
                    (Some(sv), Some(bv)) => spec_from_lists(bv, sv),
                    _ => None,
                }
            } else {
                None
            }
        },
    }
}

/// The rule that a text names: preset, `B#/S#`, or `S/B` form. The text is
/// trimmed and ASCII lower-cased first.
pub open spec fn spec_parse_rule(s: Seq<char>) -> Option<Rule> {
    let t = lower_seq(trim_seq(s));
    if t.len() == 0 {
        None
    } else if named_rule(t) is Some {
        named_rule(t)
    } else if t[0] == 'b' {
        spec_parse_bs(t.drop_first())
    } else {
        spec_parse_sb(t)
    }
}

/// Message for the first count above 8 in `counts`.
pub open spec fn counts_error(counts: Seq<u8>) -> Seq<char>
    decreases counts.len(),
{
    if counts.len() == 0 {
        Seq::empty()
    } else if counts[0] > 8 {
        "neighbor count "@ + decimal_seq(counts[0] as nat) + " out of range 0..=8"@
    } else {
        counts_error(counts.drop_first())
    }
}

/// Message for birth/survive lists with a count out of range (birth checked first).
pub open spec fn lists_error(birth: Seq<u8>, survive: Seq<u8>) -> Seq<char> {
    if !counts_in_range(birth) {
        counts_error(birth)
    } else {
        counts_error(survive)
    }
}

/// Message for the first character of `s` that is not a count digit `0`..`8`.
pub open spec fn digit_counts_error(s: Seq<char>) -> Seq<char>
    decreases s.len(),
{
    if s.len() == 0 {
        Seq::empty()
    } else if '0' <= s[0] && s[0] <= '8' {
        digit_counts_error(s.drop_first())
    } else if s[0] == '9' {
        "neighbor digit 9 out of range 0..=8"@
    } else {
        "invalid character in rule counts: "@.push(s[0])
    }
}

/// Message for `B…/S…` text (after its `b`) that does not name a rule.
pub open spec fn bs_error(rest: Seq<char>) -> Seq<char> {
    match find_first(rest, '/') {
        None => "expected B#/S# form, got: b"@ + rest,
        Some(k) => {
            let s = rest.skip(k as int + 1);
            if !(s.len() > 0 && s[0] == 's') {
                "expected S after / in B…/S… rule, got: "@ + rest
            } else if digit_counts(rest.take(k as int)) is None {
                digit_counts_error(rest.take(k as int))
            } else {
                digit_counts_error(s.drop_first())
            }
        },
    }
}

/// Message for a rule text that names no rule.
pub open spec fn spec_rule_error(s: Seq<char>) -> Seq<char> {
    let t = lower_seq(trim_seq(s));
    let unknown = "unknown rule: "@ + s
        + " (try conway, highlife, seeds, daynight, lwd, maze, replicator, or B3/S23 / 23/3)"@;
    if t.len() == 0 {
        "empty rule"@
    } else if t[0] == 'b' {
        bs_error(t.drop_first())
    } else {
        match find_first(t, '/') {
            None => unknown,
            Some(k) => {
                let sp = t.take(k as int);
                let bp = t.skip(k as int + 1);
                if all_digits(sp) && all_digits(bp) {
                    if digit_counts(sp) is None {
                        digit_counts_error(sp)
                    } else {
                        digit_counts_error(bp)
                    }
                } else {
                    unknown
                }
            },
        }
    }
}

/// Digits `0`..`8` of the set bits of `mask` below `n`, ascending.
pub open spec fn mask_digits_upto(mask: u16, n: nat) -> Seq<char>
    decreases n,
{
    if n == 0 {
        Seq::empty()
    } else if mask_has(mask, n - 1) {
        mask_digits_upto(mask, (n - 1) as nat).push(digit_char(n - 1))
    } else {
        mask_digits_upto(mask, (n - 1) as nat)
    }
}

/// The digits of a mask are ASCII digits.
pub proof fn lemma_mask_digits_are_digits(mask: u16, n: nat)
    requires
        n <= 10,
    ensures
        forall|i: int| 0 <= i < mask_digits_upto(mask, n).len() ==> is_ascii_digit(
            #[trigger] mask_digits_upto(mask, n)[i],
        ),
    decreases n,
{
    if n > 0 {
        lemma_mask_digits_are_digits(mask, (n - 1) as nat);
        let prev = mask_digits_upto(mask, (n - 1) as nat);
        let c = digit_char(n - 1);
        assert(c as int == n - 1 + '0' as int);
        assert(is_ascii_digit(c));
        if mask_has(mask, n - 1) {
            assert forall|i: int| 0 <= i < prev.push(c).len() implies is_ascii_digit(#[trigger] prev.push(c)[i]) by {
                if i < prev.len() {
                    assert(prev.push(c)[i] == prev[i]);
                }
            }
        }
    }
}

/// Digits of the set bits 0..=8 of `mask`, ascending.
pub open spec fn mask_digits(mask: u16) -> Seq<char> {
    mask_digits_upto(mask, 9)
}

/// Canonical `B#/S#` text of a rule.
pub open spec fn spec_rule_bs(r: Rule) -> Seq<char> {
    "B"@ + mask_digits(r.birth) + "/S"@ + mask_digits(r.survive)
}

/// Human-readable rule name: preset name, else the `B#/S#` text.
pub open spec fn spec_rule_display(r: Rule) -> Seq<char> {
    if r == conway_rule() {
        "conway (B3/S23)"@
    } else if r == highlife_rule() {
        "highlife (B36/S23)"@
    } else if r == seeds_rule() {
        "seeds (B2/S)"@
    } else if r == daynight_rule() {
        "daynight (B3678/S34678)"@
    } else if r == lwd_rule() {
        "life-without-death (B3/S012345678)"@
    } else if r == maze_rule() {
        "maze (B3/S12345)"@
    } else if r == replicator_rule() {
        "replicator (B1357/S1357)"@
    } else {
        spec_rule_bs(r)
    }
}

impl Rule {
    /// Conway's Game of Life: B3/S23.
    pub fn conway() -> (r: Rule)
        ensures
            r == conway_rule(),
    {
        Rule { birth: 8, survive: 12 }
    }

    /// HighLife: B36/S23.
    pub fn highlife() -> (r: Rule)
        ensures
            r == highlife_rule(),
    {
        Rule { birth: 72, survive: 12 }
    }

    /// Seeds: B2/S (no survival).
    pub fn seeds() -> (r: Rule)
        ensures
            r == seeds_rule(),
    {
        Rule { birth: 4, survive: 0 }
    }

    /// Day & Night: B3678/S34678.
    pub fn daynight() -> (r: Rule)
        ensures
            r == daynight_rule(),
    {
        Rule { birth: 456, survive: 472 }
    }

    /// Life without Death: B3/S012345678.
    pub fn life_without_death() -> (r: Rule)
        ensures
            r == lwd_rule(),
    {
        Rule { birth: 8, survive: 511 }
    }

    /// Maze: B3/S12345.
    pub fn maze() -> (r: Rule)
        ensures
            r == maze_rule(),
    {
        Rule { birth: 8, survive: 62 }
    }

    /// Replicator: B1357/S1357.
    pub fn replicator() -> (r: Rule)
        ensures
            r == replicator_rule(),
    {
        Rule { birth: 170, survive: 170 }
    }

    /// Whether a dead cell with `n` neighbours is born.
    pub open spec fn spec_births(self, n: u8) -> bool {
        n <= 8 && (self.birth & (1u16 << (n as u16))) != 0
    }

    /// Whether a live cell with `n` neighbours survives.
    pub open spec fn spec_survives(self, n: u8) -> bool {
        n <= 8 && (self.survive & (1u16 << (n as u16))) != 0
    }

    /// Next liveness of a cell with the given liveness and neighbour count.
    pub open spec fn spec_next_alive(self, alive: bool, n: u8) -> bool {
        if alive {
            self.spec_survives(n)
        } else {
            self.spec_births(n)
        }
    }

    /// Build a rule from birth/survive neighbour lists.
    pub fn from_lists(birth: &[u8], survive: &[u8]) -> (r: Result<Self, String>)
        ensures
            match r {
                Ok(rule) => spec_from_lists(birth@, survive@) == Some(rule),
                Err(m) => spec_from_lists(birth@, survive@) is None && m@ == lists_error(
                    birth@,
                    survive@,
                ),
            },
    {
        let b = match counts_to_mask(birth) {
            Ok(m) => m,
            Err(e) => {
                return Err(e);
            },
        };
        let s = match counts_to_mask(survive) {
            Ok(m) => m,
            Err(e) => {
                return Err(e);
            },
        };
        Ok(Rule { birth: b, survive: s })
    }

    /// Whether a dead cell with `n` neighbours is born.
    pub fn births(&self, n: u8) -> (b: bool)
        ensures
            b == self.spec_births(n),
    {
        n <= 8 && (self.birth & (1u16 << n)) != 0
    }

    /// Whether a live cell with `n` neighbours survives.
    pub fn survives(&self, n: u8) -> (b: bool)
        ensures
            b == self.spec_survives(n),
    {
        n <= 8 && (self.survive & (1u16 << n)) != 0
    }

    /// Next state for a cell given current alive flag and neighbour count.
    pub fn next_alive(&self, alive: bool, n: u8) -> (b: bool)
        ensures
            b == self.spec_next_alive(alive, n),
    {
        if alive {
            self.survives(n)
        } else {
            self.births(n)
        }
    }

    /// Parse Life-like notation or a named preset.
    ///
    /// Accepts:
    /// - Named: `conway`, `highlife`, `seeds`, `daynight`, `life-without-death`/`lwd`,
    ///   `maze`, `replicator`
    /// - B/S form: `B3/S23`, `b36/s23`
    /// - S/B form: `23/3` (survive/birth, classic)
    pub fn parse(s: &str) -> (r: Result<Self, String>)
        ensures
            match r {
                Ok(rule) => spec_parse_rule(s@) == Some(rule),
                Err(m) => spec_parse_rule(s@) is None && m@ == spec_rule_error(s@),
            },
    {
        let raw = str_chars(s);
        let trimmed = trim_chars(raw.as_slice());
        let t = lower_chars(trimmed.as_slice());
        if t.len() == 0 {
            return Err(string_from_chars(str_chars("empty rule")));
        }
        let named = named_preset(t.as_slice());
        if let Some(rule) = named {
            return Ok(rule);
        }
        if t[0] == 'b' {
            let rest = copy_range(t.as_slice(), 1, t.len());
            assert(rest@ =~= t@.drop_first());
            return parse_bs_form(rest.as_slice());
        }
        if let Some(k) = find_char(t.as_slice(), '/') {
            let s_part = copy_range(t.as_slice(), 0, k);
            let b_part = copy_range(t.as_slice(), k + 1, t.len());
            assert(s_part@ =~= t@.take(k as int));
            assert(b_part@ =~= t@.skip(k + 1));
            if all_ascii_digits(s_part.as_slice()) && all_ascii_digits(b_part.as_slice()) {
                let survive = match parse_digit_counts(s_part.as_slice()) {
                    Ok(v) => v,
                    Err(e) => {
                        return Err(e);
                    },
                };
                let birth = match parse_digit_counts(b_part.as_slice()) {
                    Ok(v) => v,
                    Err(e) => {
                        return Err(e);
                    },
                };
                return Self::from_lists(birth.as_slice(), survive.as_slice());
            }
        }
        let mut msg: Vec<char> = Vec::new();
        push_str(&mut msg, "unknown rule: ");
        push_chars(&mut msg, raw.as_slice());
        push_str(
            &mut msg,
            " (try conway, highlife, seeds, daynight, lwd, maze, replicator, or B3/S23 / 23/3)",
        );
        Err(string_from_chars(msg))
    }

    /// Canonical B#/S# string.
    pub fn to_string_bs(&self) -> (s: String)
        ensures
            s@ == spec_rule_bs(*self),
    {
        let mut out: Vec<char> = Vec::new();
        push_str(&mut out, "B");
        mask_to_digits(&mut out, self.birth);
        push_str(&mut out, "/S");
        mask_to_digits(&mut out, self.survive);
        string_from_chars(out)
    }

    /// Human-readable name if this is a known preset, else B/S string.
    pub fn display_name(&self) -> (s: String)
        ensures
            s@ == spec_rule_display(*self),
    {
        let lit = if *self == Self::conway() {
            "conway (B3/S23)"
        } else if *self == Self::highlife() {
            "highlife (B36/S23)"
        } else if *self == Self::seeds() {
            "seeds (B2/S)"
        } else if *self == Self::daynight() {
            "daynight (B3678/S34678)"
        } else if *self == Self::life_without_death() {
            "life-without-death (B3/S012345678)"
        } else if *self == Self::maze() {
            "maze (B3/S12345)"
        } else if *self == Self::replicator() {
            "replicator (B1357/S1357)"
        } else {
            return self.to_string_bs();
        };
        string_from_chars(str_chars(lit))
    }
}

impl Default for Rule {
    fn default() -> (r: Self)
        ensures
            r == conway_rule(),
    {
        Rule::conway()
    }
}

/// Top-level automaton selection: binary Life-like or multi-state.
#[derive(Clone, Copy, Debug, PartialEq, Eq, Structural)]
pub enum CaRule {
    /// Binary birth/survive Life-like rule.
    LifeLike(Rule),
    /// Brian's Brain: 0=dead, 1=firing, 2=refractory.
    BriansBrain,
}

/// Names of Brian's Brain (lower-cased, trimmed text).
pub open spec fn is_brain_name(t: Seq<char>) -> bool {
    t == "brian"@ || t == "brains"@ || t == "brians-brain"@ || t == "brian's-brain"@ || t
        == "briansbrain"@ || t == "bb"@
}

/// The automaton that a text names.
pub open spec fn spec_parse_ca_rule(s: Seq<char>) -> Option<CaRule> {
    if is_brain_name(lower_seq(trim_seq(s))) {
        Some(CaRule::BriansBrain)
    } else {
        match spec_parse_rule(s) {
            Some(r) => Some(CaRule::LifeLike(r)),
            None => None,
        }
    }
}

/// Brian's Brain by name, in any letter case and with any surrounding
/// blanks: `brian`, `brains`, `brians-brain`, `brian's-brain`, `briansbrain`
/// or `bb`; every Life-like rule text reads as that Life-like rule.
pub proof fn law_brain_names(s: Seq<char>)
    ensures
        ({
            let t = lower_seq(trim_seq(s));
            &&& (t == "brian"@ || t == "brains"@ || t == "brians-brain"@ || t == "brian's-brain"@
                || t == "briansbrain"@ || t == "bb"@) ==> spec_parse_ca_rule(s) == Some(
                CaRule::BriansBrain,
            )
            &&& (t == "daynight"@ || t == "day&night"@) ==> spec_parse_ca_rule(s) == Some(
                CaRule::LifeLike(Rule { birth: 456, survive: 472 }),
            )
        }),
{
    reveal_strlit("brian");
    reveal_strlit("brains");
    reveal_strlit("brians-brain");
    reveal_strlit("brian's-brain");
    reveal_strlit("briansbrain");
    reveal_strlit("bb");
    reveal_strlit("daynight");
    reveal_strlit("day&night");
    law_rule_presets(s);
}

/// Canonical rule text for RLE headers and status lines.
pub open spec fn spec_ca_rule_bs(r: CaRule) -> Seq<char> {
    match r {
        CaRule::LifeLike(rule) => spec_rule_bs(rule),
        CaRule::BriansBrain => "BB"@,
    }
}

impl CaRule {
    /// Parse Life-like notation, named preset, or multi-state name.
    ///
    /// Multi-state: `brian`, `brains`, `brians-brain`, `bb`.
    pub fn parse(s: &str) -> (r: Result<Self, String>)
        ensures
            match r {
                Ok(rule) => spec_parse_ca_rule(s@) == Some(rule),
                Err(m) => spec_parse_ca_rule(s@) is None && m@ == spec_rule_error(s@),
            },
    {
        let raw = str_chars(s);
        let trimmed = trim_chars(raw.as_slice());
        let t = lower_chars(trimmed.as_slice());
        let ts = t.as_slice();
        if chars_eq_str(ts, "brian") || chars_eq_str(ts, "brains") || chars_eq_str(ts, "brians-brain")
            || chars_eq_str(ts, "brian's-brain") || chars_eq_str(ts, "briansbrain")
            || chars_eq_str(ts, "bb") {
            return Ok(CaRule::BriansBrain);
        }
        match Rule::parse(s) {
            Ok(r) => Ok(CaRule::LifeLike(r)),
            Err(e) => Err(e),
        }
    }

    pub fn is_multistate(self) -> (b: bool)
        ensures
            b == (self is BriansBrain),
    {
        match self {
            CaRule::BriansBrain => true,
            CaRule::LifeLike(_) => false,
        }
    }

    /// Max cell states used by this rule (2 binary, 3 Brian's Brain).
    pub fn states(self) -> (n: u8)
        ensures
            n == (if self is BriansBrain { 3u8 } else { 2u8 }),
    {
        match self {
            CaRule::LifeLike(_) => 2,
            CaRule::BriansBrain => 3,
        }
    }

    pub fn as_life_like(self) -> (r: Option<Rule>)
        ensures
            r == (match self {
                CaRule::LifeLike(rule) => Some(rule),
                CaRule::BriansBrain => None,
            }),
    {
        match self {
            CaRule::LifeLike(r) => Some(r),
            CaRule::BriansBrain => None,
        }
    }

    /// Canonical string for RLE `rule =` headers and status lines.
    pub fn to_string_bs(self) -> (s: String)
        ensures
            s@ == spec_ca_rule_bs(self),
    {
        match self {
            CaRule::LifeLike(r) => r.to_string_bs(),
            CaRule::BriansBrain => string_from_chars(str_chars("BB")),
        }
    }

    pub fn display_name(self) -> (s: String)
        ensures
            s@ == (match self {
                CaRule::LifeLike(rule) => spec_rule_display(rule),
                CaRule::BriansBrain => "brian (Brian's Brain)"@,
            }),
    {
        match self {
            CaRule::LifeLike(r) => r.display_name(),
            CaRule::BriansBrain => string_from_chars(str_chars("brian (Brian's Brain)")),
        }
    }
}

impl Default for CaRule {
    fn default() -> (r: Self)
        ensures
            r == CaRule::LifeLike(conway_rule()),
    {
        CaRule::LifeLike(Rule::conway())
    }
}

/// The preset named by the lower-cased, trimmed text `t`, if any.
fn named_preset(t: &[char]) -> (r: Option<Rule>)
    ensures
        r == named_rule(t@),
{
    if chars_eq_str(t, "conway") || chars_eq_str(t, "life") || chars_eq_str(t, "b3/s23") {
        Some(Rule::conway())
    } else if chars_eq_str(t, "highlife") || chars_eq_str(t, "b36/s23") {
        Some(Rule::highlife())
    } else if chars_eq_str(t, "seeds") || chars_eq_str(t, "b2/s") {
        Some(Rule::seeds())
    } else if chars_eq_str(t, "daynight") || chars_eq_str(t, "day-night") || chars_eq_str(
        t,
        "day&night",
    ) || chars_eq_str(t, "b3678/s34678") {
        Some(Rule::daynight())
    } else if chars_eq_str(t, "life-without-death") || chars_eq_str(t, "lwd") || chars_eq_str(
        t,
        "b3/s012345678",
    ) {
        Some(Rule::life_without_death())
    } else if chars_eq_str(t, "maze") || chars_eq_str(t, "b3/s12345") {
        Some(Rule::maze())
    } else if chars_eq_str(t, "replicator") || chars_eq_str(t, "b1357/s1357") {
        Some(Rule::replicator())
    } else {
        None
    }
}

fn all_ascii_digits(s: &[char]) -> (b: bool)
    ensures
        b == all_digits(s@),
{
    let mut i: usize = 0;
    while i < s.len()
        invariant
            i <= s@.len(),
            forall|j: int| 0 <= j < i ==> is_ascii_digit(#[trigger] s@[j]),
        decreases s@.len() - i,
    {
        if !('0' <= s[i] && s[i] <= '9') {
            return false;
        }
        i += 1;
    }
    true
}

fn counts_to_mask(counts: &[u8]) -> (r: Result<u16, String>)
    ensures
        match r {
            Ok(m) => counts_in_range(counts@) && m == mask_of(counts@),
            Err(e) => !counts_in_range(counts@) && e@ == counts_error(counts@),
        },
{
    let mut mask: u16 = 0;
    let mut i: usize = 0;
    while i < counts.len()
        invariant
            i <= counts@.len(),
            counts_in_range(counts@.take(i as int)),
            mask == mask_of(counts@.take(i as int)),
        decreases counts@.len() - i,
    {
        let c = counts[i];
        if c > 8 {
            proof {
                assert forall|j: int| 0 <= j < i implies #[trigger] counts@[j] <= 8 by {
                    assert(counts@.take(i as int)[j] == counts@[j]);
                }
                lemma_counts_error_at(counts@, i as int);
            }
            let mut msg: Vec<char> = Vec::new();
            push_str(&mut msg, "neighbor count ");
            push_decimal(&mut msg, c as u128);
            push_str(&mut msg, " out of range 0..=8");
            return Err(string_from_chars(msg));
        }
        assert(counts@.take(i + 1).drop_last() =~= counts@.take(i as int));
        mask = mask | (1u16 << c);
        i += 1;
    }
    assert(counts@.take(counts@.len() as int) =~= counts@);
    Ok(mask)
}

fn parse_digit_counts(s: &[char]) -> (r: Result<Vec<u8>, String>)
    ensures
        match r {
            Ok(v) => digit_counts(s@) == Some(v@),
            Err(m) => digit_counts(s@) is None && m@ == digit_counts_error(s@),
        },
{
    let mut out: Vec<u8> = Vec::new();
    let mut i: usize = 0;
    while i < s.len()
        invariant
            i <= s@.len(),
            forall|j: int| 0 <= j < i ==> '0' <= #[trigger] s@[j] && s@[j] <= '8',
            out@ == s@.take(i as int).map_values(|c: char| digit_value(c) as u8),
        decreases s@.len() - i,
    {
        let c = s[i];
        if '0' <= c && c <= '9' {
            let d = (c as u8) - 48;
            if d > 8 {
                let mut msg: Vec<char> = Vec::new();
                push_str(&mut msg, "neighbor digit ");
                msg.push(c);
                push_str(&mut msg, " out of range 0..=8");
                proof {
                    lemma_digit_counts_error_at(s@, i as int);
                    assert(c == '9');
                    reveal_strlit("neighbor digit ");
                    reveal_strlit(" out of range 0..=8");
                    reveal_strlit("neighbor digit 9 out of range 0..=8");
                    assert(msg@ =~= "neighbor digit 9 out of range 0..=8"@);
                }
                return Err(string_from_chars(msg));
            }
            out.push(d);
            assert(s@.take(i + 1).map_values(|c: char| digit_value(c) as u8) =~= s@.take(
                i as int,
            ).map_values(|c: char| digit_value(c) as u8).push(digit_value(c) as u8));
        } else {
            let mut msg: Vec<char> = Vec::new();
            push_str(&mut msg, "invalid character in rule counts: ");
            msg.push(c);
            proof {
                lemma_digit_counts_error_at(s@, i as int);
            }
            return Err(string_from_chars(msg));
        }
        i += 1;
    }
    assert(s@.take(s@.len() as int) =~= s@);
    Ok(out)
}

/// Parse after leading `b`: e.g. `3/s23` or `36/s23`.
fn parse_bs_form(rest: &[char]) -> (r: Result<Rule, String>)
    ensures
        match r {
            Ok(rule) => spec_parse_bs(rest@) == Some(rule),
            Err(m) => spec_parse_bs(rest@) is None && m@ == bs_error(rest@),
        },
{
    let found = find_char(rest, '/');
    let k = match found {
        Some(k) => k,
        None => {
            let mut msg: Vec<char> = Vec::new();
            push_str(&mut msg, "expected B#/S# form, got: b");
            push_chars(&mut msg, rest);
            return Err(string_from_chars(msg));
        },
    };
    assert(k < rest.len());
    let b_part = copy_range(rest, 0, k);
    let s_full = copy_range(rest, k + 1, rest.len());
    assert(b_part@ =~= rest@.take(k as int));
    assert(s_full@ =~= rest@.skip(k + 1));
    if s_full.len() == 0 || s_full[0] != 's' {
        let mut msg: Vec<char> = Vec::new();
        push_str(&mut msg, "expected S after / in B…/S… rule, got: ");
        push_chars(&mut msg, rest);
        return Err(string_from_chars(msg));
    }
    let s_part = copy_range(s_full.as_slice(), 1, s_full.len());
    assert(s_part@ =~= s_full@.drop_first());
    let birth = match parse_digit_counts(b_part.as_slice()) {
        Ok(v) => v,
        Err(e) => {
            return Err(e);
        },
    };
    let survive = match parse_digit_counts(s_part.as_slice()) {
        Ok(v) => v,
        Err(e) => {
            return Err(e);
        },
    };
    proof {
        lemma_digit_counts_in_range(b_part@);
        lemma_digit_counts_in_range(s_part@);
    }
    Rule::from_lists(birth.as_slice(), survive.as_slice())
}

proof fn lemma_counts_error_at(s: Seq<u8>, i: int)
    requires
        0 <= i < s.len(),
        forall|j: int| 0 <= j < i ==> #[trigger] s[j] <= 8,
        s[i] > 8,
    ensures
        counts_error(s) == "neighbor count "@ + decimal_seq(s[i] as nat) + " out of range 0..=8"@,
    decreases i,
{
    if i > 0 {
        assert(s[0] <= 8);
        lemma_counts_error_at(s.drop_first(), i - 1);
    }
}

proof fn lemma_digit_counts_error_at(s: Seq<char>, i: int)
    requires
        0 <= i < s.len(),
        forall|j: int| 0 <= j < i ==> '0' <= #[trigger] s[j] && s[j] <= '8',
        !('0' <= s[i] && s[i] <= '8'),
    ensures
        digit_counts_error(s) == digit_counts_error(s.skip(i)),
        digit_counts_error(s.skip(i)) == (if s[i] == '9' {
            "neighbor digit 9 out of range 0..=8"@
        } else {
            "invalid character in rule counts: "@.push(s[i])
        }),
    decreases i,
{
    if i > 0 {
        assert('0' <= s[0] && s[0] <= '8');
        lemma_digit_counts_error_at(s.drop_first(), i - 1);
        assert(s.drop_first().skip(i - 1) =~= s.skip(i));
    } else {
        assert(s.skip(0) =~= s);
    }
}

proof fn lemma_digit_counts_in_range(s: Seq<char>)
    ensures
        digit_counts(s) matches Some(v) ==> counts_in_range(v),
{
    if digit_counts(s) is Some {
        let v = digit_counts(s)->Some_0;
        assert forall|i: int| 0 <= i < v.len() implies #[trigger] v[i] <= 8 by {
            assert('0' <= s[i] && s[i] <= '8');
        }
    }
}

/// Append the digits of the set bits 0..=8 of `mask`.
fn mask_to_digits(out: &mut Vec<char>, mask: u16)
    ensures
        final(out)@ == old(out)@ + mask_digits(mask),
{
    let mut i: u8 = 0;
    while i <= 8
        invariant
            i <= 9,
            out@ == old(out)@ + mask_digits_upto(mask, i as nat),
        decreases 9 - i,
    {
        if (mask & (1u16 << i)) != 0 {
            out.push(digit_to_char(i as u64));
        }
        i += 1;
    }
}

/// The counts that a run of digits stands for.
pub open spec fn digit_values(s: Seq<char>) -> Seq<u8> {
    s.map_values(|c: char| digit_value(c) as u8)
}

/// Bits `0..n` of a mask.
pub open spec fn low_mask(n: u16) -> u16 {
    ((1u16 << n) - 1) as u16
}

proof fn lemma_low_mask_step(m: u16, k: u16)
    by (bit_vector)
    requires
        k < 9,
    ensures
        (m & (1u16 << k)) != 0 ==> ((m & (((1u16 << k) - 1) as u16)) | (1u16 << k)) == (m & (((1u16
            << ((k + 1) as u16)) - 1) as u16)),
        (m & (1u16 << k)) == 0 ==> (m & (((1u16 << k) - 1) as u16)) == (m & (((1u16 << ((k + 1) as u16))
            - 1) as u16)),
{
}

proof fn lemma_low_mask_ends(m: u16)
    by (bit_vector)
    ensures
        (m & (((1u16 << 0u16) - 1) as u16)) == 0,
        m < 512 ==> (m & (((1u16 << 9u16) - 1) as u16)) == m,
{
}

/// The digits of a mask's bits below `n` read back as those bits.
proof fn lemma_mask_digits_round(m: u16, n: nat)
    requires
        n <= 9,
    ensures
        mask_of(digit_values(mask_digits_upto(m, n))) == m & low_mask(n as u16),
        forall|i: int|
            0 <= i < mask_digits_upto(m, n).len() ==> '0' <= #[trigger] mask_digits_upto(m, n)[i]
                && mask_digits_upto(m, n)[i] <= '8',
    decreases n,
{
    if n == 0 {
        lemma_low_mask_ends(m);
        assert(digit_values(Seq::<char>::empty()) =~= Seq::<u8>::empty());
    } else {
        lemma_mask_digits_round(m, (n - 1) as nat);
        let k = (n - 1) as u16;
        lemma_low_mask_step(m, k);
        let prev = mask_digits_upto(m, (n - 1) as nat);
        if mask_has(m, n - 1) {
            let c = digit_char(n - 1);
            assert(c as int == n - 1 + '0' as int);
            assert(digit_values(prev.push(c)) =~= digit_values(prev).push(k as u8));
            assert(digit_values(prev).push(k as u8).drop_last() =~= digit_values(prev));
            assert forall|i: int| 0 <= i < prev.push(c).len() implies '0' <= #[trigger] prev.push(c)[i]
                && prev.push(c)[i] <= '8' by {
                if i < prev.len() {
                    assert(prev.push(c)[i] == prev[i]);
                }
            }
        }
    }
}

/// The lower-cased, trimmed canonical text of a rule.
proof fn lemma_rule_text_lower(r: Rule)
    ensures
        lower_seq(trim_seq(spec_rule_bs(r))) == seq!['b'] + mask_digits(r.birth) + seq!['/', 's']
            + mask_digits(r.survive),
{
    reveal_strlit("B");
    reveal_strlit("/S");
    let mb = mask_digits(r.birth);
    let ms = mask_digits(r.survive);
    lemma_mask_digits_round(r.birth, 9);
    lemma_mask_digits_round(r.survive, 9);
    let bs = spec_rule_bs(r);
    assert(bs =~= seq!['B'] + mb + seq!['/', 'S'] + ms);
    if ms.len() > 0 {
        assert(bs.last() == ms.last());
    } else {
        assert(bs.last() == 'S');
    }
    lemma_trim_plain(bs);
    assert(lower_seq(bs) =~= seq!['b'] + mb + seq!['/', 's'] + ms) by {
        assert forall|i: int| 0 <= i < bs.len() implies #[trigger] lower_seq(bs)[i] == (seq!['b'] + mb
            + seq!['/', 's'] + ms)[i] by {
            if 1 <= i < 1 + mb.len() {
                assert(bs[i] == mb[i - 1]);
            } else if i >= 3 + mb.len() {
                assert(bs[i] == ms[i - 3 - mb.len()]);
            }
        }
    }
}

/// `B…/S…` text (after its `b`) made of two digit runs reads back as their masks.
proof fn lemma_bs_path(r: Rule)
    requires
        r.birth < 512,
        r.survive < 512,
    ensures
        spec_parse_bs(mask_digits(r.birth) + seq!['/', 's'] + mask_digits(r.survive)) == Some(r),
{
    let mb = mask_digits(r.birth);
    let ms = mask_digits(r.survive);
    lemma_mask_digits_round(r.birth, 9);
    lemma_mask_digits_round(r.survive, 9);
    lemma_low_mask_ends(r.birth);
    lemma_low_mask_ends(r.survive);
    let rest = mb + seq!['/', 's'] + ms;
    assert forall|j: int| 0 <= j < mb.len() implies rest[j] != '/' by {
        assert(rest[j] == mb[j]);
    }
    lemma_find_first(rest, '/', mb.len() as int);
    assert(rest.take(mb.len() as int) =~= mb);
    assert(rest.skip(mb.len() as int + 1) =~= seq!['s'] + ms);
    assert((seq!['s'] + ms).drop_first() =~= ms);
    assert(digit_counts(mb) == Some(digit_values(mb)));
    assert(digit_counts(ms) == Some(digit_values(ms)));
    assert(counts_in_range(digit_values(mb))) by {
        assert forall|i: int| 0 <= i < digit_values(mb).len() implies #[trigger] digit_values(mb)[i] <= 8 by {
            assert('0' <= mb[i] && mb[i] <= '8');
        }
    }
    assert(counts_in_range(digit_values(ms))) by {
        assert forall|i: int| 0 <= i < digit_values(ms).len() implies #[trigger] digit_values(ms)[i] <= 8 by {
            assert('0' <= ms[i] && ms[i] <= '8');
        }
    }
}

proof fn lemma_mask_of_push(s: Seq<u8>, k: u8)
    ensures
        mask_of(s.push(k)) == mask_of(s) | (1u16 << (k as u16)),
{
    assert(s.push(k).drop_last() =~= s);
}

/// The masks of the digit runs that occur in the named `B…/S…` aliases.
proof fn lemma_alias_masks()
    ensures
        mask_of(digit_values(Seq::<char>::empty())) == 0u16,
        mask_of(digit_values(seq!['0'])) == 1u16,
        mask_of(digit_values(seq!['2'])) == 4u16,
        mask_of(digit_values(seq!['3'])) == 8u16,
        mask_of(digit_values(seq!['2', '3'])) == 12u16,
        mask_of(digit_values(seq!['3', '6'])) == 72u16,
        mask_of(digit_values(seq!['1', '3', '5', '7'])) == 170u16,
        mask_of(digit_values(seq!['3', '6', '7', '8'])) == 456u16,
        mask_of(digit_values(seq!['1', '2', '3', '4', '5'])) == 62u16,
        mask_of(digit_values(seq!['3', '4', '6', '7', '8'])) == 472u16,
        mask_of(digit_values(seq!['0', '1', '2', '3', '4', '5', '6', '7', '8'])) == 511u16,
{
    assert(mask_of(Seq::<u8>::empty()) == 0u16);
    assert(digit_values(Seq::<char>::empty()) =~= Seq::<u8>::empty());
    assert(digit_values(seq!['0']) =~= seq![0u8]);
    lemma_mask_of_push(Seq::<u8>::empty(), 0u8);
    assert(Seq::<u8>::empty().push(0u8) =~= seq![0u8]);
    assert((0u16 | (1u16 << 0u16)) == 1u16) by (bit_vector);
    assert(digit_values(seq!['2']) =~= seq![2u8]);
    lemma_mask_of_push(Seq::<u8>::empty(), 2u8);
    assert(Seq::<u8>::empty().push(2u8) =~= seq![2u8]);
    assert((0u16 | (1u16 << 2u16)) == 4u16) by (bit_vector);
    assert(digit_values(seq!['3']) =~= seq![3u8]);
    lemma_mask_of_push(Seq::<u8>::empty(), 3u8);
    assert(Seq::<u8>::empty().push(3u8) =~= seq![3u8]);
    assert((0u16 | (1u16 << 3u16)) == 8u16) by (bit_vector);
    assert(digit_values(seq!['2', '3']) =~= seq![2u8, 3u8]);
    lemma_mask_of_push(Seq::<u8>::empty(), 2u8);
    assert(Seq::<u8>::empty().push(2u8) =~= seq![2u8]);
    lemma_mask_of_push(seq![2u8], 3u8);
    assert(seq![2u8].push(3u8) =~= seq![2u8, 3u8]);
    assert(((0u16 | (1u16 << 2u16)) | (1u16 << 3u16)) == 12u16) by (bit_vector);
    assert(digit_values(seq!['3', '6']) =~= seq![3u8, 6u8]);
    lemma_mask_of_push(Seq::<u8>::empty(), 3u8);
    assert(Seq::<u8>::empty().push(3u8) =~= seq![3u8]);
    lemma_mask_of_push(seq![3u8], 6u8);
    assert(seq![3u8].push(6u8) =~= seq![3u8, 6u8]);
    assert(((0u16 | (1u16 << 3u16)) | (1u16 << 6u16)) == 72u16) by (bit_vector);
    assert(digit_values(seq!['1', '3', '5', '7']) =~= seq![1u8, 3u8, 5u8, 7u8]);
    lemma_mask_of_push(Seq::<u8>::empty(), 1u8);
    assert(Seq::<u8>::empty().push(1u8) =~= seq![1u8]);
    lemma_mask_of_push(seq![1u8], 3u8);
    assert(seq![1u8].push(3u8) =~= seq![1u8, 3u8]);
    lemma_mask_of_push(seq![1u8, 3u8], 5u8);
    assert(seq![1u8, 3u8].push(5u8) =~= seq![1u8, 3u8, 5u8]);
    lemma_mask_of_push(seq![1u8, 3u8, 5u8], 7u8);
    assert(seq![1u8, 3u8, 5u8].push(7u8) =~= seq![1u8, 3u8, 5u8, 7u8]);
    assert(((((0u16 | (1u16 << 1u16)) | (1u16 << 3u16)) | (1u16 << 5u16)) | (1u16 << 7u16)) == 170u16) by (bit_vector);
    assert(digit_values(seq!['3', '6', '7', '8']) =~= seq![3u8, 6u8, 7u8, 8u8]);
    lemma_mask_of_push(Seq::<u8>::empty(), 3u8);
    assert(Seq::<u8>::empty().push(3u8) =~= seq![3u8]);
    lemma_mask_of_push(seq![3u8], 6u8);
    assert(seq![3u8].push(6u8) =~= seq![3u8, 6u8]);
    lemma_mask_of_push(seq![3u8, 6u8], 7u8);
    assert(seq![3u8, 6u8].push(7u8) =~= seq![3u8, 6u8, 7u8]);
    lemma_mask_of_push(seq![3u8, 6u8, 7u8], 8u8);
    assert(seq![3u8, 6u8, 7u8].push(8u8) =~= seq![3u8, 6u8, 7u8, 8u8]);
    assert(((((0u16 | (1u16 << 3u16)) | (1u16 << 6u16)) | (1u16 << 7u16)) | (1u16 << 8u16)) == 456u16) by (bit_vector);
    assert(digit_values(seq!['1', '2', '3', '4', '5']) =~= seq![1u8, 2u8, 3u8, 4u8, 5u8]);
    lemma_mask_of_push(Seq::<u8>::empty(), 1u8);
    assert(Seq::<u8>::empty().push(1u8) =~= seq![1u8]);
    lemma_mask_of_push(seq![1u8], 2u8);
    assert(seq![1u8].push(2u8) =~= seq![1u8, 2u8]);
    lemma_mask_of_push(seq![1u8, 2u8], 3u8);
    assert(seq![1u8, 2u8].push(3u8) =~= seq![1u8, 2u8, 3u8]);
    lemma_mask_of_push(seq![1u8, 2u8, 3u8], 4u8);
    assert(seq![1u8, 2u8, 3u8].push(4u8) =~= seq![1u8, 2u8, 3u8, 4u8]);
    lemma_mask_of_push(seq![1u8, 2u8, 3u8, 4u8], 5u8);
    assert(seq![1u8, 2u8, 3u8, 4u8].push(5u8) =~= seq![1u8, 2u8, 3u8, 4u8, 5u8]);
    assert((((((0u16 | (1u16 << 1u16)) | (1u16 << 2u16)) | (1u16 << 3u16)) | (1u16 << 4u16)) | (1u16 << 5u16)) == 62u16) by (bit_vector);
    assert(digit_values(seq!['3', '4', '6', '7', '8']) =~= seq![3u8, 4u8, 6u8, 7u8, 8u8]);
    lemma_mask_of_push(Seq::<u8>::empty(), 3u8);
    assert(Seq::<u8>::empty().push(3u8) =~= seq![3u8]);
    lemma_mask_of_push(seq![3u8], 4u8);
    assert(seq![3u8].push(4u8) =~= seq![3u8, 4u8]);
    lemma_mask_of_push(seq![3u8, 4u8], 6u8);
    assert(seq![3u8, 4u8].push(6u8) =~= seq![3u8, 4u8, 6u8]);
    lemma_mask_of_push(seq![3u8, 4u8, 6u8], 7u8);
    assert(seq![3u8, 4u8, 6u8].push(7u8) =~= seq![3u8, 4u8, 6u8, 7u8]);
    lemma_mask_of_push(seq![3u8, 4u8, 6u8, 7u8], 8u8);
    assert(seq![3u8, 4u8, 6u8, 7u8].push(8u8) =~= seq![3u8, 4u8, 6u8, 7u8, 8u8]);
    assert((((((0u16 | (1u16 << 3u16)) | (1u16 << 4u16)) | (1u16 << 6u16)) | (1u16 << 7u16)) | (1u16 << 8u16)) == 472u16) by (bit_vector);
    assert(digit_values(seq!['0', '1', '2', '3', '4', '5', '6', '7', '8']) =~= seq![0u8, 1u8, 2u8, 3u8, 4u8, 5u8, 6u8, 7u8, 8u8]);
    lemma_mask_of_push(Seq::<u8>::empty(), 0u8);
    assert(Seq::<u8>::empty().push(0u8) =~= seq![0u8]);
    lemma_mask_of_push(seq![0u8], 1u8);
    assert(seq![0u8].push(1u8) =~= seq![0u8, 1u8]);
    lemma_mask_of_push(seq![0u8, 1u8], 2u8);
    assert(seq![0u8, 1u8].push(2u8) =~= seq![0u8, 1u8, 2u8]);
    lemma_mask_of_push(seq![0u8, 1u8, 2u8], 3u8);
    assert(seq![0u8, 1u8, 2u8].push(3u8) =~= seq![0u8, 1u8, 2u8, 3u8]);
    lemma_mask_of_push(seq![0u8, 1u8, 2u8, 3u8], 4u8);
    assert(seq![0u8, 1u8, 2u8, 3u8].push(4u8) =~= seq![0u8, 1u8, 2u8, 3u8, 4u8]);
    lemma_mask_of_push(seq![0u8, 1u8, 2u8, 3u8, 4u8], 5u8);
    assert(seq![0u8, 1u8, 2u8, 3u8, 4u8].push(5u8) =~= seq![0u8, 1u8, 2u8, 3u8, 4u8, 5u8]);
    lemma_mask_of_push(seq![0u8, 1u8, 2u8, 3u8, 4u8, 5u8], 6u8);
    assert(seq![0u8, 1u8, 2u8, 3u8, 4u8, 5u8].push(6u8) =~= seq![0u8, 1u8, 2u8, 3u8, 4u8, 5u8, 6u8]);
    lemma_mask_of_push(seq![0u8, 1u8, 2u8, 3u8, 4u8, 5u8, 6u8], 7u8);
    assert(seq![0u8, 1u8, 2u8, 3u8, 4u8, 5u8, 6u8].push(7u8) =~= seq![0u8, 1u8, 2u8, 3u8, 4u8, 5u8, 6u8, 7u8]);
    lemma_mask_of_push(seq![0u8, 1u8, 2u8, 3u8, 4u8, 5u8, 6u8, 7u8], 8u8);
    assert(seq![0u8, 1u8, 2u8, 3u8, 4u8, 5u8, 6u8, 7u8].push(8u8) =~= seq![0u8, 1u8, 2u8, 3u8, 4u8, 5u8, 6u8, 7u8, 8u8]);
    assert((((((((((0u16 | (1u16 << 0u16)) | (1u16 << 1u16)) | (1u16 << 2u16)) | (1u16 << 3u16)) | (1u16 << 4u16)) | (1u16 << 5u16)) | (1u16 << 6u16)) | (1u16 << 7u16)) | (1u16 << 8u16)) == 511u16) by (bit_vector);
}

/// Two texts `b X /s Y` with digit runs `X`, `Y` are equal only when their runs are.
proof fn lemma_bs_text_split(x1: Seq<char>, y1: Seq<char>, x2: Seq<char>, y2: Seq<char>)
    requires
        forall|i: int| 0 <= i < x1.len() ==> is_ascii_digit(#[trigger] x1[i]),
        forall|i: int| 0 <= i < x2.len() ==> is_ascii_digit(#[trigger] x2[i]),
        seq!['b'] + x1 + seq!['/', 's'] + y1 == seq!['b'] + x2 + seq!['/', 's'] + y2,
    ensures
        x1 == x2,
        y1 == y2,
{
    let a = seq!['b'] + x1 + seq!['/', 's'] + y1;
    let b = seq!['b'] + x2 + seq!['/', 's'] + y2;
    if x1.len() < x2.len() {
        assert(a[1 + x1.len() as int] == '/');
        assert(b[1 + x1.len() as int] == x2[x1.len() as int]);
        assert(is_ascii_digit(x2[x1.len() as int]));
    } else if x2.len() < x1.len() {
        assert(b[1 + x2.len() as int] == '/');
        assert(a[1 + x2.len() as int] == x1[x2.len() as int]);
        assert(is_ascii_digit(x1[x2.len() as int]));
    }
    assert(x1 =~= x2) by {
        assert forall|i: int| 0 <= i < x1.len() implies x1[i] == x2[i] by {
            assert(a[1 + i] == b[1 + i]);
        }
    }
    assert(a.len() == b.len());
    assert(y1.len() == y2.len());
    assert(y1 =~= y2) by {
        assert forall|i: int| 0 <= i < y1.len() implies y1[i] == y2[i] by {
            let j = 3 + x1.len() + i;
            assert(a[j] == y1[i]);
            assert(b[j] == y2[i]);
        }
    }
}

/// Round trip of automaton text: `BB` reads back as Brian's Brain, and the
/// canonical text of a Life-like rule reads back as that rule.
pub proof fn law_ca_rule_text_round_trip(c: CaRule)
    requires
        c matches CaRule::LifeLike(r) ==> r.birth < 512 && r.survive < 512,
    ensures
        spec_parse_ca_rule(spec_ca_rule_bs(c)) == Some(c),
{
    reveal_strlit("brian");
    reveal_strlit("brains");
    reveal_strlit("brians-brain");
    reveal_strlit("brian's-brain");
    reveal_strlit("briansbrain");
    reveal_strlit("bb");
    match c {
        CaRule::BriansBrain => {
            reveal_strlit("BB");
            lemma_trim_plain("BB"@);
            assert(lower_seq(trim_seq("BB"@)) =~= "bb"@);
        },
        CaRule::LifeLike(r) => {
            law_rule_text_round_trip(r);
            lemma_rule_text_lower(r);
            lemma_mask_digits_are_digits(r.birth, 9);
            let t = lower_seq(trim_seq(spec_rule_bs(r)));
            let mb = mask_digits(r.birth);
            assert(t[1] == '/' || is_ascii_digit(t[1])) by {
                if mb.len() > 0 {
                    assert(t[1] == mb[0]);
                } else {
                    assert(t[1] == '/');
                }
            }
            assert(!is_brain_name(t)) by {
                assert("brian"@[1] == 'r' && "brains"@[1] == 'r' && "brians-brain"@[1] == 'r');
                assert("brian's-brain"@[1] == 'r' && "briansbrain"@[1] == 'r' && "bb"@[1] == 'b');
            }
        },
    }
}

/// Round trip of rule text: the canonical `B…/S…` text of a rule whose masks
/// use only counts 0..=8 parses back to the rule.
pub proof fn law_rule_text_round_trip(r: Rule)
    requires
        r.birth < 512,
        r.survive < 512,
    ensures
        spec_parse_rule(spec_rule_bs(r)) == Some(r),
{
    let mb = mask_digits(r.birth);
    let ms = mask_digits(r.survive);
    let t = lower_seq(trim_seq(spec_rule_bs(r)));
    lemma_rule_text_lower(r);
    lemma_bs_path(r);
    lemma_mask_digits_round(r.birth, 9);
    lemma_mask_digits_round(r.survive, 9);
    lemma_low_mask_ends(r.birth);
    lemma_low_mask_ends(r.survive);
    lemma_mask_digits_are_digits(r.birth, 9);
    assert(t.drop_first() =~= mb + seq!['/', 's'] + ms);
    assert(t[0] == 'b');
    reveal_strlit("conway");
    assert(t != "conway"@) by {
        assert("conway"@[0] != t[0]);
    }
    reveal_strlit("life");
    assert(t != "life"@) by {
        assert("life"@[0] != t[0]);
    }
    reveal_strlit("highlife");
    assert(t != "highlife"@) by {
        assert("highlife"@[0] != t[0]);
    }
    reveal_strlit("seeds");
    assert(t != "seeds"@) by {
        assert("seeds"@[0] != t[0]);
    }
    reveal_strlit("daynight");
    assert(t != "daynight"@) by {
        assert("daynight"@[0] != t[0]);
    }
    reveal_strlit("day-night");
    assert(t != "day-night"@) by {
        assert("day-night"@[0] != t[0]);
    }
    reveal_strlit("day&night");
    assert(t != "day&night"@) by {
        assert("day&night"@[0] != t[0]);
    }
    reveal_strlit("life-without-death");
    assert(t != "life-without-death"@) by {
        assert("life-without-death"@[0] != t[0]);
    }
    reveal_strlit("lwd");
    assert(t != "lwd"@) by {
        assert("lwd"@[0] != t[0]);
    }
    reveal_strlit("maze");
    assert(t != "maze"@) by {
        assert("maze"@[0] != t[0]);
    }
    reveal_strlit("replicator");
    assert(t != "replicator"@) by {
        assert("replicator"@[0] != t[0]);
    }
    lemma_alias_masks();
    reveal_strlit("b3/s23");
    if t == "b3/s23"@ {
        assert("b3/s23"@ =~= seq!['b'] + seq!['3'] + seq!['/', 's'] + seq!['2', '3']);
        lemma_bs_text_split(mb, ms, seq!['3'], seq!['2', '3']);
        assert(r == conway_rule());
    }
    reveal_strlit("b36/s23");
    if t == "b36/s23"@ {
        assert("b36/s23"@ =~= seq!['b'] + seq!['3', '6'] + seq!['/', 's'] + seq!['2', '3']);
        lemma_bs_text_split(mb, ms, seq!['3', '6'], seq!['2', '3']);
        assert(r == highlife_rule());
    }
    reveal_strlit("b2/s");
    if t == "b2/s"@ {
        assert("b2/s"@ =~= seq!['b'] + seq!['2'] + seq!['/', 's'] + Seq::<char>::empty());
        lemma_bs_text_split(mb, ms, seq!['2'], Seq::<char>::empty());
        assert(r == seeds_rule());
    }
    reveal_strlit("b3678/s34678");
    if t == "b3678/s34678"@ {
        assert("b3678/s34678"@ =~= seq!['b'] + seq!['3', '6', '7', '8'] + seq!['/', 's'] + seq!['3', '4', '6', '7', '8']);
        lemma_bs_text_split(mb, ms, seq!['3', '6', '7', '8'], seq!['3', '4', '6', '7', '8']);
        assert(r == daynight_rule());
    }
    reveal_strlit("b3/s012345678");
    if t == "b3/s012345678"@ {
        assert("b3/s012345678"@ =~= seq!['b'] + seq!['3'] + seq!['/', 's'] + seq!['0', '1', '2', '3', '4', '5', '6', '7', '8']);
        lemma_bs_text_split(mb, ms, seq!['3'], seq!['0', '1', '2', '3', '4', '5', '6', '7', '8']);
        assert(r == lwd_rule());
    }
    reveal_strlit("b3/s12345");
    if t == "b3/s12345"@ {
        assert("b3/s12345"@ =~= seq!['b'] + seq!['3'] + seq!['/', 's'] + seq!['1', '2', '3', '4', '5']);
        lemma_bs_text_split(mb, ms, seq!['3'], seq!['1', '2', '3', '4', '5']);
        assert(r == maze_rule());
    }
    reveal_strlit("b1357/s1357");
    if t == "b1357/s1357"@ {
        assert("b1357/s1357"@ =~= seq!['b'] + seq!['1', '3', '5', '7'] + seq!['/', 's'] + seq!['1', '3', '5', '7']);
        lemma_bs_text_split(mb, ms, seq!['1', '3', '5', '7'], seq!['1', '3', '5', '7']);
        assert(r == replicator_rule());
    }
}


/// Every documented preset name and alias, in any letter case and with any
/// surrounding blanks, reads as its preset, whose birth and survival masks
/// (bit `n` for `n` neighbours) are: Conway B3/S23 (8, 12), HighLife B36/S23
/// (72, 12), Seeds B2/S (4, 0), Day & Night B3678/S34678 (456, 472), Life
/// without Death B3/S012345678 (8, 511), Maze B3/S12345 (8, 62), Replicator
/// B1357/S1357 (170, 170).
pub proof fn law_rule_presets(s: Seq<char>)
    ensures
        ({
            let t = lower_seq(trim_seq(s));
            &&& (t == "conway"@ || t == "life"@ || t == "b3/s23"@) ==> spec_parse_rule(s) == Some(
                Rule { birth: 8, survive: 12 },
            )
            &&& (t == "highlife"@ || t == "b36/s23"@) ==> spec_parse_rule(s) == Some(
                Rule { birth: 72, survive: 12 },
            )
            &&& (t == "seeds"@ || t == "b2/s"@) ==> spec_parse_rule(s) == Some(
                Rule { birth: 4, survive: 0 },
            )
            &&& (t == "daynight"@ || t == "day-night"@ || t == "day&night"@ || t == "b3678/s34678"@)
                ==> spec_parse_rule(s) == Some(Rule { birth: 456, survive: 472 })
            &&& (t == "life-without-death"@ || t == "lwd"@ || t == "b3/s012345678"@)
                ==> spec_parse_rule(s) == Some(Rule { birth: 8, survive: 511 })
            &&& (t == "maze"@ || t == "b3/s12345"@) ==> spec_parse_rule(s) == Some(
                Rule { birth: 8, survive: 62 },
            )
            &&& (t == "replicator"@ || t == "b1357/s1357"@) ==> spec_parse_rule(s) == Some(
                Rule { birth: 170, survive: 170 },
            )
        }),
{
    reveal_strlit("conway");
    reveal_strlit("life");
    reveal_strlit("b3/s23");
    reveal_strlit("highlife");
    reveal_strlit("b36/s23");
    reveal_strlit("seeds");
    reveal_strlit("b2/s");
    reveal_strlit("daynight");
    reveal_strlit("day-night");
    reveal_strlit("day&night");
    reveal_strlit("b3678/s34678");
    reveal_strlit("life-without-death");
    reveal_strlit("lwd");
    reveal_strlit("b3/s012345678");
    reveal_strlit("maze");
    reveal_strlit("b3/s12345");
    reveal_strlit("replicator");
    reveal_strlit("b1357/s1357");
}

} // verus!
