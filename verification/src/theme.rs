//! Named colour themes for terminal rendering and PPM export.

use vstd::prelude::*;
use crate::text::{
    chars_eq_str, decimal_seq, lower_chars, lower_seq, push_chars, push_decimal, push_str, str_chars,
    string_from_chars, trim_chars, trim_seq, lemma_trim_plain,
};

verus! {

/// A named colour theme: solid live colour, header accents, and age ramps.
#[derive(Debug, Clone, Copy, PartialEq, Eq)]
pub struct Theme {
    pub name: &'static str,
    /// Classic 16-colour SGR code for solid live cells (e.g. 32 = green).
    pub live_sgr: u8,
    /// Header title SGR (bold-friendly 16-colour code).
    pub title_sgr: u8,
    /// Accent SGR for gen / extras.
    pub accent_sgr: u8,
    /// Pop / secondary accent.
    pub pop_sgr: u8,
    /// RGB for solid live cells (PPM / non-age).
    pub live_rgb: (u8, u8, u8),
    /// RGB for dead cells (PPM background).
    pub dead_rgb: (u8, u8, u8),
}

/// The built-in themes in cycling order: classic, neon, fire, ocean, mono.
pub open spec fn preset(i: int) -> Theme {
    if i == 0 {
        Theme {
            name: "classic",
            live_sgr: 32,
            title_sgr: 36,
            accent_sgr: 33,
            pop_sgr: 35,
            live_rgb: (0, 220, 80),
            dead_rgb: (0, 0, 0),
        }
    } else if i == 1 {
        Theme {
            name: "neon",
            live_sgr: 96,
            title_sgr: 95,
            accent_sgr: 93,
            pop_sgr: 96,
            live_rgb: (0, 255, 220),
            dead_rgb: (8, 0, 20),
        }
    } else if i == 2 {
        Theme {
            name: "fire",
            live_sgr: 91,
            title_sgr: 91,
            accent_sgr: 93,
            pop_sgr: 33,
            live_rgb: (255, 90, 20),
            dead_rgb: (12, 4, 0),
        }
    } else if i == 3 {
        Theme {
            name: "ocean",
            live_sgr: 34,
            title_sgr: 36,
            accent_sgr: 34,
            pop_sgr: 36,
            live_rgb: (40, 160, 255),
            dead_rgb: (0, 8, 24),
        }
    } else {
        Theme {
            name: "mono",
            live_sgr: 37,
            title_sgr: 37,
            accent_sgr: 90,
            pop_sgr: 37,
            live_rgb: (230, 230, 230),
            dead_rgb: (0, 0, 0),
        }
    }
}

/// Position of a theme name in the cycle; a name that is not built in counts
/// as the first.
pub open spec fn theme_index(name: Seq<char>) -> int {
    if name == "neon"@ {
        1
    } else if name == "fire"@ {
        2
    } else if name == "ocean"@ {
        3
    } else if name == "mono"@ {
        4
    } else {
        0
    }
}

/// Which built-in theme a lower-cased, trimmed name or alias selects.
pub open spec fn theme_alias(t: Seq<char>) -> Option<int> {
    if t == "classic"@ || t == "default"@ || t == "green"@ {
        Some(0)
    } else if t == "neon"@ || t == "cyber"@ {
        Some(1)
    } else if t == "fire"@ || t == "hot"@ {
        Some(2)
    } else if t == "ocean"@ || t == "blue"@ || t == "sea"@ {
        Some(3)
    } else if t == "mono"@ || t == "mono chrome"@ || t == "monochrome"@ || t == "bw"@ || t
        == "gray"@ || t == "grey"@ {
        Some(4)
    } else {
        None
    }
}

/// The theme that a text names, if any.
pub open spec fn spec_parse_theme(s: Seq<char>) -> Option<Theme> {
    match theme_alias(lower_seq(trim_seq(s))) {
        Some(i) => Some(preset(i)),
        None => None,
    }
}

/// The message for a text that names no theme.
pub open spec fn theme_error(s: Seq<char>) -> Seq<char> {
    "unknown theme: "@ + lower_seq(trim_seq(s)) + " (try: classic, neon, fire, ocean, mono)"@
}

/// The theme after `t` in the cycle.
pub open spec fn spec_next_theme(t: Theme) -> Theme {
    preset((theme_index(t.name@) + 1) % 5)
}

/// ANSI 256-colour index of a cell of age `age` under the theme named `name`.
pub open spec fn age_code(name: Seq<char>, age: u16) -> u8 {
    let i = theme_index(name);
    if i == 1 {
        neon_ramp_256(age)
    } else if i == 2 {
        fire_ramp_256(age)
    } else if i == 3 {
        ocean_ramp_256(age)
    } else if i == 4 {
        mono_ramp_256(age)
    } else {
        classic_ramp_256(age)
    }
}

/// RGB of a cell of age `age` under the theme named `name`.
pub open spec fn age_colour(name: Seq<char>, age: u16) -> (u8, u8, u8) {
    let i = theme_index(name);
    if i == 1 {
        neon_ramp_rgb(age)
    } else if i == 2 {
        fire_ramp_rgb(age)
    } else if i == 3 {
        ocean_ramp_rgb(age)
    } else if i == 4 {
        mono_ramp_rgb(age)
    } else {
        classic_ramp_rgb(age)
    }
}

/// The SGR escape `ESC [ prefix code m`.
pub open spec fn sgr_text(prefix: Seq<char>, code: u8) -> Seq<char> {
    seq!['\u{1b}', '['] + prefix + decimal_seq(code as nat) + seq!['m']
}

/// A built-in theme's name has no blanks and no upper-case letters.
proof fn lemma_preset_name_plain(i: int)
    requires
        0 <= i < 5,
    ensures
        lower_seq(trim_seq(preset(i).name@)) == preset(i).name@,
{
    reveal_strlit("classic");
    reveal_strlit("neon");
    reveal_strlit("fire");
    reveal_strlit("ocean");
    reveal_strlit("mono");
    let n = preset(i).name@;
    lemma_trim_plain(n);
    assert(lower_seq(n) =~= n);
}

/// Each built-in theme is found again by its own name, and moving to the next
/// theme steps through the cycle classic, neon, fire, ocean, mono and back.
pub proof fn law_theme_names_and_cycle(i: int)
    requires
        0 <= i < 5,
    ensures
        spec_parse_theme(preset(i).name@) == Some(preset(i)),
        theme_index(preset(i).name@) == i,
        spec_next_theme(preset(i)) == preset((i + 1) % 5),
        spec_next_theme(spec_next_theme(spec_next_theme(spec_next_theme(spec_next_theme(preset(i))))))
            == preset(i),
{
    reveal_strlit("classic");
    reveal_strlit("default");
    reveal_strlit("green");
    reveal_strlit("neon");
    reveal_strlit("cyber");
    reveal_strlit("fire");
    reveal_strlit("hot");
    reveal_strlit("ocean");
    reveal_strlit("blue");
    reveal_strlit("sea");
    reveal_strlit("mono");
    reveal_strlit("mono chrome");
    reveal_strlit("monochrome");
    reveal_strlit("bw");
    reveal_strlit("gray");
    reveal_strlit("grey");
    lemma_preset_name_plain(i);
    assert("classic"@[0] == 'c' && "neon"@[0] == 'n' && "fire"@[0] == 'f' && "ocean"@[0] == 'o'
        && "mono"@[0] == 'm');
    assert(spec_next_theme(preset(0)) == preset(1));
    assert(spec_next_theme(preset(1)) == preset(2));
    assert(spec_next_theme(preset(2)) == preset(3));
    assert(spec_next_theme(preset(3)) == preset(4));
    assert(spec_next_theme(preset(4)) == preset(0));
}

/// Names of the built-in themes, in cycling order.
pub fn theme_names() -> (v: Vec<&'static str>)
    ensures
        v@.len() == 5,
        forall|i: int| 0 <= i < 5 ==> #[trigger] v@[i]@ == preset(i).name@,
{
    vec!["classic", "neon", "fire", "ocean", "mono"]
}

/// Position in the cycle of the theme called `name` (0 where none is).
fn index_of_name(name: &str) -> (i: usize)
    ensures
        i == theme_index(name@),
{
    let n = str_chars(name);
    let s = n.as_slice();
    if chars_eq_str(s, "neon") {
        1
    } else if chars_eq_str(s, "fire") {
        2
    } else if chars_eq_str(s, "ocean") {
        3
    } else if chars_eq_str(s, "mono") {
        4
    } else {
        0
    }
}

/// Append the SGR escape `ESC [ prefix code m`.
pub fn push_sgr(out: &mut Vec<char>, prefix: &str, code: u8)
    ensures
        final(out)@ == old(out)@ + sgr_text(prefix@, code),
{
    out.push('\u{1b}');
    out.push('[');
    push_str(out, prefix);
    push_decimal(out, code as u128);
    out.push('m');
    assert(out@ =~= old(out)@ + sgr_text(prefix@, code));
}

fn sgr(prefix: &str, code: u8) -> (s: String)
    ensures
        s@ == sgr_text(prefix@, code),
{
    let mut out: Vec<char> = Vec::new();
    push_sgr(&mut out, prefix, code);
    assert(out@ =~= sgr_text(prefix@, code));
    string_from_chars(out)
}

impl Theme {
    pub fn classic() -> (t: Theme)
        ensures
            t == preset(0),
    {
        Theme {
            name: "classic",
            live_sgr: 32,
            title_sgr: 36,
            accent_sgr: 33,
            pop_sgr: 35,
            live_rgb: (0, 220, 80),
            dead_rgb: (0, 0, 0),
        }
    }

    pub fn neon() -> (t: Theme)
        ensures
            t == preset(1),
    {
        Theme {
            name: "neon",
            live_sgr: 96,
            title_sgr: 95,
            accent_sgr: 93,
            pop_sgr: 96,
            live_rgb: (0, 255, 220),
            dead_rgb: (8, 0, 20),
        }
    }

    pub fn fire() -> (t: Theme)
        ensures
            t == preset(2),
    {
        Theme {
            name: "fire",
            live_sgr: 91,
            title_sgr: 91,
            accent_sgr: 93,
            pop_sgr: 33,
            live_rgb: (255, 90, 20),
            dead_rgb: (12, 4, 0),
        }
    }

    pub fn ocean() -> (t: Theme)
        ensures
            t == preset(3),
    {
        Theme {
            name: "ocean",
            live_sgr: 34,
            title_sgr: 36,
            accent_sgr: 34,
            pop_sgr: 36,
            live_rgb: (40, 160, 255),
            dead_rgb: (0, 8, 24),
        }
    }

    pub fn mono() -> (t: Theme)
        ensures
            t == preset(4),
    {
        Theme {
            name: "mono",
            live_sgr: 37,
            title_sgr: 37,
            accent_sgr: 90,
            pop_sgr: 37,
            live_rgb: (230, 230, 230),
            dead_rgb: (0, 0, 0),
        }
    }

    /// The built-in theme at position `i` of the cycle.
    fn at(i: usize) -> (t: Theme)
        requires
            i < 5,
        ensures
            t == preset(i as int),
    {
        if i == 0 {
            Self::classic()
        } else if i == 1 {
            Self::neon()
        } else if i == 2 {
            Self::fire()
        } else if i == 3 {
            Self::ocean()
        } else {
            Self::mono()
        }
    }

    /// All built-in themes, in cycling order.
    pub fn all() -> (v: Vec<Theme>)
        ensures
            v@.len() == 5,
            forall|i: int| 0 <= i < 5 ==> #[trigger] v@[i] == preset(i),
    {
        vec![Self::classic(), Self::neon(), Self::fire(), Self::ocean(), Self::mono()]
    }

    /// Theme by name or alias (trimmed, ASCII case-insensitive).
    pub fn parse(s: &str) -> (r: Result<Self, String>)
        ensures
            match r {
                Ok(t) => spec_parse_theme(s@) == Some(t),
                Err(m) => spec_parse_theme(s@) is None && m@ == theme_error(s@),
            },
    {
        let raw = str_chars(s);
        let trimmed = trim_chars(raw.as_slice());
        let t = lower_chars(trimmed.as_slice());
        let ts = t.as_slice();
        if chars_eq_str(ts, "classic") || chars_eq_str(ts, "default") || chars_eq_str(ts, "green") {
            Ok(Self::classic())
        } else if chars_eq_str(ts, "neon") || chars_eq_str(ts, "cyber") {
            Ok(Self::neon())
        } else if chars_eq_str(ts, "fire") || chars_eq_str(ts, "hot") {
            Ok(Self::fire())
        } else if chars_eq_str(ts, "ocean") || chars_eq_str(ts, "blue") || chars_eq_str(ts, "sea") {
            Ok(Self::ocean())
        } else if chars_eq_str(ts, "mono") || chars_eq_str(ts, "mono chrome") || chars_eq_str(
            ts,
            "monochrome",
        ) || chars_eq_str(ts, "bw") || chars_eq_str(ts, "gray") || chars_eq_str(ts, "grey") {
            Ok(Self::mono())
        } else {
            let mut out: Vec<char> = Vec::new();
            push_str(&mut out, "unknown theme: ");
            push_chars(&mut out, ts);
            push_str(&mut out, " (try: classic, neon, fire, ocean, mono)");
            Err(string_from_chars(out))
        }
    }

    /// Next theme in the cycle (for interactive `t`).
    pub fn next(self) -> (t: Self)
        ensures
            t == spec_next_theme(self),
    {
        let i = index_of_name(self.name);
        Self::at((i + 1) % 5)
    }

    /// ANSI 256 colour index for a cell of the given age within this theme.
    pub fn age_color_256(self, age: u16) -> (c: u8)
        ensures
            c == age_code(self.name@, age),
    {
        let i = index_of_name(self.name);
        if i == 1 {
            neon_age(age)
        } else if i == 2 {
            fire_age(age)
        } else if i == 3 {
            ocean_age(age)
        } else if i == 4 {
            mono_age(age)
        } else {
            classic_age(age)
        }
    }

    /// RGB for a live cell of the given age (PPM heat-map).
    pub fn age_rgb(self, age: u16) -> (c: (u8, u8, u8))
        ensures
            c == age_colour(self.name@, age),
    {
        let i = index_of_name(self.name);
        if i == 1 {
            age_rgb_neon(age)
        } else if i == 2 {
            age_rgb_fire(age)
        } else if i == 3 {
            age_rgb_ocean(age)
        } else if i == 4 {
            age_rgb_mono(age)
        } else {
            age_rgb_classic(age)
        }
    }

    /// SGR open sequence for solid live cells.
    pub fn live_ansi(self) -> (s: String)
        ensures
            s@ == sgr_text(""@, self.live_sgr),
    {
        sgr("", self.live_sgr)
    }

    /// Bold SGR open sequence for the header title.
    pub fn title_ansi(self) -> (s: String)
        ensures
            s@ == sgr_text("1;"@, self.title_sgr),
    {
        sgr("1;", self.title_sgr)
    }

    /// SGR open sequence for accents.
    pub fn accent_ansi(self) -> (s: String)
        ensures
            s@ == sgr_text(""@, self.accent_sgr),
    {
        sgr("", self.accent_sgr)
    }

    /// SGR open sequence for the secondary accent.
    pub fn pop_ansi(self) -> (s: String)
        ensures
            s@ == sgr_text(""@, self.pop_sgr),
    {
        sgr("", self.pop_sgr)
    }
}

impl Default for Theme {
    fn default() -> (t: Self)
        ensures
            t == preset(0),
    {
        Self::classic()
    }
}

/// ANSI 256-colour index by cell age, classic theme.
pub open spec fn classic_ramp_256(age: u16) -> u8 {
    if age == 0 {
        0u8
    } else if age == 1 {
        46u8
    } else if age == 2 {
        82u8
    } else if age <= 4 {
        118u8
    } else if age <= 7 {
        154u8
    } else if age <= 12 {
        190u8
    } else if age <= 20 {
        226u8
    } else if age <= 35 {
        220u8
    } else if age <= 55 {
        214u8
    } else if age <= 80 {
        208u8
    } else if age <= 120 {
        202u8
    } else if age <= 200 {
        196u8
    } else {
        160u8
    }
}

fn classic_age(age: u16) -> (c: u8)
    ensures
        c == classic_ramp_256(age),
{
    if age == 0 {
        0u8
    } else if age == 1 {
        46u8
    } else if age == 2 {
        82u8
    } else if age <= 4 {
        118u8
    } else if age <= 7 {
        154u8
    } else if age <= 12 {
        190u8
    } else if age <= 20 {
        226u8
    } else if age <= 35 {
        220u8
    } else if age <= 55 {
        214u8
    } else if age <= 80 {
        208u8
    } else if age <= 120 {
        202u8
    } else if age <= 200 {
        196u8
    } else {
        160u8
    }
}

/// ANSI 256-colour index by cell age, neon theme.
pub open spec fn neon_ramp_256(age: u16) -> u8 {
    if age == 0 {
        0u8
    } else if age == 1 {
        51u8
    } else if age == 2 {
        45u8
    } else if age <= 4 {
        39u8
    } else if age <= 7 {
        33u8
    } else if age <= 12 {
        201u8
    } else if age <= 20 {
        200u8
    } else if age <= 35 {
        165u8
    } else if age <= 55 {
        129u8
    } else if age <= 80 {
        93u8
    } else if age <= 120 {
        57u8
    } else {
        21u8
    }
}

fn neon_age(age: u16) -> (c: u8)
    ensures
        c == neon_ramp_256(age),
{
    if age == 0 {
        0u8
    } else if age == 1 {
        51u8
    } else if age == 2 {
        45u8
    } else if age <= 4 {
        39u8
    } else if age <= 7 {
        33u8
    } else if age <= 12 {
        201u8
    } else if age <= 20 {
        200u8
    } else if age <= 35 {
        165u8
    } else if age <= 55 {
        129u8
    } else if age <= 80 {
        93u8
    } else if age <= 120 {
        57u8
    } else {
        21u8
    }
}

/// ANSI 256-colour index by cell age, fire theme.
pub open spec fn fire_ramp_256(age: u16) -> u8 {
    if age == 0 {
        0u8
    } else if age == 1 {
        226u8
    } else if age == 2 {
        220u8
    } else if age <= 4 {
        214u8
    } else if age <= 7 {
        208u8
    } else if age <= 12 {
        202u8
    } else if age <= 20 {
        196u8
    } else if age <= 35 {
        160u8
    } else if age <= 55 {
        124u8
    } else if age <= 80 {
        88u8
    } else {
        52u8
    }
}

fn fire_age(age: u16) -> (c: u8)
    ensures
        c == fire_ramp_256(age),
{
    if age == 0 {
        0u8
    } else if age == 1 {
        226u8
    } else if age == 2 {
        220u8
    } else if age <= 4 {
        214u8
    } else if age <= 7 {
        208u8
    } else if age <= 12 {
        202u8
    } else if age <= 20 {
        196u8
    } else if age <= 35 {
        160u8
    } else if age <= 55 {
        124u8
    } else if age <= 80 {
        88u8
    } else {
        52u8
    }
}

/// ANSI 256-colour index by cell age, ocean theme.
pub open spec fn ocean_ramp_256(age: u16) -> u8 {
    if age == 0 {
        0u8
    } else if age == 1 {
        159u8
    } else if age == 2 {
        123u8
    } else if age <= 4 {
        87u8
    } else if age <= 7 {
        51u8
    } else if age <= 12 {
        45u8
    } else if age <= 20 {
        39u8
    } else if age <= 35 {
        33u8
    } else if age <= 55 {
        27u8
    } else if age <= 80 {
        21u8
    } else {
        17u8
    }
}

fn ocean_age(age: u16) -> (c: u8)
    ensures
        c == ocean_ramp_256(age),
{
    if age == 0 {
        0u8
    } else if age == 1 {
        159u8
    } else if age == 2 {
        123u8
    } else if age <= 4 {
        87u8
    } else if age <= 7 {
        51u8
    } else if age <= 12 {
        45u8
    } else if age <= 20 {
        39u8
    } else if age <= 35 {
        33u8
    } else if age <= 55 {
        27u8
    } else if age <= 80 {
        21u8
    } else {
        17u8
    }
}

/// ANSI 256-colour index by cell age, mono theme.
pub open spec fn mono_ramp_256(age: u16) -> u8 {
    if age == 0 {
        0u8
    } else if age == 1 {
        255u8
    } else if age == 2 {
        252u8
    } else if age <= 4 {
        250u8
    } else if age <= 7 {
        248u8
    } else if age <= 12 {
        245u8
    } else if age <= 20 {
        242u8
    } else if age <= 35 {
        238u8
    } else if age <= 55 {
        234u8
    } else {
        232u8
    }
}

fn mono_age(age: u16) -> (c: u8)
    ensures
        c == mono_ramp_256(age),
{
    if age == 0 {
        0u8
    } else if age == 1 {
        255u8
    } else if age == 2 {
        252u8
    } else if age <= 4 {
        250u8
    } else if age <= 7 {
        248u8
    } else if age <= 12 {
        245u8
    } else if age <= 20 {
        242u8
    } else if age <= 35 {
        238u8
    } else if age <= 55 {
        234u8
    } else {
        232u8
    }
}

/// RGB by cell age, classic theme.
pub open spec fn classic_ramp_rgb(age: u16) -> (u8, u8, u8) {
    if age == 0 {
        (0u8, 0u8, 0u8)
    } else if age == 1 {
        (0u8, 255u8, 80u8)
    } else if age == 2 {
        (80u8, 255u8, 40u8)
    } else if age <= 4 {
        (160u8, 255u8, 0u8)
    } else if age <= 7 {
        (220u8, 255u8, 0u8)
    } else if age <= 12 {
        (255u8, 240u8, 0u8)
    } else if age <= 20 {
        (255u8, 200u8, 0u8)
    } else if age <= 35 {
        (255u8, 140u8, 0u8)
    } else if age <= 55 {
        (255u8, 80u8, 0u8)
    } else if age <= 80 {
        (255u8, 40u8, 0u8)
    } else if age <= 120 {
        (220u8, 0u8, 0u8)
    } else {
        (160u8, 0u8, 0u8)
    }
}

fn age_rgb_classic(age: u16) -> (c: (u8, u8, u8))
    ensures
        c == classic_ramp_rgb(age),
{
    if age == 0 {
        (0u8, 0u8, 0u8)
    } else if age == 1 {
        (0u8, 255u8, 80u8)
    } else if age == 2 {
        (80u8, 255u8, 40u8)
    } else if age <= 4 {
        (160u8, 255u8, 0u8)
    } else if age <= 7 {
        (220u8, 255u8, 0u8)
    } else if age <= 12 {
        (255u8, 240u8, 0u8)
    } else if age <= 20 {
        (255u8, 200u8, 0u8)
    } else if age <= 35 {
        (255u8, 140u8, 0u8)
    } else if age <= 55 {
        (255u8, 80u8, 0u8)
    } else if age <= 80 {
        (255u8, 40u8, 0u8)
    } else if age <= 120 {
        (220u8, 0u8, 0u8)
    } else {
        (160u8, 0u8, 0u8)
    }
}

/// RGB by cell age, neon theme.
pub open spec fn neon_ramp_rgb(age: u16) -> (u8, u8, u8) {
    if age == 0 {
        (0u8, 0u8, 0u8)
    } else if age == 1 {
        (0u8, 255u8, 255u8)
    } else if age == 2 {
        (0u8, 200u8, 255u8)
    } else if age <= 7 {
        (80u8, 120u8, 255u8)
    } else if age <= 20 {
        (255u8, 0u8, 255u8)
    } else if age <= 55 {
        (200u8, 0u8, 200u8)
    } else {
        (120u8, 0u8, 180u8)
    }
}

fn age_rgb_neon(age: u16) -> (c: (u8, u8, u8))
    ensures
        c == neon_ramp_rgb(age),
{
    if age == 0 {
        (0u8, 0u8, 0u8)
    } else if age == 1 {
        (0u8, 255u8, 255u8)
    } else if age == 2 {
        (0u8, 200u8, 255u8)
    } else if age <= 7 {
        (80u8, 120u8, 255u8)
    } else if age <= 20 {
        (255u8, 0u8, 255u8)
    } else if age <= 55 {
        (200u8, 0u8, 200u8)
    } else {
        (120u8, 0u8, 180u8)
    }
}

/// RGB by cell age, fire theme.
pub open spec fn fire_ramp_rgb(age: u16) -> (u8, u8, u8) {
    if age == 0 {
        (0u8, 0u8, 0u8)
    } else if age == 1 {
        (255u8, 255u8, 100u8)
    } else if age == 2 {
        (255u8, 200u8, 40u8)
    } else if age <= 7 {
        (255u8, 140u8, 0u8)
    } else if age <= 20 {
        (255u8, 60u8, 0u8)
    } else if age <= 55 {
        (200u8, 0u8, 0u8)
    } else {
        (100u8, 0u8, 0u8)
    }
}

fn age_rgb_fire(age: u16) -> (c: (u8, u8, u8))
    ensures
        c == fire_ramp_rgb(age),
{
    if age == 0 {
        (0u8, 0u8, 0u8)
    } else if age == 1 {
        (255u8, 255u8, 100u8)
    } else if age == 2 {
        (255u8, 200u8, 40u8)
    } else if age <= 7 {
        (255u8, 140u8, 0u8)
    } else if age <= 20 {
        (255u8, 60u8, 0u8)
    } else if age <= 55 {
        (200u8, 0u8, 0u8)
    } else {
        (100u8, 0u8, 0u8)
    }
}

/// RGB by cell age, ocean theme.
pub open spec fn ocean_ramp_rgb(age: u16) -> (u8, u8, u8) {
    if age == 0 {
        (0u8, 0u8, 0u8)
    } else if age == 1 {
        (180u8, 240u8, 255u8)
    } else if age == 2 {
        (100u8, 200u8, 255u8)
    } else if age <= 7 {
        (40u8, 160u8, 255u8)
    } else if age <= 20 {
        (0u8, 100u8, 220u8)
    } else if age <= 55 {
        (0u8, 60u8, 160u8)
    } else {
        (0u8, 20u8, 80u8)
    }
}

fn age_rgb_ocean(age: u16) -> (c: (u8, u8, u8))
    ensures
        c == ocean_ramp_rgb(age),
{
    if age == 0 {
        (0u8, 0u8, 0u8)
    } else if age == 1 {
        (180u8, 240u8, 255u8)
    } else if age == 2 {
        (100u8, 200u8, 255u8)
    } else if age <= 7 {
        (40u8, 160u8, 255u8)
    } else if age <= 20 {
        (0u8, 100u8, 220u8)
    } else if age <= 55 {
        (0u8, 60u8, 160u8)
    } else {
        (0u8, 20u8, 80u8)
    }
}

/// RGB by cell age, mono theme.
pub open spec fn mono_ramp_rgb(age: u16) -> (u8, u8, u8) {
    if age == 0 {
        (0u8, 0u8, 0u8)
    } else if age == 1 {
        (255u8, 255u8, 255u8)
    } else if age == 2 {
        (230u8, 230u8, 230u8)
    } else if age <= 7 {
        (200u8, 200u8, 200u8)
    } else if age <= 20 {
        (160u8, 160u8, 160u8)
    } else if age <= 55 {
        (120u8, 120u8, 120u8)
    } else {
        (80u8, 80u8, 80u8)
    }
}

fn age_rgb_mono(age: u16) -> (c: (u8, u8, u8))
    ensures
        c == mono_ramp_rgb(age),
{
    if age == 0 {
        (0u8, 0u8, 0u8)
    } else if age == 1 {
        (255u8, 255u8, 255u8)
    } else if age == 2 {
        (230u8, 230u8, 230u8)
    } else if age <= 7 {
        (200u8, 200u8, 200u8)
    } else if age <= 20 {
        (160u8, 160u8, 160u8)
    } else if age <= 55 {
        (120u8, 120u8, 120u8)
    } else {
        (80u8, 80u8, 80u8)
    }
}

} // verus!
