//! Interactive keys: decoding key bytes and draining pending key presses.
//!
//! Reading the terminal is the caller's part; this module decides what the
//! bytes and key presses it reads mean.

use vstd::prelude::*;

verus! {

/// Keys we care about in interactive mode.
#[derive(Debug, Clone, Copy, PartialEq, Eq, Structural)]
pub enum Key {
    Space,
    /// '.'
    Step,
    /// '+' or '='
    Faster,
    /// '-'
    Slower,
    /// 'q' or 'Q'
    Quit,
    /// 'r' or 'R'
    Reseed,
    /// 't' or 'T' — cycle colour theme
    Theme,
    /// 'a' or 'A' — toggle age heat-map
    Age,
    /// 'w' or 'W' — toggle toroidal wrap
    Wrap,
    /// 's' or 'S' — save snapshot.rle
    Save,
    /// 'p' or 'P' — print population sparkline
    Sparkline,
    Other(u8),
}

/// The key a byte read from the terminal stands for.
pub open spec fn key_of(b: u8) -> Key {
    if b == 0x20 {
        Key::Space
    } else if b == 0x2e {
        Key::Step
    } else if b == 0x2b || b == 0x3d {
        Key::Faster
    } else if b == 0x2d {
        Key::Slower
    } else if b == 0x71 || b == 0x51 {
        Key::Quit
    } else if b == 0x72 || b == 0x52 {
        Key::Reseed
    } else if b == 0x74 || b == 0x54 {
        Key::Theme
    } else if b == 0x61 || b == 0x41 {
        Key::Age
    } else if b == 0x77 || b == 0x57 {
        Key::Wrap
    } else if b == 0x73 || b == 0x53 {
        Key::Save
    } else if b == 0x70 || b == 0x50 {
        Key::Sparkline
    } else {
        Key::Other(b)
    }
}

/// The keys of interactive mode: Space pauses, `.` steps, `+` or `=` speeds
/// up, `-` slows down, `q` quits, `r` reseeds, `t` cycles the theme, `a`
/// toggles the age heat-map, `w` toggles wrapping, `s` saves and `p` prints
/// the sparkline (letters in either case); any other byte is kept as it is.
pub proof fn law_keys(b: u8)
    ensures
        b == 32 ==> key_of(b) == Key::Space,
        b == 46 ==> key_of(b) == Key::Step,
        (b == 43 || b == 61) ==> key_of(b) == Key::Faster,
        b == 45 ==> key_of(b) == Key::Slower,
        (b == 113 || b == 81) ==> key_of(b) == Key::Quit,
        (b == 114 || b == 82) ==> key_of(b) == Key::Reseed,
        (b == 116 || b == 84) ==> key_of(b) == Key::Theme,
        (b == 97 || b == 65) ==> key_of(b) == Key::Age,
        (b == 119 || b == 87) ==> key_of(b) == Key::Wrap,
        (b == 115 || b == 83) ==> key_of(b) == Key::Save,
        (b == 112 || b == 80) ==> key_of(b) == Key::Sparkline,
        !(b == 32 || b == 46 || b == 43 || b == 61 || b == 45 || b == 113 || b == 81 || b == 114
            || b == 82 || b == 116 || b == 84 || b == 97 || b == 65 || b == 119 || b == 87 || b
            == 115 || b == 83 || b == 112 || b == 80) ==> key_of(b) == Key::Other(b),
{
}

impl Key {
    pub fn from_byte(b: u8) -> (k: Self)
        ensures
            k == key_of(b),
    {
        if b == 0x20 {
            Key::Space
        } else if b == 0x2e {
            Key::Step
        } else if b == 0x2b || b == 0x3d {
            Key::Faster
        } else if b == 0x2d {
            Key::Slower
        } else if b == 0x71 || b == 0x51 {
            Key::Quit
        } else if b == 0x72 || b == 0x52 {
            Key::Reseed
        } else if b == 0x74 || b == 0x54 {
            Key::Theme
        } else if b == 0x61 || b == 0x41 {
            Key::Age
        } else if b == 0x77 || b == 0x57 {
            Key::Wrap
        } else if b == 0x73 || b == 0x53 {
            Key::Save
        } else if b == 0x70 || b == 0x50 {
            Key::Sparkline
        } else {
            Key::Other(b)
        }
    }
}

/// What to do after polling one pending key press.
#[derive(Debug, Clone, Copy, PartialEq, Eq, Structural)]
pub enum Drain {
    /// Stop polling; the answer is the key carried.
    Stop(Option<Key>),
    /// Poll again; the key carried is the last one so far.
    More(Option<Key>),
}

/// The result of draining pending key presses, one at a time: `last` is the
/// last key so far, `polled` what the poll returned (`None` once nothing is
/// pending). Any quit wins at once; otherwise the last key is kept.
pub open spec fn spec_drain(last: Option<Key>, polled: Option<Key>) -> Drain {
    match polled {
        None => Drain::Stop(last),
        Some(Key::Quit) => Drain::Stop(Some(Key::Quit)),
        Some(k) => Drain::More(Some(k)),
    }
}

/// One step of draining pending key presses: the caller polls, hands over
/// what it got, and stops or polls again as told.
pub fn drain_keys(last: Option<Key>, polled: Option<Key>) -> (d: Drain)
    ensures
        d == spec_drain(last, polled),
{
    match polled {
        None => Drain::Stop(last),
        Some(Key::Quit) => Drain::Stop(Some(Key::Quit)),
        Some(k) => Drain::More(Some(k)),
    }
}

/// The outcome of draining a sequence of polls that ends with `None`: the
/// quit key where one was pressed, else the last key, else none.
pub open spec fn drain_outcome(last: Option<Key>, polls: Seq<Key>) -> Option<Key>
    decreases polls.len(),
{
    if polls.len() == 0 {
        last
    } else {
        match spec_drain(last, Some(polls[0])) {
            Drain::Stop(k) => k,
            Drain::More(k) => drain_outcome(k, polls.drop_first()),
        }
    }
}

/// Draining a batch of key presses gives quit where any of them is quit,
/// and otherwise the last of them (or nothing when there is none).
pub proof fn law_drain_quit_or_last(polls: Seq<Key>)
    ensures
        (exists|i: int| 0 <= i < polls.len() && polls[i] == Key::Quit) ==> drain_outcome(None, polls)
            == Some(Key::Quit),
        (forall|i: int| 0 <= i < polls.len() ==> polls[i] != Key::Quit) ==> drain_outcome(None, polls)
            == (if polls.len() == 0 {
            None
        } else {
            Some(polls.last())
        }),
{
    lemma_drain(None, polls);
}

proof fn lemma_drain(last: Option<Key>, polls: Seq<Key>)
    ensures
        (exists|i: int| 0 <= i < polls.len() && polls[i] == Key::Quit) ==> drain_outcome(last, polls)
            == Some(Key::Quit),
        (forall|i: int| 0 <= i < polls.len() ==> polls[i] != Key::Quit) ==> drain_outcome(last, polls)
            == (if polls.len() == 0 {
            last
        } else {
            Some(polls.last())
        }),
    decreases polls.len(),
{
    if polls.len() > 0 {
        let rest = polls.drop_first();
        lemma_drain(Some(polls[0]), rest);
        if polls[0] != Key::Quit {
            assert forall|i: int| 0 <= i < rest.len() && rest[i] == Key::Quit implies exists|
                j: int,
            | 0 <= j < polls.len() && polls[j] == Key::Quit by {
                assert(polls[i + 1] == Key::Quit);
            }
            if exists|i: int| 0 <= i < polls.len() && polls[i] == Key::Quit {
                let i = choose|i: int| 0 <= i < polls.len() && polls[i] == Key::Quit;
                assert(rest[i - 1] == Key::Quit);
            }
        }
    }
}

} // verus!
