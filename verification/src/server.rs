//! Decisions of the streaming HTTP/WebSocket server: reading the request
//! head, routing, control commands, and the text of simple responses.
//!
//! Sockets, threads, clocks and the shared simulation are the caller's part.

use vstd::prelude::*;
use crate::text::{
    chars_eq_str, copy_range, find_char, find_first, first_words, lemma_find_first, lower_chars, lower_seq, push_chars,
    push_decimal, push_str, str_chars, string_from_chars, trim_chars, trim_end_chars, trim_end_seq,
    trim_seq, words,
};

verus! {

/// The method and path of a request line: its first two blank-separated
/// words, `""` and `/` where missing.
pub open spec fn spec_request_line(line: Seq<char>) -> (Seq<char>, Seq<char>) {
    let ws = words(line);
    (
        if ws.len() > 0 {
            ws[0]
        } else {
            Seq::empty()
        },
        if ws.len() > 1 {
            ws[1]
        } else {
            "/"@
        },
    )
}

/// Method and path of a request line.
pub fn parse_request_line(line: &str) -> (r: (String, String))
    ensures
        (r.0@, r.1@) == spec_request_line(line@),
{
    let chars = str_chars(line);
    let ws = first_words(chars.as_slice());
    let method = if ws.len() > 0 {
        string_from_chars(copy_range(ws[0].as_slice(), 0, ws[0].len()))
    } else {
        string_from_chars(Vec::new())
    };
    let path = if ws.len() > 1 {
        string_from_chars(copy_range(ws[1].as_slice(), 0, ws[1].len()))
    } else {
        string_from_chars(str_chars("/"))
    };
    proof {
        if ws@.len() > 0 {
            assert(ws@[0]@.subrange(0, ws@[0]@.len() as int) =~= ws@[0]@);
        }
        if ws@.len() > 1 {
            assert(ws@[1]@.subrange(0, ws@[1]@.len() as int) =~= ws@[1]@);
        }
    }
    (method, path)
}

/// What a header line of a request is.
pub enum HeaderLine {
    /// The blank line that ends the head.
    End,
    /// `name: value`, the name trimmed and lower-cased, the value trimmed.
    Field(String, String),
    /// A line without a colon (ignored).
    Other,
}

/// The meaning of a header line: blank (after trimming its end) ends the
/// head; otherwise it splits at its first colon.
pub open spec fn spec_header_line(line: Seq<char>) -> Option<Option<(Seq<char>, Seq<char>)>> {
    let t = trim_end_seq(line);
    if t.len() == 0 {
        None
    } else {
        match find_first(t, ':') {
            Some(k) => Some(
                Some(
                    (lower_seq(trim_seq(t.take(k as int))), trim_seq(t.skip(k as int + 1))),
                ),
            ),
            None => Some(None),
        }
    }
}

/// Read one header line.
pub fn parse_header_line(line: &str) -> (r: HeaderLine)
    ensures
        match r {
            HeaderLine::End => spec_header_line(line@) is None,
            HeaderLine::Field(k, v) => spec_header_line(line@) == Some(Some((k@, v@))),
            HeaderLine::Other => spec_header_line(line@) == Some(None::<(Seq<char>, Seq<char>)>),
        },
{
    let chars = str_chars(line);
    let t = trim_end_chars(chars.as_slice());
    if t.len() == 0 {
        return HeaderLine::End;
    }
    let n = t.len();
    match find_char(t.as_slice(), ':') {
        Some(k) => {
            let name = copy_range(t.as_slice(), 0, k);
            let value = copy_range(t.as_slice(), k + 1, n);
            assert(name@ =~= t@.take(k as int));
            assert(value@ =~= t@.skip(k as int + 1));
            let name_t = trim_chars(name.as_slice());
            let name_l = lower_chars(name_t.as_slice());
            let value_t = trim_chars(value.as_slice());
            HeaderLine::Field(string_from_chars(name_l), string_from_chars(value_t))
        },
        None => {
            proof {
                lemma_no_colon(t@);
            }
            HeaderLine::Other
        },
    }
}

proof fn lemma_no_colon(s: Seq<char>)
    requires
        forall|j: int| 0 <= j < s.len() ==> s[j] != ':',
    ensures
        find_first(s, ':') is None,
    decreases s.len(),
{
    if s.len() > 0 {
        assert forall|j: int| 0 <= j < s.drop_first().len() implies s.drop_first()[j] != ':' by {
            assert(s.drop_first()[j] == s[j + 1]);
        }
        lemma_no_colon(s.drop_first());
    }
}

/// The endpoints the server answers.
#[derive(Debug, Clone, Copy, PartialEq, Eq, Structural)]
pub enum Route {
    Index,
    Healthz,
    Readyz,
    Metrics,
    State,
    Stream,
    WebSocket,
    NotFound,
}

/// The path without its query string.
pub open spec fn route_path(path: Seq<char>) -> Seq<char> {
    match find_first(path, '?') {
        Some(k) => path.take(k as int),
        None => path,
    }
}

/// The endpoint a `GET` of a path (query ignored) reaches; anything else is
/// not found.
pub open spec fn spec_route(method: Seq<char>, path: Seq<char>) -> Route {
    let p = route_path(path);
    if method != "GET"@ {
        Route::NotFound
    } else if p == "/"@ {
        Route::Index
    } else if p == "/healthz"@ {
        Route::Healthz
    } else if p == "/readyz"@ {
        Route::Readyz
    } else if p == "/metrics"@ {
        Route::Metrics
    } else if p == "/api/state"@ {
        Route::State
    } else if p == "/api/stream"@ {
        Route::Stream
    } else if p == "/ws"@ {
        Route::WebSocket
    } else {
        Route::NotFound
    }
}

/// The path before a query string: a path without `?` followed by nothing or
/// by `?` and any query.
proof fn lemma_route_path(p: Seq<char>, tail: Seq<char>)
    requires
        forall|j: int| 0 <= j < p.len() ==> p[j] != '?',
        tail.len() == 0 || tail[0] == '?',
    ensures
        route_path(p + tail) == p,
{
    let u = p + tail;
    if tail.len() == 0 {
        assert(u =~= p);
        lemma_find_first(u, '?', u.len() as int);
    } else {
        assert(u[p.len() as int] == '?');
        lemma_find_first(u, '?', p.len() as int);
        assert(u.take(p.len() as int) =~= p);
    }
}

/// Every endpoint is reached by a `GET` of its path, whatever query string
/// follows it: `/` the page, `/healthz` and `/readyz` the probes, `/metrics`
/// the counters, `/api/state` the short poll, `/api/stream` the event stream
/// and `/ws` the WebSocket; any other method reaches nothing.
pub proof fn law_route_endpoints(method: Seq<char>, tail: Seq<char>, path: Seq<char>)
    requires
        tail.len() == 0 || tail[0] == '?',
    ensures
        spec_route("GET"@, "/"@ + tail) == Route::Index,
        spec_route("GET"@, "/healthz"@ + tail) == Route::Healthz,
        spec_route("GET"@, "/readyz"@ + tail) == Route::Readyz,
        spec_route("GET"@, "/metrics"@ + tail) == Route::Metrics,
        spec_route("GET"@, "/api/state"@ + tail) == Route::State,
        spec_route("GET"@, "/api/stream"@ + tail) == Route::Stream,
        spec_route("GET"@, "/ws"@ + tail) == Route::WebSocket,
        method != "GET"@ ==> spec_route(method, path) == Route::NotFound,
{
    reveal_strlit("GET");
    reveal_strlit("/");
    reveal_strlit("/healthz");
    reveal_strlit("/readyz");
    reveal_strlit("/metrics");
    reveal_strlit("/api/state");
    reveal_strlit("/api/stream");
    reveal_strlit("/ws");
    lemma_route_path("/"@, tail);
    lemma_route_path("/healthz"@, tail);
    lemma_route_path("/readyz"@, tail);
    lemma_route_path("/metrics"@, tail);
    lemma_route_path("/api/state"@, tail);
    lemma_route_path("/api/stream"@, tail);
    lemma_route_path("/ws"@, tail);
    assert("/metrics"@ != "/healthz"@) by {
        assert("/metrics"@[1] != "/healthz"@[1]);
    }
    assert("/metrics"@ != "/readyz"@) by {
        assert("/metrics"@[1] != "/readyz"@[1]);
    }
}

/// Which endpoint a request reaches.
pub fn route(method: &str, path: &str) -> (r: Route)
    ensures
        r == spec_route(method@, path@),
{
    let m = str_chars(method);
    let chars = str_chars(path);
    let p = match find_char(chars.as_slice(), '?') {
        Some(k) => copy_range(chars.as_slice(), 0, k),
        None => {
            proof {
                lemma_no_question(chars@);
            }
            copy_range(chars.as_slice(), 0, chars.len())
        },
    };
    assert(p@ =~= route_path(path@));
    let ps = p.as_slice();
    if !chars_eq_str(m.as_slice(), "GET") {
        Route::NotFound
    } else if chars_eq_str(ps, "/") {
        Route::Index
    } else if chars_eq_str(ps, "/healthz") {
        Route::Healthz
    } else if chars_eq_str(ps, "/readyz") {
        Route::Readyz
    } else if chars_eq_str(ps, "/metrics") {
        Route::Metrics
    } else if chars_eq_str(ps, "/api/state") {
        Route::State
    } else if chars_eq_str(ps, "/api/stream") {
        Route::Stream
    } else if chars_eq_str(ps, "/ws") {
        Route::WebSocket
    } else {
        Route::NotFound
    }
}

proof fn lemma_no_question(s: Seq<char>)
    requires
        forall|j: int| 0 <= j < s.len() ==> s[j] != '?',
    ensures
        find_first(s, '?') is None,
    decreases s.len(),
{
    if s.len() > 0 {
        assert forall|j: int| 0 <= j < s.drop_first().len() implies s.drop_first()[j] != '?' by {
            assert(s.drop_first()[j] == s[j + 1]);
        }
        lemma_no_question(s.drop_first());
    }
}

/// A control command sent over the WebSocket.
#[derive(Debug, Clone, Copy, PartialEq, Eq, Structural)]
pub enum Command {
    Pause,
    Resume,
    Faster,
    Slower,
    /// Reseed with the built-in pattern: random, glider, pulsar or gosper.
    Reseed(SeedChoice),
    Unknown,
}

/// The patterns a reseed command can ask for.
#[derive(Debug, Clone, Copy, PartialEq, Eq, Structural)]
pub enum SeedChoice {
    Random,
    Glider,
    Pulsar,
    Gosper,
}

/// The command a text names (`reseed` means a random reseed).
pub open spec fn spec_command(cmd: Seq<char>) -> Command {
    if cmd == "pause"@ {
        Command::Pause
    } else if cmd == "resume"@ {
        Command::Resume
    } else if cmd == "faster"@ {
        Command::Faster
    } else if cmd == "slower"@ {
        Command::Slower
    } else if cmd == "reseed"@ || cmd == "random"@ {
        Command::Reseed(SeedChoice::Random)
    } else if cmd == "glider"@ {
        Command::Reseed(SeedChoice::Glider)
    } else if cmd == "pulsar"@ {
        Command::Reseed(SeedChoice::Pulsar)
    } else if cmd == "gosper"@ {
        Command::Reseed(SeedChoice::Gosper)
    } else {
        Command::Unknown
    }
}

/// The control commands: `pause`, `resume`, `faster`, `slower`, and a reseed
/// with `reseed` or `random` (a random fill), `glider`, `pulsar` or
/// `gosper`; any other text is unknown.
pub proof fn law_commands(cmd: Seq<char>)
    ensures
        cmd == "pause"@ ==> spec_command(cmd) == Command::Pause,
        cmd == "resume"@ ==> spec_command(cmd) == Command::Resume,
        cmd == "faster"@ ==> spec_command(cmd) == Command::Faster,
        cmd == "slower"@ ==> spec_command(cmd) == Command::Slower,
        (cmd == "reseed"@ || cmd == "random"@) ==> spec_command(cmd) == Command::Reseed(
            SeedChoice::Random,
        ),
        cmd == "glider"@ ==> spec_command(cmd) == Command::Reseed(SeedChoice::Glider),
        cmd == "pulsar"@ ==> spec_command(cmd) == Command::Reseed(SeedChoice::Pulsar),
        cmd == "gosper"@ ==> spec_command(cmd) == Command::Reseed(SeedChoice::Gosper),
{
    reveal_strlit("pause");
    reveal_strlit("resume");
    reveal_strlit("faster");
    reveal_strlit("slower");
    reveal_strlit("reseed");
    reveal_strlit("random");
    reveal_strlit("glider");
    reveal_strlit("pulsar");
    reveal_strlit("gosper");
    assert("resume"@.len() != "pause"@.len());
    assert("faster"@.len() != "pause"@.len());
    assert("faster"@[0] != "resume"@[0]);
    assert("slower"@.len() != "pause"@.len());
    assert("slower"@[0] != "resume"@[0]);
    assert("slower"@[0] != "faster"@[0]);
    assert("reseed"@.len() != "pause"@.len());
    assert("reseed"@[3] != "resume"@[3]);
    assert("reseed"@[0] != "faster"@[0]);
    assert("reseed"@[0] != "slower"@[0]);
    assert("random"@.len() != "pause"@.len());
    assert("random"@[1] != "resume"@[1]);
    assert("random"@[0] != "faster"@[0]);
    assert("random"@[0] != "slower"@[0]);
    assert("random"@[1] != "reseed"@[1]);
    assert("glider"@.len() != "pause"@.len());
    assert("glider"@[0] != "resume"@[0]);
    assert("glider"@[0] != "faster"@[0]);
    assert("glider"@[0] != "slower"@[0]);
    assert("glider"@[0] != "reseed"@[0]);
    assert("glider"@[0] != "random"@[0]);
    assert("pulsar"@.len() != "pause"@.len());
    assert("pulsar"@[0] != "resume"@[0]);
    assert("pulsar"@[0] != "faster"@[0]);
    assert("pulsar"@[0] != "slower"@[0]);
    assert("pulsar"@[0] != "reseed"@[0]);
    assert("pulsar"@[0] != "random"@[0]);
    assert("pulsar"@[0] != "glider"@[0]);
    assert("gosper"@.len() != "pause"@.len());
    assert("gosper"@[0] != "resume"@[0]);
    assert("gosper"@[0] != "faster"@[0]);
    assert("gosper"@[0] != "slower"@[0]);
    assert("gosper"@[0] != "reseed"@[0]);
    assert("gosper"@[0] != "random"@[0]);
    assert("gosper"@[1] != "glider"@[1]);
    assert("gosper"@[0] != "pulsar"@[0]);
}

/// The command in a text frame (already trimmed).
pub fn parse_command(cmd: &str) -> (c: Command)
    ensures
        c == spec_command(cmd@),
{
    let t = str_chars(cmd);
    let ts = t.as_slice();
    if chars_eq_str(ts, "pause") {
        Command::Pause
    } else if chars_eq_str(ts, "resume") {
        Command::Resume
    } else if chars_eq_str(ts, "faster") {
        Command::Faster
    } else if chars_eq_str(ts, "slower") {
        Command::Slower
    } else if chars_eq_str(ts, "reseed") || chars_eq_str(ts, "random") {
        Command::Reseed(SeedChoice::Random)
    } else if chars_eq_str(ts, "glider") {
        Command::Reseed(SeedChoice::Glider)
    } else if chars_eq_str(ts, "pulsar") {
        Command::Reseed(SeedChoice::Pulsar)
    } else if chars_eq_str(ts, "gosper") {
        Command::Reseed(SeedChoice::Gosper)
    } else {
        Command::Unknown
    }
}

/// The pattern name of a reseed choice.
pub fn seed_pattern_name(c: SeedChoice) -> (s: &'static str)
    ensures
        s@ == (match c {
            SeedChoice::Random => "random"@,
            SeedChoice::Glider => "glider"@,
            SeedChoice::Pulsar => "pulsar"@,
            SeedChoice::Gosper => "gosper"@,
        }),
{
    match c {
        SeedChoice::Random => "random",
        SeedChoice::Glider => "glider",
        SeedChoice::Pulsar => "pulsar",
        SeedChoice::Gosper => "gosper",
    }
}

/// Tick delay after `faster`: 20 ms less, at least 1.
pub fn faster_delay(d: u64) -> (r: u64)
    ensures
        r == (if d < 21 {
            1
        } else {
            d - 20
        }),
{
    if d < 21 {
        1
    } else {
        d - 20
    }
}

/// Tick delay after `slower`: 20 ms more, at most 2000.
pub fn slower_delay(d: u64) -> (r: u64)
    requires
        d + 20 <= u64::MAX,
    ensures
        r == (if d + 20 > 2000 {
            2000
        } else {
            d + 20
        }),
{
    if d + 20 > 2000 {
        2000
    } else {
        d + 20
    }
}

/// The reason phrase of a status code.
pub open spec fn reason_phrase(status: u16) -> Seq<char> {
    if status == 200 {
        "OK"@
    } else if status == 400 {
        "Bad Request"@
    } else if status == 404 {
        "Not Found"@
    } else if status == 429 {
        "Too Many Requests"@
    } else {
        "OK"@
    }
}

/// Number of bytes of a character in UTF-8.
pub open spec fn utf8_width(c: char) -> nat {
    if (c as u32) < 0x80 {
        1
    } else if (c as u32) < 0x800 {
        2
    } else if (c as u32) < 0x10000 {
        3
    } else {
        4
    }
}

/// Number of bytes of a text in UTF-8.
pub open spec fn utf8_len(s: Seq<char>) -> nat
    decreases s.len(),
{
    if s.len() == 0 {
        0
    } else {
        utf8_len(s.drop_last()) + utf8_width(s.last())
    }
}

fn byte_len(s: &[char]) -> (n: u128)
    ensures
        n == utf8_len(s@),
{
    let len = s.len();
    let mut n: u128 = 0;
    let mut i: usize = 0;
    while i < len
        invariant
            len == s@.len(),
            i <= s@.len(),
            n == utf8_len(s@.take(i as int)),
            n <= 4 * i,
        decreases s@.len() - i,
    {
        assert(s@.take(i + 1).drop_last() =~= s@.take(i as int));
        let c = s[i] as u32;
        n = n + if c < 0x80 {
            1
        } else if c < 0x800 {
            2
        } else if c < 0x10000 {
            3
        } else {
            4
        };
        i += 1;
    }
    assert(s@.take(s@.len() as int) =~= s@);
    n
}

/// A complete `Connection: close` response with the given status, content
/// type and body.
pub open spec fn spec_response(status: u16, content_type: Seq<char>, body: Seq<char>) -> Seq<char> {
    "HTTP/1.1 "@ + decimal_of(status as nat) + " "@ + reason_phrase(status) + "\r\nContent-Type: "@
        + content_type + "\r\nContent-Length: "@ + decimal_of(utf8_len(body))
        + "\r\nCache-Control: no-store\r\nX-Content-Type-Options: nosniff\r\nAccess-Control-Allow-Origin: *\r\nConnection: close\r\n\r\n"@
        + body
}

/// Decimal text of a number.
pub open spec fn decimal_of(n: nat) -> Seq<char> {
    crate::text::decimal_seq(n)
}

/// The text of a simple response.
pub fn http_response(status: u16, content_type: &str, body: &str) -> (s: String)
    ensures
        s@ == spec_response(status, content_type@, body@),
{
    let b = str_chars(body);
    let mut out: Vec<char> = Vec::new();
    push_str(&mut out, "HTTP/1.1 ");
    push_decimal(&mut out, status as u128);
    push_str(&mut out, " ");
    if status == 200 {
        push_str(&mut out, "OK");
    } else if status == 400 {
        push_str(&mut out, "Bad Request");
    } else if status == 404 {
        push_str(&mut out, "Not Found");
    } else if status == 429 {
        push_str(&mut out, "Too Many Requests");
    } else {
        push_str(&mut out, "OK");
    }
    push_str(&mut out, "\r\nContent-Type: ");
    push_str(&mut out, content_type);
    push_str(&mut out, "\r\nContent-Length: ");
    push_decimal(&mut out, byte_len(b.as_slice()));
    push_str(
        &mut out,
        "\r\nCache-Control: no-store\r\nX-Content-Type-Options: nosniff\r\nAccess-Control-Allow-Origin: *\r\nConnection: close\r\n\r\n",
    );
    push_chars(&mut out, b.as_slice());
    assert(out@ =~= spec_response(status, content_type@, body@));
    string_from_chars(out)
}

} // verus!
