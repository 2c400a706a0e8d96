//! Transport primitives for the live-view server: base64, SHA-1, the
//! WebSocket accept key, and RFC 6455 framing.

use vstd::prelude::*;
use crate::text::string_from_chars;
use vstd::string::StringSliceAdditionalSpecFns;

verus! {

/// The base64 digit for a 6-bit value (standard alphabet).
pub open spec fn b64_digit(v: u32) -> char {
    if v < 26 {
        ((v + 65) as u8) as char
    } else if v < 52 {
        ((v - 26 + 97) as u8) as char
    } else if v < 62 {
        ((v - 52 + 48) as u8) as char
    } else if v == 62 {
        '+'
    } else {
        '/'
    }
}

/// Base64 of the bytes `b0 b1 b2` of a chunk of `n` bytes (1..=3); missing
/// bytes read as 0 and missing digits are `=`.
pub open spec fn b64_quad(b0: u8, b1: u8, b2: u8, n: int) -> Seq<char> {
    let v = ((b0 as u32) << 16u32) | ((b1 as u32) << 8u32) | (b2 as u32);
    seq![
        b64_digit((v >> 18u32) & 63),
        b64_digit((v >> 12u32) & 63),
        if n > 1 {
            b64_digit((v >> 6u32) & 63)
        } else {
            '='
        },
        if n > 2 {
            b64_digit(v & 63)
        } else {
            '='
        },
    ]
}

/// Base64 (standard alphabet, padded) of `s`.
pub open spec fn spec_base64(s: Seq<u8>) -> Seq<char>
    decreases s.len(),
{
    if s.len() == 0 {
        Seq::empty()
    } else if s.len() >= 3 {
        b64_quad(s[0], s[1], s[2], 3) + spec_base64(s.skip(3))
    } else if s.len() == 2 {
        b64_quad(s[0], s[1], 0, 2)
    } else {
        b64_quad(s[0], 0, 0, 1)
    }
}

fn b64_char(v: u32) -> (c: char)
    requires
        v < 64,
    ensures
        c == b64_digit(v),
{
    if v < 26 {
        ((v + 65) as u8) as char
    } else if v < 52 {
        ((v - 26 + 97) as u8) as char
    } else if v < 62 {
        ((v - 52 + 48) as u8) as char
    } else if v == 62 {
        '+'
    } else {
        '/'
    }
}

proof fn lemma_base64_len(s: Seq<u8>)
    ensures
        spec_base64(s).len() == 4 * ((s.len() + 2) / 3),
    decreases s.len(),
{
    if s.len() >= 3 {
        lemma_base64_len(s.skip(3));
    }
}

/// Base64 (standard alphabet, with `=` padding) of `input`. The text has four
/// characters for every started group of three bytes.
pub fn base64_encode(input: &[u8]) -> (s: String)
    ensures
        s@ == spec_base64(input@),
        s@.len() == 4 * ((input@.len() + 2) / 3),
{
    let mut out: Vec<char> = Vec::new();
    let mut i: usize = 0;
    let ghost all = input@;
    assert(all.skip(0) =~= all);
    while i < input.len()
        invariant
            all == input@,
            i <= all.len(),
            out@ + spec_base64(all.skip(i as int)) == spec_base64(all),
        decreases all.len() - i,
    {
        let n = input.len() - i;
        let b0 = input[i] as u32;
        let b1: u32 = if n > 1 {
            input[i + 1] as u32
        } else {
            0
        };
        let b2: u32 = if n > 2 {
            input[i + 2] as u32
        } else {
            0
        };
        let v = (b0 << 16u32) | (b1 << 8u32) | b2;
        assert((v >> 18u32) & 63 < 64) by (bit_vector);
        assert((v >> 12u32) & 63 < 64) by (bit_vector);
        assert((v >> 6u32) & 63 < 64) by (bit_vector);
        assert(v & 63 < 64) by (bit_vector);
        let ghost rest = all.skip(i as int);
        let ghost quad = b64_quad(
            rest[0],
            if n > 1 {
                rest[1]
            } else {
                0u8
            },
            if n > 2 {
                rest[2]
            } else {
                0u8
            },
            if n >= 3 {
                3int
            } else {
                n as int
            },
        );
        out.push(b64_char((v >> 18u32) & 63));
        out.push(b64_char((v >> 12u32) & 63));
        out.push(
            if n > 1 {
                b64_char((v >> 6u32) & 63)
            } else {
                '='
            },
        );
        out.push(
            if n > 2 {
                b64_char(v & 63)
            } else {
                '='
            },
        );
        proof {
            assert(rest[0] == input@[i as int]);
            if n > 1 {
                assert(rest[1] == input@[i + 1]);
            }
            if n > 2 {
                assert(rest[2] == input@[i + 2]);
            }
            if n >= 3 {
                assert(rest.skip(3) =~= all.skip(i + 3));
                assert(spec_base64(rest) == quad + spec_base64(rest.skip(3)));
            } else {
                assert(spec_base64(rest) == quad);
                assert(all.skip(input@.len() as int) =~= Seq::<u8>::empty());
            }
        }
        i = if n >= 3 {
            i + 3
        } else {
            input.len()
        };
    }
    assert(all.skip(i as int) =~= Seq::<u8>::empty());
    proof {
        lemma_base64_len(all);
    }
    string_from_chars(out)
}

/// The 8 big-endian bytes of `v`.
pub open spec fn be64_bytes(v: u64) -> Seq<u8> {
    Seq::new(8, |i: int| ((v >> ((56 - 8 * i) as u64)) & 0xff) as u8)
}

/// The 2 big-endian bytes of `v`.
pub open spec fn be16_bytes(v: u16) -> Seq<u8> {
    seq![((v >> 8u16) & 0xff) as u8, (v & 0xff) as u8]
}

/// A server frame: FIN with `opcode`, the payload length (7 bits, or 126 and
/// 16 bits, or 127 and 64 bits, big-endian), no mask, then the payload.
pub open spec fn spec_ws_frame(opcode: u8, payload: Seq<u8>) -> Seq<u8> {
    let len = payload.len();
    seq![0x80u8 | opcode] + (if len < 126 {
        seq![len as u8]
    } else if len <= 0xffff {
        seq![126u8] + be16_bytes(len as u16)
    } else {
        seq![127u8] + be64_bytes(len as u64)
    }) + payload
}

fn push_be_bytes(out: &mut Vec<u8>, v: u64, n: usize)
    requires
        n == 2 || n == 8,
    ensures
        n == 8 ==> final(out)@ == old(out)@ + be64_bytes(v),
        n == 2 && v <= 0xffff ==> final(out)@ == old(out)@ + be16_bytes(v as u16),
{
    let mut i: usize = 0;
    let ghost start = out@;
    while i < n
        invariant
            i <= n,
            n == 2 || n == 8,
            out@.len() == start.len() + i,
            forall|j: int|
                0 <= j < i ==> #[trigger] out@[start.len() + j] == ((v >> ((8 * (n - 1 - j)) as u64)) & 0xff) as u8,
            out@.subrange(0, start.len() as int) == start,
        decreases n - i,
    {
        let shift = (8 * (n - 1 - i)) as u64;
        out.push(((v >> shift) & 0xff) as u8);
        i += 1;
    }
    proof {
        if n == 8 {
            assert forall|j: int| 0 <= j < out@.len() implies #[trigger] out@[j] == (start + be64_bytes(v))[j] by {
                if j < start.len() {
                    assert(out@.subrange(0, start.len() as int)[j] == start[j]);
                } else {
                    let q = j - start.len();
                    assert(out@[start.len() + q] == ((v >> ((8 * (n - 1 - q)) as u64)) & 0xff) as u8);
                    assert((8 * (n - 1 - q)) == 56 - 8 * q);
                }
            }
            assert(out@ =~= start + be64_bytes(v));
        } else if v <= 0xffff {
            let w = v as u16;
            assert(((v >> 8u64) & 0xff) as u8 == ((w >> 8u16) & 0xff) as u8) by (bit_vector)
                requires
                    v <= 0xffff,
                    w == v as u16,
            ;
            assert(((v >> 0u64) & 0xff) as u8 == (w & 0xff) as u8) by (bit_vector)
                requires
                    v <= 0xffff,
                    w == v as u16,
            ;
            assert(out@[start.len() + 0int] == ((v >> ((8 * (n - 1 - 0int)) as u64)) & 0xff) as u8);
            assert(out@[start.len() + 1int] == ((v >> ((8 * (n - 1 - 1int)) as u64)) & 0xff) as u8);
            assert forall|j: int| 0 <= j < start.len() implies #[trigger] out@[j] == start[j] by {
                assert(out@.subrange(0, start.len() as int)[j] == start[j]);
            }
            assert(out@ =~= start + be16_bytes(w));
        }
    }
}

fn ws_frame(opcode: u8, payload: &[u8]) -> (frame: Vec<u8>)
    ensures
        frame@ == spec_ws_frame(opcode, payload@),
{
    let mut frame: Vec<u8> = Vec::new();
    frame.push(0x80u8 | opcode);
    let len = payload.len();
    if len < 126 {
        frame.push(len as u8);
    } else if len <= 0xffff {
        frame.push(126);
        push_be_bytes(&mut frame, len as u64, 2);
    } else {
        frame.push(127);
        push_be_bytes(&mut frame, len as u64, 8);
    }
    let ghost head = frame@;
    let mut i: usize = 0;
    while i < payload.len()
        invariant
            i <= payload@.len(),
            frame@ == head + payload@.take(i as int),
        decreases payload@.len() - i,
    {
        frame.push(payload[i]);
        assert(payload@.take(i + 1) =~= payload@.take(i as int).push(payload@[i as int]));
        i += 1;
    }
    assert(payload@.take(payload@.len() as int) =~= payload@);
    assert(frame@ =~= spec_ws_frame(opcode, payload@));
    frame
}

/// Build a server-to-client text frame (FIN, opcode 1, unmasked).
pub fn ws_text_frame(payload: &[u8]) -> (frame: Vec<u8>)
    ensures
        frame@ == spec_ws_frame(1, payload@),
{
    ws_frame(0x1, payload)
}

/// Build a server-to-client close frame (FIN, opcode 8, empty).
pub fn ws_close_frame() -> (frame: Vec<u8>)
    ensures
        frame@ == spec_ws_frame(8, Seq::empty()),
{
    let none: Vec<u8> = Vec::new();
    ws_frame(0x8, none.as_slice())
}

/// Rotate left by `n` (0 < n < 32).
pub open spec fn rotl(x: u32, n: u32) -> u32 {
    (x << n) | (x >> ((32 - n) as u32))
}

fn rotl32(x: u32, n: u32) -> (r: u32)
    requires
        0 < n < 32,
    ensures
        r == rotl(x, n),
{
    (x << n) | (x >> (32 - n))
}

/// The big-endian word at byte `i` of `b`.
pub open spec fn be32(b: Seq<u8>, i: int) -> u32 {
    ((b[i] as u32) << 24u32) | ((b[i + 1] as u32) << 16u32) | ((b[i + 2] as u32) << 8u32) | (b[i + 3] as u32)
}

/// Word `t` of the SHA-1 message schedule of a 64-byte block.
pub open spec fn sched(block: Seq<u8>, t: int) -> u32
    decreases t,
{
    if t < 16 {
        be32(block, 4 * t)
    } else {
        rotl(sched(block, t - 3) ^ sched(block, t - 8) ^ sched(block, t - 14) ^ sched(block, t - 16), 1)
    }
}

/// The round function and constant of SHA-1 round `t`.
pub open spec fn round_fk(t: int, b: u32, c: u32, d: u32) -> (u32, u32) {
    if t <= 19 {
        ((b & c) | ((!b) & d), 0x5A827999u32)
    } else if t <= 39 {
        (b ^ c ^ d, 0x6ED9EBA1u32)
    } else if t <= 59 {
        ((b & c) | (b & d) | (c & d), 0x8F1BBCDCu32)
    } else {
        (b ^ c ^ d, 0xCA62C1D6u32)
    }
}

/// SHA-1 rounds `t..80` of a block on the working state `s`.
pub open spec fn rounds(block: Seq<u8>, t: int, s: (u32, u32, u32, u32, u32)) -> (u32, u32, u32, u32, u32)
    decreases 80 - t,
{
    if t >= 80 {
        s
    } else {
        let (a, b, c, d, e) = s;
        let (f, k) = round_fk(t, b, c, d);
        let tmp = rotl(a, 5).wrapping_add(f).wrapping_add(e).wrapping_add(k).wrapping_add(sched(block, t));
        rounds(block, t + 1, (tmp, a, rotl(b, 30), c, d))
    }
}

/// The SHA-1 compression of one block into the chaining value `h`.
pub open spec fn compress(h: (u32, u32, u32, u32, u32), block: Seq<u8>) -> (u32, u32, u32, u32, u32) {
    let (a, b, c, d, e) = rounds(block, 0, h);
    (h.0.wrapping_add(a), h.1.wrapping_add(b), h.2.wrapping_add(c), h.3.wrapping_add(d), h.4.wrapping_add(e))
}

/// Zero bytes of SHA-1 padding after the `0x80` byte, for a message of `len` bytes.
pub open spec fn pad_zeros(len: nat) -> nat {
    ((119 - (len % 64) as int) % 64) as nat
}

/// The padded message: data, `0x80`, zeros to 56 mod 64, the bit length (64-bit big-endian).
pub open spec fn sha1_padded(data: Seq<u8>) -> Seq<u8> {
    data + seq![0x80u8] + Seq::new(pad_zeros(data.len()), |i: int| 0u8) + be64_bytes((data.len() * 8) as u64)
}

/// The chaining value after the first `n` blocks of `msg`.
pub open spec fn digest_blocks(msg: Seq<u8>, n: int) -> (u32, u32, u32, u32, u32)
    decreases n,
{
    if n <= 0 {
        (0x67452301u32, 0xEFCDAB89u32, 0x98BADCFEu32, 0x10325476u32, 0xC3D2E1F0u32)
    } else {
        compress(digest_blocks(msg, n - 1), msg.subrange(64 * (n - 1), 64 * n))
    }
}

/// The 4 big-endian bytes of `w`.
pub open spec fn word_bytes(w: u32) -> Seq<u8> {
    seq![((w >> 24u32) & 0xff) as u8, ((w >> 16u32) & 0xff) as u8, ((w >> 8u32) & 0xff) as u8, (w & 0xff) as u8]
}

/// SHA-1 (FIPS 180-1) of `data`.
pub open spec fn spec_sha1(data: Seq<u8>) -> Seq<u8> {
    let m = sha1_padded(data);
    let h = digest_blocks(m, (m.len() / 64) as int);
    word_bytes(h.0) + word_bytes(h.1) + word_bytes(h.2) + word_bytes(h.3) + word_bytes(h.4)
}

/// The SHA-1 compression of the block at `off` of `msg`.
fn compress_block(h: (u32, u32, u32, u32, u32), msg: &Vec<u8>, off: usize) -> (r: (u32, u32, u32, u32, u32))
    requires
        off + 64 <= msg@.len(),
    ensures
        r == compress(h, msg@.subrange(off as int, off + 64)),
{
    let ghost block = msg@.subrange(off as int, off + 64);
    let mlen = msg.len();
    let mut w: Vec<u32> = Vec::new();
    let mut i: usize = 0;
    while i < 16
        invariant
            i <= 16,
            mlen == msg@.len(),
            off + 64 <= msg@.len(),
            block == msg@.subrange(off as int, off + 64),
            w@.len() == i,
            forall|j: int| 0 <= j < i ==> #[trigger] w@[j] == sched(block, j),
        decreases 16 - i,
    {
        let p = off + 4 * i;
        let word = ((msg[p] as u32) << 24u32) | ((msg[p + 1] as u32) << 16u32) | ((msg[p + 2] as u32) << 8u32)
            | (msg[p + 3] as u32);
        assert(block[4 * i as int] == msg@[p as int]);
        assert(block[4 * i + 1] == msg@[p + 1]);
        assert(block[4 * i + 2] == msg@[p + 2]);
        assert(block[4 * i + 3] == msg@[p + 3]);
        w.push(word);
        i += 1;
    }
    while i < 80
        invariant
            16 <= i <= 80,
            w@.len() == i,
            forall|j: int| 0 <= j < i ==> #[trigger] w@[j] == sched(block, j),
        decreases 80 - i,
    {
        let x = w[i - 3] ^ w[i - 8] ^ w[i - 14] ^ w[i - 16];
        let word = rotl32(x, 1);
        w.push(word);
        i += 1;
    }
    let (mut a, mut b, mut c, mut d, mut e) = h;
    let mut t: usize = 0;
    while t < 80
        invariant
            t <= 80,
            w@.len() == 80,
            forall|j: int| 0 <= j < 80 ==> #[trigger] w@[j] == sched(block, j),
            rounds(block, 0, h) == rounds(block, t as int, (a, b, c, d, e)),
        decreases 80 - t,
    {
        let (f, k): (u32, u32) = if t <= 19 {
            ((b & c) | ((!b) & d), 0x5A827999)
        } else if t <= 39 {
            (b ^ c ^ d, 0x6ED9EBA1)
        } else if t <= 59 {
            ((b & c) | (b & d) | (c & d), 0x8F1BBCDC)
        } else {
            (b ^ c ^ d, 0xCA62C1D6)
        };
        assert((f, k) == round_fk(t as int, b, c, d));
        let tmp = rotl32(a, 5).wrapping_add(f).wrapping_add(e).wrapping_add(k).wrapping_add(w[t]);
        e = d;
        d = c;
        c = rotl32(b, 30);
        b = a;
        a = tmp;
        t += 1;
    }
    (h.0.wrapping_add(a), h.1.wrapping_add(b), h.2.wrapping_add(c), h.3.wrapping_add(d), h.4.wrapping_add(e))
}

fn push_word_bytes(out: &mut Vec<u8>, w: u32)
    ensures
        final(out)@ == old(out)@ + word_bytes(w),
{
    out.push(((w >> 24u32) & 0xff) as u8);
    out.push(((w >> 16u32) & 0xff) as u8);
    out.push(((w >> 8u32) & 0xff) as u8);
    out.push((w & 0xff) as u8);
    assert(final(out)@ =~= old(out)@ + word_bytes(w));
}

/// SHA-1 digest (FIPS 180-1) of `data`, as 20 bytes.
pub fn sha1(data: &[u8]) -> (out: Vec<u8>)
    requires
        data@.len() * 8 <= u64::MAX,
    ensures
        out@ == spec_sha1(data@),
        out@.len() == 20,
{
    let mut msg: Vec<u8> = Vec::new();
    let mut i: usize = 0;
    while i < data.len()
        invariant
            i <= data@.len(),
            msg@ == data@.take(i as int),
        decreases data@.len() - i,
    {
        msg.push(data[i]);
        assert(data@.take(i + 1) =~= data@.take(i as int).push(data@[i as int]));
        i += 1;
    }
    assert(data@.take(data@.len() as int) =~= data@);
    msg.push(0x80);
    let zeros = (119 - data.len() % 64) % 64;
    let ghost before_zeros = msg@;
    let mut z: usize = 0;
    while z < zeros
        invariant
            z <= zeros,
            msg@ == before_zeros + Seq::new(z as nat, |j: int| 0u8),
        decreases zeros - z,
    {
        msg.push(0);
        assert(before_zeros + Seq::new((z + 1) as nat, |j: int| 0u8) =~= (before_zeros + Seq::new(z as nat, |j: int| 0u8)).push(0u8));
        z += 1;
    }
    let ml: u64 = (data.len() as u64) * 8;
    push_be_bytes(&mut msg, ml, 8);
    assert(msg@ =~= sha1_padded(data@));
    proof {
        let n = data@.len();
        assert((n + 1 + pad_zeros(n)) % 64 == 56) by (nonlinear_arith)
            requires
                pad_zeros(n) == ((119 - (n % 64) as int) % 64) as nat,
        ;
        assert(msg@.len() == n + 1 + pad_zeros(n) + 8);
        assert(msg@.len() % 64 == 0) by (nonlinear_arith)
            requires
                (n + 1 + pad_zeros(n)) % 64 == 56,
                msg@.len() == n + 1 + pad_zeros(n) + 8,
        ;
    }
    let mlen = msg.len();
    let nblocks = mlen / 64;
    let mut h: (u32, u32, u32, u32, u32) = (0x67452301, 0xEFCDAB89, 0x98BADCFE, 0x10325476, 0xC3D2E1F0);
    let mut bi: usize = 0;
    while bi < nblocks
        invariant
            bi <= nblocks,
            nblocks == msg@.len() / 64,
            mlen == msg@.len(),
            msg@.len() % 64 == 0,
            h == digest_blocks(msg@, bi as int),
        decreases nblocks - bi,
    {
        proof {
            assert(64 * bi + 64 <= msg@.len()) by (nonlinear_arith)
                requires
                    bi < nblocks,
                    nblocks == msg@.len() / 64,
                    msg@.len() % 64 == 0,
            ;
        }
        h = compress_block(h, &msg, 64 * bi);
        bi += 1;
    }
    let mut out: Vec<u8> = Vec::new();
    push_word_bytes(&mut out, h.0);
    push_word_bytes(&mut out, h.1);
    push_word_bytes(&mut out, h.2);
    push_word_bytes(&mut out, h.3);
    push_word_bytes(&mut out, h.4);
    assert(out@ =~= spec_sha1(data@));
    out
}

/// The GUID that RFC 6455 appends to a client key.
pub const WS_MAGIC: &'static str = "258EAFA5-E914-47DA-95CA-C5AB0DC85B11";

/// The `Sec-WebSocket-Accept` value for a client key (RFC 6455 section 4.2.2):
/// base64 of the SHA-1 of the key's bytes followed by the protocol GUID.
pub fn ws_accept_key(client_key: &str) -> (s: String)
    requires
        client_key.spec_bytes().len() + WS_MAGIC.spec_bytes().len() <= 0x1fff_ffff_ffff_ffff,
    ensures
        s@ == spec_base64(spec_sha1(client_key.spec_bytes() + WS_MAGIC.spec_bytes())),
{
    let kb = client_key.as_bytes();
    let mb = WS_MAGIC.as_bytes();
    let mut combined: Vec<u8> = Vec::new();
    let mut i: usize = 0;
    while i < kb.len()
        invariant
            i <= kb@.len(),
            combined@ == kb@.take(i as int),
        decreases kb@.len() - i,
    {
        combined.push(kb[i]);
        assert(kb@.take(i + 1) =~= kb@.take(i as int).push(kb@[i as int]));
        i += 1;
    }
    let mut j: usize = 0;
    while j < mb.len()
        invariant
            j <= mb@.len(),
            combined@ == kb@ + mb@.take(j as int),
        decreases mb@.len() - j,
    {
        combined.push(mb[j]);
        assert(mb@.take(j + 1) =~= mb@.take(j as int).push(mb@[j as int]));
        j += 1;
    }
    assert(kb@.take(kb@.len() as int) =~= kb@);
    assert(mb@.take(mb@.len() as int) =~= mb@);
    let digest = sha1(combined.as_slice());
    base64_encode(digest.as_slice())
}

/// A decoded client-to-server WebSocket frame.
pub struct InboundFrame {
    pub opcode: u8,
    pub payload: Vec<u8>,
}

/// The big-endian value of the `n` bytes of `b` at `i`.
pub open spec fn be_value(b: Seq<u8>, i: int, n: int) -> int
    decreases n,
{
    if n <= 0 {
        0
    } else {
        be_value(b, i, n - 1) * 256 + b[i + n - 1]
    }
}

/// One client frame at the start of `buf`: opcode, unmasked payload, and the
/// bytes it takes; `None` while `buf` does not hold a whole frame.
pub open spec fn spec_parse_frame(buf: Seq<u8>) -> Option<(u8, Seq<u8>, int)> {
    if buf.len() < 2 {
        None
    } else {
        let opcode = buf[0] & 0x0f;
        let masked = (buf[1] & 0x80) != 0;
        let l7 = buf[1] & 0x7f;
        let cur: int = if l7 == 126 {
            4
        } else if l7 == 127 {
            10
        } else {
            2
        };
        let len: int = if l7 == 126 {
            be_value(buf, 2, 2)
        } else if l7 == 127 {
            be_value(buf, 2, 8)
        } else {
            l7 as int
        };
        let start: int = if masked {
            cur + 4
        } else {
            cur
        };
        if buf.len() < start || buf.len() < start + len {
            None
        } else {
            let payload = Seq::new(
                len as nat,
                |i: int|
                    if masked {
                        buf[start + i] ^ buf[cur + i % 4]
                    } else {
                        buf[start + i]
                    },
            );
            Some((opcode, payload, start + len))
        }
    }
}

fn read_be(buf: &[u8], i: usize, n: usize) -> (v: u64)
    requires
        n <= 8,
        i + n <= buf@.len(),
    ensures
        v == be_value(buf@, i as int, n as int),
{
    let blen = buf.len();
    let mut v: u64 = 0;
    let mut k: usize = 0;
    while k < n
        invariant
            k <= n <= 8,
            blen == buf@.len(),
            i + n <= buf@.len(),
            v == be_value(buf@, i as int, k as int),
            v < pow256(k as nat),
        decreases n - k,
    {
        proof {
            lemma_pow256_step(k as nat);
        }
        v = v * 256 + buf[i + k] as u64;
        k += 1;
    }
    v
}

/// `256^k`.
pub open spec fn pow256(k: nat) -> int
    decreases k,
{
    if k == 0 {
        1
    } else {
        pow256((k - 1) as nat) * 256
    }
}

proof fn lemma_pow256_mono(k: nat)
    requires
        k <= 7,
    ensures
        0 < pow256(k) <= pow256(7),
    decreases 7 - k,
{
    if k < 7 {
        lemma_pow256_mono(k + 1);
    }
    lemma_pow256_pos(k);
}

proof fn lemma_pow256_pos(k: nat)
    ensures
        pow256(k) > 0,
    decreases k,
{
    if k > 0 {
        lemma_pow256_pos((k - 1) as nat);
    }
}

proof fn lemma_pow256_step(k: nat)
    requires
        k < 8,
    ensures
        pow256(k + 1) <= 0x1_0000_0000_0000_0000,
        pow256(k + 1) == pow256(k) * 256,
{
    reveal_with_fuel(pow256, 8);
    assert(pow256(7) == 0x100_0000_0000_0000);
    lemma_pow256_mono(k);
}

/// Parse one client frame from the start of `buf`: the frame and the number
/// of bytes it takes, or `None` while `buf` does not yet hold a whole frame.
pub fn parse_client_frame(buf: &[u8]) -> (r: Option<(InboundFrame, usize)>)
    ensures
        match spec_parse_frame(buf@) {
            None => r is None,
            Some((op, payload, used)) => r matches Some((f, u)) && f.opcode == op && f.payload@ == payload
                && u == used,
        },
{
    if buf.len() < 2 {
        return None;
    }
    let opcode = buf[0] & 0x0F;
    let masked = (buf[1] & 0x80) != 0;
    let l7 = buf[1] & 0x7F;
    let mut cursor: usize = 2;
    let mut len: u64 = l7 as u64;
    if l7 == 126 {
        if buf.len() < 4 {
            return None;
        }
        len = read_be(buf, 2, 2);
        cursor = 4;
    } else if l7 == 127 {
        if buf.len() < 10 {
            return None;
        }
        len = read_be(buf, 2, 8);
        cursor = 10;
    }
    let mcur = cursor;
    if masked {
        if buf.len() < cursor + 4 {
            return None;
        }
        cursor += 4;
    }
    if (buf.len() as u128) < cursor as u128 + len as u128 {
        return None;
    }
    let n = len as usize;
    let blen = buf.len();
    let mut payload: Vec<u8> = Vec::new();
    let mut i: usize = 0;
    while i < n
        invariant
            i <= n,
            blen == buf@.len(),
            cursor + n <= buf@.len(),
            mcur + 4 <= buf@.len() || !masked,
            masked ==> cursor == mcur + 4,
            !masked ==> cursor == mcur,
            forall|j: int|
                0 <= j < i ==> #[trigger] payload@[j] == (if masked {
                    buf@[cursor + j] ^ buf@[mcur + j % 4]
                } else {
                    buf@[cursor + j]
                }),
            payload@.len() == i,
        decreases n - i,
    {
        let b = buf[cursor + i];
        let v = if masked {
            b ^ buf[mcur + i % 4]
        } else {
            b
        };
        payload.push(v);
        i += 1;
    }
    let ghost spec_payload = spec_parse_frame(buf@)->Some_0.1;
    assert(payload@ =~= spec_payload);
    Some((InboundFrame { opcode, payload }, cursor + n))
}

} // verus!
