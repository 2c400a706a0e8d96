use gol_rs::wire::{base64_encode, parse_client_frame, sha1, ws_accept_key, ws_close_frame, ws_text_frame};

fn hex(bytes: &[u8]) -> String {
    bytes.iter().map(|b| format!("{b:02x}")).collect()
}

#[test]
fn base64_known_vectors() {
    // RFC 4648 test vectors.
    assert_eq!(base64_encode(b""), "");
    assert_eq!(base64_encode(b"f"), "Zg==");
    assert_eq!(base64_encode(b"fo"), "Zm8=");
    assert_eq!(base64_encode(b"foo"), "Zm9v");
    assert_eq!(base64_encode(b"foob"), "Zm9vYg==");
    assert_eq!(base64_encode(b"fooba"), "Zm9vYmE=");
    assert_eq!(base64_encode(b"foobar"), "Zm9vYmFy");
}

#[test]
fn sha1_known_vectors() {
    // FIPS 180-1 sample messages.
    assert_eq!(
        hex(&sha1(b"abc")),
        "a9993e364706816aba3e25717850c26c9cd0d89d"
    );
    assert_eq!(hex(&sha1(b"")), "da39a3ee5e6b4b0d3255bfef95601890afd80709");
    assert_eq!(
        hex(&sha1(
            b"abcdbcdecdefdefgefghfghighijhijkijkljklmklmnlmnomnopnopq"
        )),
        "84983e441c3bd26ebaae4aa1f95129e5e54670f1"
    );
}

#[test]
fn websocket_accept_key_rfc_vector() {
    // The canonical example from RFC 6455 §1.3.
    assert_eq!(
        ws_accept_key("dGhlIHNhbXBsZSBub25jZQ=="),
        "s3pPLMBiTxaQ9kYGzzhZRbK+xOo="
    );
}

#[test]
fn text_frame_small_payload_header() {
    let f = ws_text_frame(b"hi");
    assert_eq!(f[0], 0x81); // FIN + text
    assert_eq!(f[1], 2); // unmasked length 2
    assert_eq!(&f[2..], b"hi");
}

#[test]
fn text_frame_extended_length() {
    let payload = vec![0u8; 200];
    let f = ws_text_frame(&payload);
    assert_eq!(f[1], 126);
    assert_eq!(u16::from_be_bytes([f[2], f[3]]), 200);
}

#[test]
fn parse_masked_client_frame() {
    // A masked "Hi" text frame the way a browser would send it.
    let mask = [0x37, 0xfa, 0x21, 0x3d];
    let data = b"Hi";
    let mut frame = vec![0x81, 0x80 | data.len() as u8];
    frame.extend_from_slice(&mask);
    for (i, b) in data.iter().enumerate() {
        frame.push(b ^ mask[i % 4]);
    }
    let (parsed, used) = parse_client_frame(&frame).unwrap();
    assert_eq!(used, frame.len());
    assert_eq!(parsed.opcode, 0x1);
    assert_eq!(parsed.payload, b"Hi");
}

#[test]
fn parse_returns_none_on_partial() {
    assert!(parse_client_frame(&[0x81]).is_none());
}

#[test]
fn close_frame_and_base64_length() {
    assert_eq!(ws_close_frame(), vec![0x88, 0x00]);
    for n in 0..10usize {
        let data = vec![7u8; n];
        assert_eq!(base64_encode(&data).len(), 4 * ((n + 2) / 3));
    }
    let long = vec![1u8; 70000];
    let f = ws_text_frame(&long);
    assert_eq!(f[1], 127);
    assert_eq!(f.len(), 10 + 70000);
}
