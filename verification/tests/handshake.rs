//! Handshake behaviour on both sides: option negotiation, the export
//! information block, the flag round trip, and refusal of malformed input.

use nbd::chan::Chan;
use nbd::client;
use nbd::error::NbdError;
use nbd::server;
use nbd::Export;

const NBDMAGIC: [u8; 8] = [0x4E, 0x42, 0x44, 0x4D, 0x41, 0x47, 0x49, 0x43];
const IHAVEOPT: [u8; 8] = [0x49, 0x48, 0x41, 0x56, 0x45, 0x4F, 0x50, 0x54];
const OLDSTYLE: [u8; 8] = [0x00, 0x00, 0x42, 0x02, 0x81, 0x86, 0x12, 0x53];

fn export(size: u64) -> Export {
    Export {
        size,
        readonly: false,
        resizeable: false,
        rotational: false,
        send_trim: false,
        send_flush: true,
    }
}

fn greeting() -> Vec<u8> {
    let mut v = Vec::new();
    v.extend_from_slice(&NBDMAGIC);
    v.extend_from_slice(&IHAVEOPT);
    v.extend_from_slice(&1u16.to_be_bytes());
    v
}

fn wire_flags(e: &Export) -> u16 {
    let mut f: u16 = 1;
    if e.readonly {
        f |= 2;
    } else {
        f |= 4;
    }
    if e.resizeable {
        f |= 512;
    }
    if e.rotational {
        f |= 16;
    }
    if e.send_trim {
        f |= 32;
    }
    f
}

fn export_block(e: &Export) -> Vec<u8> {
    let mut v = Vec::new();
    v.extend_from_slice(&e.size.to_be_bytes());
    v.extend_from_slice(&wire_flags(e).to_be_bytes());
    v.extend_from_slice(&[0u8; 124]);
    v
}

fn option(code: u32, payload: &[u8]) -> Vec<u8> {
    let mut v = Vec::new();
    v.extend_from_slice(&IHAVEOPT);
    v.extend_from_slice(&code.to_be_bytes());
    v.extend_from_slice(&(payload.len() as u32).to_be_bytes());
    v.extend_from_slice(payload);
    v
}

fn client_input(options: &[Vec<u8>]) -> Vec<u8> {
    let mut v = Vec::new();
    v.extend_from_slice(&1u32.to_be_bytes());
    for o in options {
        v.extend_from_slice(o);
    }
    v
}

fn client_hello(name: &[u8]) -> Vec<u8> {
    let mut v = Vec::new();
    v.extend_from_slice(&1u32.to_be_bytes());
    v.extend_from_slice(&IHAVEOPT);
    v.extend_from_slice(&1u32.to_be_bytes());
    v.extend_from_slice(&(name.len() as u32).to_be_bytes());
    v.extend_from_slice(name);
    v
}

#[test]
fn server_handshake_selects_export() {
    let e = export(1234);
    let mut c = Chan::new(client_input(&[option(1, b"sda1")]));
    server::handshake(&mut c, &e).expect("handshake should succeed");
    let out = c.take_outgoing();
    let mut expected = greeting();
    expected.extend_from_slice(&export_block(&e));
    assert_eq!(out, expected);
}

#[test]
fn server_handshake_rejects_bad_client_flags() {
    let mut v = Vec::new();
    v.extend_from_slice(&3u32.to_be_bytes());
    let mut c = Chan::new(v);
    let r = server::handshake(&mut c, &export(1));
    assert_eq!(r, Err(NbdError::InvalidClientFlag));
}

#[test]
fn server_handshake_rejects_bad_option_magic() {
    let mut v = Vec::new();
    v.extend_from_slice(&1u32.to_be_bytes());
    v.extend_from_slice(&NBDMAGIC);
    v.extend_from_slice(&1u32.to_be_bytes());
    v.extend_from_slice(&0u32.to_be_bytes());
    let mut c = Chan::new(v);
    let r = server::handshake(&mut c, &export(1));
    assert_eq!(r, Err(NbdError::InvalidOptMagic));
}

#[test]
fn server_handshake_refuses_oversized_option() {
    // An option claiming 200000 payload bytes is a framing error.
    let mut v = Vec::new();
    v.extend_from_slice(&1u32.to_be_bytes());
    v.extend_from_slice(&IHAVEOPT);
    v.extend_from_slice(&1u32.to_be_bytes());
    v.extend_from_slice(&200000u32.to_be_bytes());
    let mut c = Chan::new(v);
    let r = server::handshake(&mut c, &export(1));
    assert_eq!(r, Err(NbdError::OptionTooLong));
}

#[test]
fn server_handshake_list_emits_server_then_ack() {
    let e = export(77);
    let mut c = Chan::new(client_input(&[option(3, b""), option(1, b"")]));
    server::handshake(&mut c, &e).expect("handshake should succeed");
    let out = c.take_outgoing();

    let mut expected = greeting();
    // SERVER reply: option-reply magic, echoed code 3, type 2, length 11,
    // then the payload 0x00 00 00 07 "rustnbd"
    expected.extend_from_slice(&0x0003E889045565A9u64.to_be_bytes());
    expected.extend_from_slice(&3u32.to_be_bytes());
    expected.extend_from_slice(&2u32.to_be_bytes());
    expected.extend_from_slice(&11u32.to_be_bytes());
    expected.extend_from_slice(&[0x00, 0x00, 0x00, 0x07]);
    expected.extend_from_slice(b"rustnbd");
    // ACK reply
    expected.extend_from_slice(&0x0003E889045565A9u64.to_be_bytes());
    expected.extend_from_slice(&3u32.to_be_bytes());
    expected.extend_from_slice(&1u32.to_be_bytes());
    expected.extend_from_slice(&0u32.to_be_bytes());
    expected.extend_from_slice(&export_block(&e));
    assert_eq!(out, expected);
}

#[test]
fn server_handshake_list_with_content_fails() {
    let mut c = Chan::new(client_input(&[option(3, b"x")]));
    let r = server::handshake(&mut c, &export(1));
    assert_eq!(r, Err(NbdError::ListWithContent));
}

#[test]
fn server_handshake_abort_acks_then_fails() {
    let mut c = Chan::new(client_input(&[option(2, b"")]));
    let r = server::handshake(&mut c, &export(1));
    assert_eq!(r, Err(NbdError::ClientAbort));
    let out = c.take_outgoing();
    let mut expected = greeting();
    expected.extend_from_slice(&0x0003E889045565A9u64.to_be_bytes());
    expected.extend_from_slice(&2u32.to_be_bytes());
    expected.extend_from_slice(&1u32.to_be_bytes());
    expected.extend_from_slice(&0u32.to_be_bytes());
    assert_eq!(out, expected);
}

#[test]
fn server_handshake_starttls_fails() {
    let mut c = Chan::new(client_input(&[option(5, b"")]));
    let r = server::handshake(&mut c, &export(1));
    assert_eq!(r, Err(NbdError::TlsNotSupported));
}

#[test]
fn server_handshake_info_and_go_get_unsupported() {
    let e = export(9);
    let mut c = Chan::new(client_input(&[option(6, b""), option(7, b""), option(1, b"")]));
    server::handshake(&mut c, &e).expect("handshake should succeed");
    let out = c.take_outgoing();
    let mut expected = greeting();
    for code in [6u32, 7u32] {
        expected.extend_from_slice(&0x0003E889045565A9u64.to_be_bytes());
        expected.extend_from_slice(&code.to_be_bytes());
        expected.extend_from_slice(&0x80000001u32.to_be_bytes());
        expected.extend_from_slice(&0u32.to_be_bytes());
    }
    expected.extend_from_slice(&export_block(&e));
    assert_eq!(out, expected);
}

#[test]
fn server_handshake_unknown_option_fails() {
    let mut c = Chan::new(client_input(&[option(42, b"")]));
    let r = server::handshake(&mut c, &export(1));
    assert_eq!(r, Err(NbdError::InvalidOptionType));
}

#[test]
fn server_handshake_truncated_option_fails() {
    let mut v = Vec::new();
    v.extend_from_slice(&1u32.to_be_bytes());
    v.extend_from_slice(&IHAVEOPT);
    v.extend_from_slice(&1u32.to_be_bytes());
    v.extend_from_slice(&10u32.to_be_bytes());
    v.extend_from_slice(b"abc");
    let mut c = Chan::new(v);
    let r = server::handshake(&mut c, &export(1));
    assert_eq!(r, Err(NbdError::ShortRead));
}

#[test]
fn client_handshake_newstyle() {
    let e = Export {
        size: 4096,
        readonly: false,
        resizeable: true,
        rotational: false,
        send_trim: true,
        send_flush: false,
    };
    let mut input = greeting();
    input.extend_from_slice(&export_block(&e));
    let mut c = Chan::new(input);
    let got = client::handshake(&mut c, b"sda1").expect("handshake should succeed");
    assert_eq!(got.size, 4096);
    assert!(!got.readonly);
    assert!(got.resizeable);
    assert!(!got.rotational);
    assert!(got.send_trim);
    assert!(got.send_flush);
    assert_eq!(c.take_outgoing(), client_hello(b"sda1"));
}

#[test]
fn client_handshake_oldstyle() {
    let mut input = Vec::new();
    input.extend_from_slice(&NBDMAGIC);
    input.extend_from_slice(&OLDSTYLE);
    input.extend_from_slice(&777u64.to_be_bytes());
    input.extend_from_slice(&5u32.to_be_bytes());
    input.extend_from_slice(&[0u8; 124]);
    let mut c = Chan::new(input);
    let got = client::handshake(&mut c, b"").expect("handshake should succeed");
    assert_eq!(got.size, 777);
    assert!(got.send_flush);
    assert!(!got.readonly);
    assert!(c.take_outgoing().is_empty());
}

#[test]
fn client_handshake_oldstyle_rejects_named_export() {
    let mut input = Vec::new();
    input.extend_from_slice(&NBDMAGIC);
    input.extend_from_slice(&OLDSTYLE);
    let mut c = Chan::new(input);
    let r = client::handshake(&mut c, b"sda1");
    assert_eq!(r, Err(NbdError::OldstyleNamedExport));
}

#[test]
fn client_handshake_rejects_bad_magics() {
    let mut c = Chan::new(vec![0u8; 160]);
    assert_eq!(client::handshake(&mut c, b""), Err(NbdError::InvalidMagic1));

    let mut input = Vec::new();
    input.extend_from_slice(&NBDMAGIC);
    input.extend_from_slice(&NBDMAGIC);
    input.extend_from_slice(&[0u8; 144]);
    let mut c = Chan::new(input);
    assert_eq!(client::handshake(&mut c, b""), Err(NbdError::InvalidMagic2));
}

#[test]
fn client_handshake_rejects_nonzero_padding() {
    let e = export(10);
    let mut input = greeting();
    input.extend_from_slice(&export_block(&e));
    input[151] = 1;
    let mut c = Chan::new(input);
    assert_eq!(client::handshake(&mut c, b""), Err(NbdError::NonzeroPadding));
}

#[test]
fn handshake_roundtrip_all_flag_combinations() {
    // Pipe the server's handshake output into the client's handshake: the
    // client must see the export the server was given, for every combination
    // of the advertised flags (send_flush is the complement of readonly on
    // the wire, so only such exports come back bit-identical).
    for bits in 0..16u32 {
        let e = Export {
            size: 1234 * 1024,
            readonly: bits & 1 != 0,
            resizeable: bits & 2 != 0,
            rotational: bits & 4 != 0,
            send_trim: bits & 8 != 0,
            send_flush: bits & 1 == 0,
        };
        let mut sc = Chan::new(client_hello(b"disk"));
        server::handshake(&mut sc, &e).expect("server handshake");
        let mut cc = Chan::new(sc.take_outgoing());
        let got = client::handshake(&mut cc, b"disk").expect("client handshake");
        assert_eq!(got, e);
        assert_eq!(cc.take_outgoing(), client_hello(b"disk"));
    }
}

fn lcg(seed: &mut u64) -> u64 {
    *seed = seed.wrapping_mul(6364136223846793005).wrapping_add(1442695040888963407);
    *seed >> 16
}

fn fuzz_input(seed: &mut u64) -> Vec<u8> {
    let chunks: [&[u8]; 10] = [
        &IHAVEOPT,
        &NBDMAGIC,
        &[0x00, 0x00],
        &[0x00, 0x00, 0x00, 0x01],
        &OLDSTYLE,
        &[0x00, 0x03, 0xE8, 0x89, 0x04, 0x55, 0x65, 0xA9],
        &[0u8; 124],
        &[0x00, 0x00, 0x00, 0x00, 0x00, 0x00, 0x00, 0x07],
        &[0xFF],
        &[0x25, 0x60, 0x95, 0x13],
    ];
    let mut v = Vec::new();
    let n = 3 + lcg(seed) % 10;
    for _ in 0..n {
        let pick = (lcg(seed) % 12) as usize;
        if pick < chunks.len() {
            v.extend_from_slice(chunks[pick]);
        } else {
            v.push((lcg(seed) & 0xFF) as u8);
        }
    }
    v
}

#[test]
fn fuzz_server_hs() {
    // Arbitrary byte soup must produce an error or a clean handshake, never
    // a panic.
    let mut seed: u64 = 4;
    for _ in 0..2000 {
        let mut c = Chan::new(fuzz_input(&mut seed));
        let _ = server::handshake(&mut c, &export(123));
    }
}

#[test]
fn fuzz_client_hs() {
    let mut seed: u64 = 7;
    for _ in 0..2000 {
        let mut c = Chan::new(fuzz_input(&mut seed));
        let _ = client::handshake(&mut c, b"");
    }
}

#[test]
fn oldstyle_header_layout() {
    let mut c = Chan::new(Vec::new());
    server::oldstyle_header(&mut c, 512, 3).expect("infallible");
    let out = c.take_outgoing();
    let mut expected = Vec::new();
    expected.extend_from_slice(&NBDMAGIC);
    expected.extend_from_slice(&OLDSTYLE);
    expected.extend_from_slice(&512u64.to_be_bytes());
    expected.extend_from_slice(&3u32.to_be_bytes());
    expected.extend_from_slice(&[0u8; 124]);
    assert_eq!(out, expected);
}

#[test]
fn client_handshake_keeps_pipelined_bytes() {
    // Anything the server sent beyond the 152 handshake bytes stays queued
    // for the session.
    let e = export(64);
    let mut input = greeting();
    input.extend_from_slice(&export_block(&e));
    input.extend_from_slice(&[0xAA, 0xBB, 0xCC]);
    let mut c = Chan::new(input);
    client::handshake(&mut c, b"x").expect("handshake");
    assert_eq!(c.available(), 3);
}
