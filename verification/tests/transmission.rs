//! The transmission phase: request dispatch on the server, the session
//! surface on the client, and the two relayed against each other.

use nbd::chan::Chan;
use nbd::client::{self, NbdClient, NbdExt, SeekFrom};
use nbd::error::{device_error_kind, DeviceErrorKind, NbdError};
use nbd::server;
use nbd::store::{BlockStore, MemStore, ReadOnlyMemStore};
use nbd::Export;

const REQ_MAGIC: [u8; 4] = [0x25, 0x60, 0x95, 0x13];

fn export(size: u64) -> Export {
    Export {
        size,
        readonly: false,
        resizeable: false,
        rotational: false,
        send_trim: false,
        send_flush: true,
    }
}

fn req_frame(cmd: u16, offset: u64, len: u32) -> Vec<u8> {
    let mut v = Vec::new();
    v.extend_from_slice(&REQ_MAGIC);
    v.extend_from_slice(&0u16.to_be_bytes());
    v.extend_from_slice(&cmd.to_be_bytes());
    v.extend_from_slice(&0u64.to_be_bytes());
    v.extend_from_slice(&offset.to_be_bytes());
    v.extend_from_slice(&len.to_be_bytes());
    v
}

fn reply_frame(error: u32) -> Vec<u8> {
    let mut v = Vec::new();
    v.extend_from_slice(&0x67446698u32.to_be_bytes());
    v.extend_from_slice(&error.to_be_bytes());
    v.extend_from_slice(&0u64.to_be_bytes());
    v
}

/// Run the server on `expected_req` against `store` and feed its answer to
/// the client, so that the next client call finds its reply waiting.
fn relay<D: BlockStore>(client: &mut NbdClient, store: &mut D, expected_req: &[u8]) {
    let mut sc = Chan::new(expected_req.to_vec());
    let cont = server::handle_request(&mut sc, store).expect("server should handle the request");
    assert!(cont);
    client.feed(&sc.take_outgoing());
}

#[test]
fn read_scenario_sda1() {
    // size=1474560, content = "sda1" repeated 1024 times; reading 1024 bytes
    // from offset 1024 gives repeat[1024..2048].
    let content: Vec<u8> = b"sda1".repeat(1024);
    let mut store = MemStore::new(content.clone());
    let e = export(1474560);

    let mut sc = Chan::new({
        let mut v = Vec::new();
        v.extend_from_slice(&1u32.to_be_bytes());
        v.extend_from_slice(&[0x49, 0x48, 0x41, 0x56, 0x45, 0x4F, 0x50, 0x54]);
        v.extend_from_slice(&1u32.to_be_bytes());
        v.extend_from_slice(&4u32.to_be_bytes());
        v.extend_from_slice(b"sda1");
        v
    });
    server::handshake(&mut sc, &e).expect("server handshake");
    let mut cc = Chan::new(sc.take_outgoing());
    let got = client::handshake(&mut cc, b"sda1").expect("client handshake");
    assert_eq!(got.size, 1474560);
    let hello = cc.take_outgoing();
    assert_eq!(&hello[16..20], &4u32.to_be_bytes());
    assert_eq!(&hello[20..24], b"sda1");

    let mut client = NbdClient::new(cc, &got);
    assert_eq!(client.seek(SeekFrom::Start(1024)), Ok(1024));
    let mut buf = vec![0u8; 1024];
    relay(&mut client, &mut store, &req_frame(0, 1024, 1024));
    let n = client.read(&mut buf).expect("read");
    assert_eq!(n, 1024);
    assert_eq!(&buf[..], &content[1024..2048]);
    assert_eq!(client.take_outgoing(), req_frame(0, 1024, 1024));
}

#[test]
fn write_then_read_roundtrip() {
    // write(n) followed by read(n) at the same offset returns the bytes just
    // written, here for n of 1, 100 and 65536.
    for n in [1usize, 100, 65536] {
        let size = 70000u64;
        let mut store = MemStore::new(vec![0u8; size as usize]);
        let mut client = NbdClient::new(Chan::new(Vec::new()), &export(size));
        let data: Vec<u8> = (0..n).map(|i| (i * 7 + n) as u8).collect();
        let offset = 17u64;

        assert_eq!(client.seek(SeekFrom::Start(offset)), Ok(offset));
        let mut wreq = req_frame(1, offset, n as u32);
        wreq.extend_from_slice(&data);
        relay(&mut client, &mut store, &wreq);
        assert_eq!(client.write(&data), Ok(n));
        assert_eq!(client.take_outgoing(), wreq);

        assert_eq!(client.seek(SeekFrom::Start(offset)), Ok(offset));
        let rreq = req_frame(0, offset, n as u32);
        relay(&mut client, &mut store, &rreq);
        let mut buf = vec![0u8; n];
        assert_eq!(client.read(&mut buf), Ok(n));
        assert_eq!(buf, data);
        assert_eq!(client.take_outgoing(), rreq);
    }
}

#[test]
fn read_near_end() {
    // Reading at offset size returns 0 bytes; at size - k it returns k.
    let size = 1000u64;
    let mut store = MemStore::new((0..1000u32).map(|i| i as u8).collect());
    let mut client = NbdClient::new(Chan::new(Vec::new()), &export(size));

    assert_eq!(client.seek(SeekFrom::Start(size)), Ok(size));
    let mut buf = vec![0u8; 64];
    assert_eq!(client.read(&mut buf), Ok(0));
    assert!(client.take_outgoing().is_empty());

    for k in [1u64, 7, 63] {
        assert_eq!(client.seek(SeekFrom::Start(size - k)), Ok(size - k));
        let rreq = req_frame(0, size - k, k as u32);
        relay(&mut client, &mut store, &rreq);
        let n = client.read(&mut buf).expect("read");
        assert_eq!(n as u64, k);
        assert_eq!(client.take_outgoing(), rreq);
    }
}

#[test]
fn read_past_end_fails() {
    let mut client = NbdClient::new(Chan::new(Vec::new()), &export(100));
    assert_eq!(client.seek(SeekFrom::Start(101)), Ok(101));
    let mut buf = vec![0u8; 4];
    assert_eq!(client.read(&mut buf), Err(NbdError::PastEnd));
    assert_eq!(client.write(&[1, 2, 3]), Err(NbdError::PastEnd));
}

#[test]
fn readonly_export_refuses_writes_but_keeps_serving() {
    // A read-only store answers a WRITE with a permission-denied device
    // error, and the server goes on serving reads on the same session.
    let size = 1234 * 1024u64;
    let content: Vec<u8> = (0..size).map(|i| (i % 251) as u8).collect();
    let mut store = ReadOnlyMemStore::new(content.clone());

    let mut sc = Chan::new({
        let mut v = req_frame(1, 4096, 4);
        v.extend_from_slice(b"data");
        v.extend_from_slice(&req_frame(0, 4096, 8));
        v.extend_from_slice(&req_frame(2, 0, 0));
        v
    });
    server::transmission(&mut sc, &mut store).expect("session should end at DISC");
    let out = sc.take_outgoing();
    let mut expected = reply_frame(1);
    expected.extend_from_slice(&reply_frame(0));
    expected.extend_from_slice(&content[4096..4104]);
    assert_eq!(out, expected);
    assert_eq!(store.data(), &content);

    // and at the client, that reply decodes to permission denied
    let mut client = NbdClient::new(Chan::new(reply_frame(1)), &export(size));
    assert_eq!(client.seek(SeekFrom::Start(4096)), Ok(4096));
    let r = client.write(b"data");
    assert_eq!(r, Err(NbdError::Device(1)));
    assert_eq!(device_error_kind(1), DeviceErrorKind::PermissionDenied);
    assert_eq!(client.seek(SeekFrom::Current(0)), Ok(4096));
}

#[test]
fn trim_unsupported_gives_error_38() {
    // TRIM on a server that does not support it: the client sees device
    // error code 38.
    let mut store = MemStore::new(vec![0u8; 4096]);
    let mut client = NbdClient::new(Chan::new(Vec::new()), &export(4096));
    relay(&mut client, &mut store, &req_frame(4, 0, 512));
    let r = client.trim(512);
    assert_eq!(r, Err(NbdError::Device(38)));
    assert_eq!(device_error_kind(38), DeviceErrorKind::Other);
    assert_eq!(client.take_outgoing(), req_frame(4, 0, 512));
}

#[test]
fn write_zeroes_unsupported_gives_error_38() {
    let mut store = MemStore::new(vec![0u8; 64]);
    let mut sc = Chan::new(req_frame(6, 0, 16));
    let cont = server::handle_request(&mut sc, &mut store).expect("handled");
    assert!(cont);
    assert_eq!(sc.take_outgoing(), reply_frame(38));
}

#[test]
fn mid_read_disconnect_leaves_cursor() {
    // The server sends the success header and only k < length payload bytes,
    // then the transport closes: the read fails short and the cursor stays.
    let size = 4096u64;
    let mut input = reply_frame(0);
    input.extend_from_slice(&[9u8; 100]);
    let mut client = NbdClient::new(Chan::new(input), &export(size));
    assert_eq!(client.seek(SeekFrom::Start(512)), Ok(512));
    let mut buf = vec![0u8; 256];
    assert_eq!(client.read(&mut buf), Err(NbdError::ShortRead));
    assert_eq!(client.seek(SeekFrom::Current(0)), Ok(512));
    assert_eq!(buf, vec![0u8; 256]);
}

#[test]
fn flush_roundtrip() {
    let mut store = MemStore::new(vec![0u8; 16]);
    let mut client = NbdClient::new(Chan::new(Vec::new()), &export(16));
    relay(&mut client, &mut store, &req_frame(3, 0, 0));
    assert_eq!(client.flush(), Ok(()));
    assert_eq!(client.take_outgoing(), req_frame(3, 0, 0));
}

#[test]
fn resize_updates_client_size_only_on_success() {
    let mut client = NbdClient::new(Chan::new(reply_frame(0)), &export(100));
    assert_eq!(client.resize(200), Ok(()));
    assert_eq!(client.seek(SeekFrom::End(0)), Ok(200));

    let mut client = NbdClient::new(Chan::new(reply_frame(28)), &export(100));
    assert_eq!(client.resize(300), Err(NbdError::Device(28)));
    assert_eq!(client.seek(SeekFrom::End(0)), Ok(100));

    // this server does not implement RESIZE: the request is an unknown
    // command and kills the session
    let mut store = MemStore::new(vec![0u8; 100]);
    let mut sc = Chan::new(req_frame(8, 200, 0));
    let r = server::handle_request(&mut sc, &mut store);
    assert_eq!(r, Err(NbdError::UnknownCommand));
}

#[test]
fn transmission_ends_cleanly_at_disc() {
    let mut store = MemStore::new(vec![0u8; 8]);
    let mut sc = Chan::new(req_frame(2, 0, 0));
    assert_eq!(server::transmission(&mut sc, &mut store), Ok(()));
    assert!(sc.take_outgoing().is_empty());
}

#[test]
fn transmission_write_applies_to_store() {
    let mut store = MemStore::new(vec![0u8; 8]);
    let mut input = req_frame(1, 2, 3);
    input.extend_from_slice(b"abc");
    input.extend_from_slice(&req_frame(2, 0, 0));
    let mut sc = Chan::new(input);
    assert_eq!(server::transmission(&mut sc, &mut store), Ok(()));
    assert_eq!(sc.take_outgoing(), reply_frame(0));
    assert_eq!(store.data(), &vec![0, 0, b'a', b'b', b'c', 0, 0, 0]);
}

#[test]
fn transmission_write_extends_store_with_zero_padding() {
    let mut store = MemStore::new(vec![7u8; 2]);
    let mut input = req_frame(1, 5, 2);
    input.extend_from_slice(b"hi");
    input.extend_from_slice(&req_frame(2, 0, 0));
    let mut sc = Chan::new(input);
    assert_eq!(server::transmission(&mut sc, &mut store), Ok(()));
    assert_eq!(store.data(), &vec![7, 7, 0, 0, 0, b'h', b'i']);
}

#[test]
fn transmission_rejects_bad_request_magic() {
    let mut store = MemStore::new(vec![0u8; 8]);
    let mut sc = Chan::new(vec![0xFFu8; 28]);
    assert_eq!(server::transmission(&mut sc, &mut store), Err(NbdError::InvalidRequestMagic));
}

#[test]
fn transmission_rejects_unknown_command() {
    let mut store = MemStore::new(vec![0u8; 8]);
    let mut sc = Chan::new(req_frame(9, 0, 0));
    assert_eq!(server::transmission(&mut sc, &mut store), Err(NbdError::UnknownCommand));
}

#[test]
fn transmission_read_beyond_store_is_sudden_eof() {
    // The export pretends to be larger than the store can deliver: the
    // success header is already out when the store runs dry, a fatal error.
    let mut store = MemStore::new(vec![1u8; 4]);
    let mut sc = Chan::new(req_frame(0, 0, 8));
    assert_eq!(server::transmission(&mut sc, &mut store), Err(NbdError::SuddenEof));
    let out = sc.take_outgoing();
    let mut expected = reply_frame(0);
    expected.extend_from_slice(&[1u8; 4]);
    assert_eq!(out, expected);
}

#[test]
fn transmission_truncated_write_payload_is_sudden_eof() {
    let mut store = MemStore::new(vec![0u8; 16]);
    let mut input = req_frame(1, 0, 8);
    input.extend_from_slice(b"abc");
    let mut sc = Chan::new(input);
    assert_eq!(server::transmission(&mut sc, &mut store), Err(NbdError::SuddenEof));
}

fn lcg(seed: &mut u64) -> u64 {
    *seed = seed.wrapping_mul(6364136223846793005).wrapping_add(1442695040888963407);
    *seed >> 16
}

#[test]
fn fuzz_transmission() {
    // Arbitrary byte soup fed to the transmission loop must end in an error
    // or a clean DISC, never a panic, and never corrupt the copy semantics.
    let mut seed: u64 = 11;
    for _ in 0..500 {
        let mut input = Vec::new();
        let n = lcg(&mut seed) % 120;
        for _ in 0..n {
            if lcg(&mut seed) % 4 == 0 {
                input.extend_from_slice(&REQ_MAGIC);
            } else {
                input.push((lcg(&mut seed) & 0xFF) as u8);
            }
        }
        let mut store = MemStore::new(vec![0u8; 256]);
        let mut sc = Chan::new(input);
        let _ = server::transmission(&mut sc, &mut store);
    }
}

#[test]
fn reply_with_bad_magic_or_handle_is_rejected() {
    // wrong reply magic
    let mut bad = vec![0u8; 16];
    bad[0] = 0xDE;
    let mut client = NbdClient::new(Chan::new(bad), &export(100));
    assert_eq!(client.flush(), Err(NbdError::InvalidReplyMagic));

    // right magic, nonzero handle
    let mut bad = reply_frame(0);
    bad[15] = 1;
    let mut client = NbdClient::new(Chan::new(bad), &export(100));
    assert_eq!(client.flush(), Err(NbdError::UnexpectedHandle));
}

#[test]
fn device_error_kinds_decode() {
    for (code, kind) in [
        (1u32, DeviceErrorKind::PermissionDenied),
        (5, DeviceErrorKind::Io),
        (12, DeviceErrorKind::OutOfMemory),
        (22, DeviceErrorKind::InvalidArgument),
        (28, DeviceErrorKind::NoSpace),
        (7, DeviceErrorKind::Other),
        (38, DeviceErrorKind::Other),
    ] {
        assert_eq!(device_error_kind(code), kind);
    }
}

#[test]
fn split_read_halves_compose() {
    // read_begin sends the request; the reply can then be carried over a
    // real transport before read_finish consumes it.
    let content: Vec<u8> = (0..100u32).map(|i| i as u8).collect();
    let mut store = MemStore::new(content.clone());
    let mut client = NbdClient::new(Chan::new(Vec::new()), &export(100));
    assert_eq!(client.seek(SeekFrom::Start(30)), Ok(30));

    let n = client.read_begin(10).expect("begin");
    assert_eq!(n, 10);
    let req = client.take_outgoing();
    assert_eq!(req, req_frame(0, 30, 10));

    let mut sc = Chan::new(req);
    assert!(server::handle_request(&mut sc, &mut store).expect("served"));
    client.feed(&sc.take_outgoing());

    let mut buf = vec![0u8; 10];
    assert_eq!(client.read_finish(&mut buf, n), Ok(10));
    assert_eq!(&buf[..], &content[30..40]);
    assert_eq!(client.seek(SeekFrom::Current(0)), Ok(40));
}

#[test]
fn session_stays_usable_after_device_error() {
    // A device error refuses one request; the session goes on.
    let content: Vec<u8> = (0..64u32).map(|i| i as u8).collect();
    let mut store = ReadOnlyMemStore::new(content.clone());
    let mut client = NbdClient::new(Chan::new(Vec::new()), &export(64));

    let mut wreq = req_frame(1, 0, 2);
    wreq.extend_from_slice(b"no");
    relay(&mut client, &mut store, &wreq);
    assert_eq!(client.write(b"no"), Err(NbdError::Device(1)));
    assert_eq!(client.take_outgoing(), wreq);
    assert_eq!(client.seek(SeekFrom::Current(0)), Ok(0));

    let rreq = req_frame(0, 0, 8);
    relay(&mut client, &mut store, &rreq);
    let mut buf = vec![0u8; 8];
    assert_eq!(client.read(&mut buf), Ok(8));
    assert_eq!(&buf[..], &content[..8]);
}
