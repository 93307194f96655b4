//! The client session surface: seek arithmetic, and a long random sequence
//! of seeks, writes and reads relayed through a real server, compared
//! against a plain local buffer.

use nbd::chan::Chan;
use nbd::client::{NbdClient, SeekFrom};
use nbd::error::NbdError;
use nbd::server;
use nbd::store::MemStore;
use nbd::Export;

const REQ_MAGIC: [u8; 4] = [0x25, 0x60, 0x95, 0x13];

fn export(size: u64) -> Export {
    Export {
        size,
        readonly: false,
        resizeable: false,
        rotational: false,
        send_trim: false,
        send_flush: true,
    }
}

fn req_frame(cmd: u16, offset: u64, len: u32) -> Vec<u8> {
    let mut v = Vec::new();
    v.extend_from_slice(&REQ_MAGIC);
    v.extend_from_slice(&0u16.to_be_bytes());
    v.extend_from_slice(&cmd.to_be_bytes());
    v.extend_from_slice(&0u64.to_be_bytes());
    v.extend_from_slice(&offset.to_be_bytes());
    v.extend_from_slice(&len.to_be_bytes());
    v
}

#[test]
fn seek_semantics() {
    let mut c = NbdClient::new(Chan::new(Vec::new()), &export(1000));
    assert_eq!(c.seek(SeekFrom::Start(10)), Ok(10));
    assert_eq!(c.seek(SeekFrom::Current(5)), Ok(15));
    assert_eq!(c.seek(SeekFrom::Current(-15)), Ok(0));
    assert_eq!(c.seek(SeekFrom::Current(-1)), Err(NbdError::InvalidSeek));
    assert_eq!(c.seek(SeekFrom::Current(0)), Ok(0));
    assert_eq!(c.seek(SeekFrom::End(-100)), Ok(900));
    assert_eq!(c.seek(SeekFrom::End(24)), Ok(1024));
    // seeking past the end is legal; the later read/write minds
    assert_eq!(c.seek(SeekFrom::End(-1001)), Err(NbdError::InvalidSeek));
}

#[test]
fn seek_overflow_fails() {
    // seek(Current, i64::MAX) from seek_pos = u64::MAX fails
    let mut c = NbdClient::new(Chan::new(Vec::new()), &export(10));
    assert_eq!(c.seek(SeekFrom::Start(u64::MAX)), Ok(u64::MAX));
    assert_eq!(c.seek(SeekFrom::Current(i64::MAX)), Err(NbdError::InvalidSeek));
    assert_eq!(c.seek(SeekFrom::Current(0)), Ok(u64::MAX));
    assert_eq!(c.seek(SeekFrom::Current(i64::MIN)), Err(NbdError::InvalidSeek));
    assert_eq!(c.seek(SeekFrom::Current(0)), Ok(u64::MAX));
}

fn lcg(seed: &mut u64) -> u64 {
    *seed = seed.wrapping_mul(6364136223846793005).wrapping_add(1442695040888963407);
    *seed >> 16
}

#[test]
fn random_session_matches_local_buffer() {
    // A long random sequence of seek/write/read, bounded within [0, size),
    // applied both to a local buffer and to a session relayed through the
    // real server: every read agrees, and the two byte spaces end identical.
    let size: u64 = 8192;
    let mut local = vec![0u8; size as usize];
    let mut lpos: usize = 0;
    let mut store = MemStore::new(vec![0u8; size as usize]);
    let mut client = NbdClient::new(Chan::new(Vec::new()), &export(size));
    let mut seed: u64 = 2024;

    for _ in 0..300 {
        match lcg(&mut seed) % 3 {
            0 => {
                let pos = lcg(&mut seed) % size;
                assert_eq!(client.seek(SeekFrom::Start(pos)), Ok(pos));
                lpos = pos as usize;
            }
            1 => {
                let len = (lcg(&mut seed) % 700) as usize;
                let mut data = vec![0u8; len];
                for b in data.iter_mut() {
                    *b = (lcg(&mut seed) & 0xFF) as u8;
                }
                let n = len.min(size as usize - lpos);
                if n > 0 {
                    let mut wreq = req_frame(1, lpos as u64, n as u32);
                    wreq.extend_from_slice(&data[..n]);
                    let mut sc = Chan::new(wreq.clone());
                    assert!(server::handle_request(&mut sc, &mut store).unwrap());
                    client.feed(&sc.take_outgoing());
                    assert_eq!(client.write(&data), Ok(n));
                    assert_eq!(client.take_outgoing(), wreq);
                } else {
                    assert_eq!(client.write(&data), Ok(0));
                }
                local[lpos..lpos + n].copy_from_slice(&data[..n]);
                lpos += n;
            }
            _ => {
                let len = (lcg(&mut seed) % 700) as usize;
                let mut buf = vec![0u8; len];
                let n = len.min(size as usize - lpos);
                if n > 0 {
                    let rreq = req_frame(0, lpos as u64, n as u32);
                    let mut sc = Chan::new(rreq.clone());
                    assert!(server::handle_request(&mut sc, &mut store).unwrap());
                    client.feed(&sc.take_outgoing());
                    assert_eq!(client.read(&mut buf), Ok(n));
                    assert_eq!(client.take_outgoing(), rreq);
                } else {
                    assert_eq!(client.read(&mut buf), Ok(0));
                }
                assert_eq!(&buf[..n], &local[lpos..lpos + n]);
                lpos += n;
            }
        }
    }
    assert_eq!(store.data(), &local);
}
