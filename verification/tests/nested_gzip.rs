//! A gzip file inside a gzip file: the outer one stores the bytes of the inner
//! one, in which the block finder sees block headers that are none of its own.
use rusty_rapidgzip::file::decode_file;
use rusty_rapidgzip::gzip::decode_all;
use rusty_rapidgzip::pieces::PieceDecoder;
use rusty_rapidgzip::stream::Polled;
use rusty_rapidgzip::streaming::{DispatchStep, Dispatcher};

fn gz_encode(payload: &[u8], level: u8) -> Vec<u8> {
    let mut out = vec![0x1f, 0x8b, 8, 0, 0, 0, 0, 0, 0, 0xff];
    out.extend_from_slice(&miniz_oxide::deflate::compress_to_vec(payload, level));
    out.extend_from_slice(&crc32fast::hash(payload).to_le_bytes());
    out.extend_from_slice(&(payload.len() as u32).to_le_bytes());
    out
}

fn ascii_payload(n: usize, seed: u64) -> Vec<u8> {
    let mut s: u64 = seed | 1;
    let mut p = Vec::with_capacity(n);
    while p.len() < n {
        s = s.wrapping_mul(6364136223846793005).wrapping_add(1442695040888963407);
        p.push(((s >> 56) as u8 % 95) + 32);
    }
    p
}

fn gzip_nested(payload: &[u8], depth: usize, level: u8) -> Vec<Vec<u8>> {
    let mut layers = Vec::with_capacity(depth);
    let mut cur = payload.to_vec();
    for _ in 0..depth {
        cur = gz_encode(&cur, level);
        layers.push(cur.clone());
    }
    layers
}

#[test]
fn nested_gzip_decodes_correctly_and_triggers_recovery() {
    let original = ascii_payload(8 * 1024 * 1024, 0xC0FFEE);
    let layers = gzip_nested(&original, 2, 6);
    let inner = &layers[0];
    let outer = &layers[1];

    let mut serial_out = Vec::new();
    decode_all(outer, &mut serial_out).unwrap();
    assert!(&serial_out == inner, "decode_all(outer) must equal inner");

    let mut total_recoveries = 0u64;
    for threads in [1usize, 2, 4, 8] {
        let out = decode_file(outer, threads, 64 * 1024).expect("decode_file");
        assert!(&out.chunks.concat() == inner, "decode_file(outer) must equal inner (threads={threads})");
        total_recoveries += out.stats.speculation_failures;
    }
    assert!(total_recoveries > 0, "no false boundary was met, so recovery from one is untested");
}

#[test]
fn triple_nested_gzip_decodes_correctly() {
    let original = ascii_payload(2 * 1024 * 1024, 0x1234_5678);
    let layers = gzip_nested(&original, 3, 9);
    let twice = &layers[1];
    let thrice = &layers[2];
    for threads in [1usize, 4] {
        let out = decode_file(thrice, threads, 64 * 1024).expect("decode_file");
        assert!(&out.chunks.concat() == twice, "decode_file(thrice) must equal twice (threads={threads})");
    }
}

/// Through a pipe, a chunk that was cut at a false boundary is decoded again.
#[test]
fn nested_gzip_decodes_through_a_pipe() {
    let payload = ascii_payload(3 * 1024 * 1024, 0xC0FFEE);
    let layers = gzip_nested(&payload, 2, 6);
    let inner = &layers[0];
    let mut outer = layers[1].clone();
    outer.extend_from_slice(&gz_encode(b"and more", 6));
    let mut d = Dispatcher::new(64 * 1024);
    let mut at = 0;
    let mut feed = |d: &mut Dispatcher| {
        let to = (at + 100_000).min(outer.len());
        d.feed(&outer[at..to]);
        at = to;
    };
    while let Polled::NeedInput = d.start_body().unwrap() {
        feed(&mut d);
    }
    let mut pieces: Option<PieceDecoder> = None;
    let mut out = Vec::new();
    let (mut cut, mut handed_on) = (0, 0);
    loop {
        match d.next() {
            DispatchStep::NeedInput => feed(&mut d),
            DispatchStep::Work(item) => {
                cut += 1;
                let pieces = pieces.get_or_insert_with(|| PieceDecoder::new(item.base_byte));
                if let Some((bytes, _)) = pieces.step(item).expect("step") {
                    handed_on += 1;
                    out.extend_from_slice(&bytes);
                }
            }
            DispatchStep::Done => break,
        }
    }
    let mut expected = inner.clone();
    expected.extend_from_slice(b"and more");
    assert!(out == expected, "the pipe must give the bytes of the file");
    assert!(handed_on < cut, "no false boundary was met: {cut} chunks");
}
