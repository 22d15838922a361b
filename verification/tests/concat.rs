use rusty_rapidgzip::fastq::FastqSplitter;
use rusty_rapidgzip::file::decode_file;
use rusty_rapidgzip::gzip::decode_all;
use rusty_rapidgzip::stream::{StreamDecoder, StreamStep};
use rusty_rapidgzip::Error;

fn gz_encode(payload: &[u8], level: u8) -> Vec<u8> {
    let mut out = vec![0x1f, 0x8b, 8, 0, 0, 0, 0, 0, 0, 0xff];
    out.extend_from_slice(&miniz_oxide::deflate::compress_to_vec(payload, level));
    out.extend_from_slice(&crc32fast::hash(payload).to_le_bytes());
    out.extend_from_slice(&(payload.len() as u32).to_le_bytes());
    out
}

fn ascii_payload(n: usize, seed: u64) -> Vec<u8> {
    let mut s: u64 = seed | 1;
    let mut p = Vec::with_capacity(n);
    while p.len() < n {
        s = s.wrapping_mul(6364136223846793005).wrapping_add(1442695040888963407);
        p.push(((s >> 56) as u8 % 95) + 32);
    }
    p
}

fn decode(gz: &[u8], num_threads: usize, chunk_size_bytes: usize) -> Vec<u8> {
    decode_file(gz, num_threads, chunk_size_bytes).expect("decode_file").chunks.concat()
}

/// Decodes `gz` as it comes in, in pieces of `piece` bytes.
fn decode_stream(gz: &[u8], piece: usize) -> Result<Vec<u8>, Error> {
    let mut d = StreamDecoder::new();
    let mut out = Vec::new();
    let mut at = 0;
    loop {
        match d.next()? {
            StreamStep::NeedInput => {
                let to = (at + piece).min(gz.len());
                d.feed(&gz[at..to]);
                at = to;
            }
            StreamStep::Chunk(c) => out.extend_from_slice(&c),
            StreamStep::Done => return Ok(out),
        }
    }
}

fn concat_members(payloads: &[(&[u8], u8)]) -> Vec<u8> {
    let mut gz = Vec::new();
    for (p, level) in payloads {
        gz.extend_from_slice(&gz_encode(p, *level));
    }
    gz
}

const CHUNK: usize = 4 * 1024 * 1024;

#[test]
fn concat_hello_world_all_paths() {
    let gz = concat_members(&[(b"Hello", 6), (b"World", 6)]);
    let mut out = Vec::new();
    decode_all(&gz, &mut out).unwrap();
    assert_eq!(out, b"HelloWorld");
    for threads in [1usize, 2, 4] {
        assert_eq!(decode(&gz, threads, CHUNK), b"HelloWorld", "threads={threads}");
    }
    assert_eq!(decode_stream(&gz, 7).unwrap(), b"HelloWorld");
}

#[test]
fn concat_empty_members_interspersed() {
    let gz = concat_members(&[(b"", 6), (b"alpha", 6), (b"", 9), (b"", 1), (b"beta", 6), (b"", 6)]);
    let mut out = Vec::new();
    decode_all(&gz, &mut out).unwrap();
    assert_eq!(out, b"alphabeta");
    for threads in [1usize, 4] {
        assert_eq!(decode(&gz, threads, CHUNK), b"alphabeta", "threads={threads}");
    }
    assert_eq!(decode_stream(&gz, 1).unwrap(), b"alphabeta");
}

#[test]
fn concat_mixed_levels_and_sizes() {
    let payloads: Vec<(Vec<u8>, u8)> = vec![
        (ascii_payload(1, 1), 6),
        (ascii_payload(100, 2), 1),
        (ascii_payload(65_537, 3), 9),
        (ascii_payload(1, 4), 6),
        (ascii_payload(300_000, 5), 6),
        (ascii_payload(7, 6), 1),
        (ascii_payload(1_000_000, 7), 9),
    ];
    let refs: Vec<(&[u8], u8)> = payloads.iter().map(|(p, l)| (p.as_slice(), *l)).collect();
    let gz = concat_members(&refs);
    let mut expected = Vec::new();
    for (p, _) in &payloads {
        expected.extend_from_slice(p);
    }
    let mut out = Vec::new();
    decode_all(&gz, &mut out).unwrap();
    assert_eq!(out, expected, "decode_all");
    for threads in [1usize, 2, 4] {
        assert_eq!(decode(&gz, threads, 64 * 1024), expected, "threads={threads}");
    }
    assert_eq!(decode_stream(&gz, 30_000).unwrap(), expected, "stream");
}

#[test]
fn concat_many_small_members() {
    let payloads: Vec<Vec<u8>> = (0..500u32).map(|i| format!("member-{i}-payload\n").into_bytes()).collect();
    let refs: Vec<(&[u8], u8)> = payloads.iter().map(|p| (p.as_slice(), 6u8)).collect();
    let gz = concat_members(&refs);
    let mut expected = Vec::new();
    for p in &payloads {
        expected.extend_from_slice(p);
    }
    let mut out = Vec::new();
    decode_all(&gz, &mut out).unwrap();
    assert_eq!(out, expected, "decode_all");
    for threads in [1usize, 4] {
        assert_eq!(decode(&gz, threads, CHUNK), expected, "threads={threads}");
    }
}

/// Members are cut inside records and inside their lines.
#[test]
fn concat_fastq_records_straddle_members() {
    let mut payload = Vec::new();
    let mut exp_n = String::new();
    let mut exp_s = String::new();
    let mut exp_q = String::new();
    for i in 0..2000u32 {
        let len = 1 + (i as usize % 40);
        let seq: String = "A".repeat(len);
        let qual: String = "I".repeat(len);
        payload.extend_from_slice(format!("@read.{i} d\n{seq}\n+\n{qual}\n").as_bytes());
        exp_n.push_str(&format!("read.{i} d\n"));
        exp_s.push_str(&format!("{seq}\n"));
        exp_q.push_str(&format!("{qual}\n"));
    }
    let cuts = [0usize, 1, 5000, 5001, 20_000, payload.len()];
    let mut gz = Vec::new();
    for w in cuts.windows(2) {
        let (a, b) = (w[0].min(payload.len()), w[1].min(payload.len()));
        if a >= b {
            continue;
        }
        gz.extend_from_slice(&gz_encode(&payload[a..b], 6));
    }
    for threads in [1usize, 4] {
        for chunk_size in [64 * 1024usize, 1 << 20] {
            let mut s = FastqSplitter::new();
            for c in decode_file(&gz, threads, chunk_size).expect("decode_file").chunks {
                s.feed(&c).unwrap();
            }
            let c = s.finish().unwrap();
            assert_eq!(c.names, exp_n.as_bytes(), "names t={threads} cs={chunk_size}");
            assert_eq!(c.seqs, exp_s.as_bytes(), "seqs t={threads} cs={chunk_size}");
            assert_eq!(c.quals, exp_q.as_bytes(), "quals t={threads} cs={chunk_size}");
        }
    }
}
