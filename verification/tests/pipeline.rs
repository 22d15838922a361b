use rusty_rapidgzip::chain::{decode_member_chunked, ChunkChain, WorkOutcome};
use rusty_rapidgzip::corpus::sha256_of;
use rusty_rapidgzip::deflate::speculative::Marker;
use rusty_rapidgzip::deflate::SpeculativeChunk;
use rusty_rapidgzip::file::{decode_body, decode_file, plan_boundaries};
use rusty_rapidgzip::members::MemberTally;
use rusty_rapidgzip::pipeline::{build_prev_tail_fast, decode_one_chunk, MemberBoundary, WorkItem, WorkerKernel};
use rusty_rapidgzip::schedule::{
    boundary_targets, chunk_bits, effective_threads, inflight_factor, make_inflight_cap, merge_boundaries, work_items, Acquired,
    InflightSetting, InflightState, Reorder,
};
use rusty_rapidgzip::serial::{SerialDecoder, SerialStep};
use rusty_rapidgzip::pieces::{decode_reads, PieceDecoder};
use rusty_rapidgzip::stream::{Polled, StreamDecoder, StreamStep};
use rusty_rapidgzip::streaming::{DispatchStep, Dispatcher};
use rusty_rapidgzip::{DeflateError, Error, GzipError};

fn gz_encode(payload: &[u8], level: u8) -> Vec<u8> {
    let mut out = vec![0x1f, 0x8b, 8, 0, 0, 0, 0, 0, 0, 0xff];
    out.extend_from_slice(&miniz_oxide::deflate::compress_to_vec(payload, level));
    out.extend_from_slice(&crc32fast::hash(payload).to_le_bytes());
    out.extend_from_slice(&(payload.len() as u32).to_le_bytes());
    out
}

fn ascii_payload(n: usize) -> Vec<u8> {
    let mut s: u64 = 0x9E37_79B9_7F4A_7C15;
    let mut p = Vec::with_capacity(n);
    while p.len() < n {
        s = s.wrapping_mul(6364136223846793005).wrapping_add(1442695040888963407);
        p.push(((s >> 56) as u8 % 95) + 32);
    }
    p
}

fn decode(gz: &[u8], num_threads: usize, chunk_size_bytes: usize) -> Vec<u8> {
    decode_file(gz, num_threads, chunk_size_bytes).expect("decode_file").chunks.concat()
}

/// Decodes `gz` as it comes in, in pieces of `piece` bytes.
fn decode_stream(gz: &[u8], piece: usize) -> Result<Vec<u8>, Error> {
    let mut d = StreamDecoder::new();
    let mut out = Vec::new();
    let mut at = 0;
    loop {
        match d.next()? {
            StreamStep::NeedInput => {
                let to = (at + piece).min(gz.len());
                d.feed(&gz[at..to]);
                at = to;
            }
            StreamStep::Chunk(c) => out.extend_from_slice(&c),
            StreamStep::Done => return Ok(out),
        }
    }
}

/// Decodes `gz` in chunks of `chunk_bytes` as it comes in, in pieces of `piece` bytes.
fn decode_pipe(gz: &[u8], piece: usize, chunk_bytes: usize) -> Result<Vec<u8>, Error> {
    let mut d = Dispatcher::new(chunk_bytes);
    let mut at = 0;
    let mut feed = |d: &mut Dispatcher| {
        let to = (at + piece).min(gz.len());
        d.feed(&gz[at..to]);
        at = to;
    };
    while let Polled::NeedInput = d.start_body()? {
        feed(&mut d);
    }
    let mut pieces: Option<PieceDecoder> = None;
    let mut out = Vec::new();
    loop {
        match d.next() {
            DispatchStep::NeedInput => feed(&mut d),
            DispatchStep::Work(item) => {
                let pieces = pieces.get_or_insert_with(|| PieceDecoder::new(item.base_byte));
                if let Some((bytes, _)) = pieces.step(item)? {
                    out.extend_from_slice(&bytes);
                }
            }
            DispatchStep::Done => return Ok(out),
        }
    }
}

fn sha(data: &[u8]) -> String {
    sha256_of(data)
}

/// Members that end with their own number.
fn members(n: u32, size: usize, level: u8, tag: &str) -> (Vec<u8>, Vec<u8>) {
    let mut gz = Vec::new();
    let mut expected = Vec::new();
    for i in 0..n {
        let mut p = ascii_payload(size);
        let suffix = format!("=={tag}{i}==");
        let cut = p.len() - suffix.len();
        p[cut..].copy_from_slice(suffix.as_bytes());
        expected.extend_from_slice(&p);
        gz.extend_from_slice(&gz_encode(&p, level));
    }
    (gz, expected)
}

#[test]
fn multistream_member_crosses_chunk_boundary() {
    let (gz, expected) = members(30, 1_048_576, 6, "MEMBER-");
    for threads in [1usize, 4] {
        let out = decode(&gz, threads, 4 * 1024 * 1024);
        assert_eq!(sha(&out), sha(&expected), "threads={threads}");
    }
}

#[test]
fn multistream_level9() {
    let (gz, expected) = members(30, 1_048_576, 9, "MEMBER-");
    for threads in [1usize, 4] {
        for chunk_sz in [256usize * 1024, 1 << 20, 4 << 20] {
            let out = decode(&gz, threads, chunk_sz);
            assert!(out == expected, "t={threads} cs={chunk_sz}");
        }
    }
}

#[test]
fn fast_inflate_kernel_correctness() {
    let mut rle = Vec::new();
    for _ in 0..1000 {
        rle.extend_from_slice(b"ACGTACGTACGTACGT");
    }
    let ascii = ascii_payload(4 * 1024 * 1024);
    for (name, payload, level) in [("rle", rle.as_slice(), 6u8), ("ascii", ascii.as_slice(), 6), ("ascii9", ascii.as_slice(), 9)]
    {
        let gz = gz_encode(payload, level);
        for threads in [1usize, 4] {
            for chunk_sz in [64 * 1024usize, 1 << 20] {
                let out = decode(&gz, threads, chunk_sz);
                assert_eq!(sha(&out), sha(payload), "{name} t={threads} cs={chunk_sz}");
            }
        }
    }
}

#[test]
fn fast_inflate_kernel_multistream() {
    let (gz, expected) = members(10, 512 * 1024, 6, "M");
    for threads in [1usize, 4] {
        let out = decode(&gz, threads, 4 * 1024 * 1024);
        assert_eq!(sha(&out), sha(&expected), "fast_inflate multistream threads={threads}");
    }
}

/// Many chunk boundaries in one large payload.
#[test]
fn parallel_large_payload() {
    let payload = ascii_payload(8 * 1024 * 1024);
    let gz = gz_encode(&payload, 6);
    for threads in [1usize, 4] {
        let out = decode(&gz, threads, 1 << 20);
        assert_eq!(sha(&out), sha(&payload), "threads={threads}");
    }
}

/// In chunks and in order, the output is the same.
#[test]
fn parallel_matches_serial_large() {
    let payload = ascii_payload(8 * 1024 * 1024);
    let gz = gz_encode(&payload, 6);
    for threads in [1usize, 2, 4] {
        let out = decode(&gz, threads, 1 << 20);
        assert_eq!(sha(&out), sha(&payload), "threads={threads}");
    }
}

#[test]
fn multistream_three_members() {
    let a = ascii_payload(100_000);
    let b = ascii_payload(200_017);
    let c = ascii_payload(50_003);
    let mut gz = gz_encode(&a, 6);
    gz.extend_from_slice(&gz_encode(&b, 6));
    gz.extend_from_slice(&gz_encode(&c, 6));
    let mut expected = Vec::new();
    expected.extend_from_slice(&a);
    expected.extend_from_slice(&b);
    expected.extend_from_slice(&c);
    let out = decode(&gz, 4, 64 * 1024);
    assert_eq!(sha(&out), sha(&expected));
}

#[test]
fn multistream_large_then_small() {
    let big = ascii_payload(4 * 1024 * 1024);
    let small = ascii_payload(1000);
    let mut gz = gz_encode(&big, 6);
    gz.extend_from_slice(&gz_encode(&small, 6));
    let mut expected = big.clone();
    expected.extend_from_slice(&small);
    let out = decode(&gz, 4, 1 << 20);
    assert_eq!(sha(&out), sha(&expected));
}

/// A file smaller than a chunk is one chunk.
#[test]
fn tiny_file() {
    let payload = b"hello, world\n";
    let gz = gz_encode(payload, 6);
    let out = decode_file(&gz, 4, 1 << 20).unwrap();
    assert_eq!(out.chunks.concat(), payload);
    assert_eq!(out.stats.chunks_decoded, 1);
    assert_eq!(out.stats.compressed_bytes, gz.len() as u64);
    assert_eq!(out.stats.uncompressed_bytes, 13);
    assert_eq!(out.stats.speculation_failures, 0);
}

#[test]
fn matrix_sizes_chunks_threads() {
    for &size in &[1024usize, 65_536, 250_000, 1_000_000, 5_000_000] {
        let payload = ascii_payload(size);
        let gz = gz_encode(&payload, 6);
        for &cs in &[64 * 1024usize, 1 << 20, 4 << 20] {
            for &nt in &[1usize, 4] {
                let out = decode(&gz, nt, cs);
                assert!(out == payload, "size={size} chunk={cs} threads={nt}");
            }
        }
    }
}

/// Stored and dynamic blocks in one chunk.
#[test]
fn mixed_block_types() {
    let mut payload = ascii_payload(500_000);
    let mut s: u64 = 0xABCDEF0123456789;
    for _ in 0..(500_000 / 8) {
        s = s.wrapping_mul(6364136223846793005).wrapping_add(1442695040888963407);
        payload.extend_from_slice(&s.to_le_bytes());
    }
    payload.extend_from_slice(&ascii_payload(500_000));
    let gz = gz_encode(&payload, 1);
    let out = decode(&gz, 4, 256 * 1024);
    assert_eq!(sha(&out), sha(&payload));
}

/// Places are given up to the ceiling, one more after a release, none after a
/// shutdown.
#[test]
fn inflight_cap_blocks_releases_shuts_down() {
    let mut cap = InflightState::new(2);
    assert_eq!(cap.try_acquire(), Acquired::Yes);
    assert_eq!(cap.try_acquire(), Acquired::Yes);
    assert_eq!(cap.try_acquire(), Acquired::Full);
    cap.release();
    assert_eq!(cap.try_acquire(), Acquired::Yes);
    assert_eq!(cap.try_acquire(), Acquired::Full);
    cap.shutdown();
    assert_eq!(cap.try_acquire(), Acquired::ShutDown);
    let mut one = InflightState::new(0);
    one.release();
    assert_eq!(one.try_acquire(), Acquired::Yes);
    assert_eq!(one.try_acquire(), Acquired::Full);
}

#[test]
fn all_gzip_levels() {
    let payload = ascii_payload(2 * 1024 * 1024);
    for level in 1..=9u8 {
        let gz = gz_encode(&payload, level);
        let out = decode(&gz, 4, 512 * 1024);
        assert!(out == payload, "level={level}");
    }
}

/// Nothing at all is no gzip file.
#[test]
fn zero_byte_file_returns_error() {
    assert_eq!(decode_stream(b"", 1).err(), Some(Error::Gzip(GzipError::Truncated)));
    assert_eq!(decode_file(b"", 4, 1 << 20).err(), Some(Error::Gzip(GzipError::Truncated)));
}

/// A file that comes in piece by piece.
#[test]
fn named_pipe_decodes_correctly() {
    let payload = ascii_payload(256 * 1024);
    let gz = gz_encode(&payload, 1);
    for piece in [1000usize, 65_536, gz.len()] {
        let out = decode_stream(&gz, piece).unwrap();
        assert_eq!(sha(&out), sha(&payload), "output of pieces does not match");
        let out = decode_pipe(&gz, piece, 4 << 20).unwrap();
        assert_eq!(sha(&out), sha(&payload), "output of chunks does not match");
    }
}

/// A wrong checksum is told by the file, whatever way it comes in.
#[test]
fn errors_through_a_pipe() {
    let payload = ascii_payload(300_000);
    let gz = gz_encode(&payload, 6);
    let n = gz.len();
    let mut bad = gz.clone();
    bad[n - 8] ^= 1;
    for error in [decode_pipe(&bad, 50_000, 65_536).err(), decode_file(&bad, 4, 65_536).err()] {
        match error {
            Some(Error::Gzip(GzipError::CrcMismatch { member, uncompressed, trailer_byte, .. })) => {
                assert_eq!((member, uncompressed, trailer_byte), (0, 300_000, n as u64 - 8));
            }
            other => panic!("unexpected {other:?}"),
        }
    }
    assert_eq!(decode_pipe(&gz[..n - 1], 50_000, 65_536).err(), Some(Error::Gzip(GzipError::Truncated)));
    assert!(decode_pipe(&gz[..n / 2], 50_000, 65_536).is_err());
    assert_eq!(decode_pipe(b"no gzip at all", 3, 65_536).err(), Some(Error::Gzip(GzipError::BadMagic)));
}

#[test]
fn thread_and_cap_settings() {
    assert_eq!(effective_threads(3, Some(8)), 3);
    assert_eq!(effective_threads(0, Some(8)), 8);
    assert_eq!(effective_threads(0, None), 1);
    assert_eq!(effective_threads(0, Some(0)), 1);
    assert_eq!(inflight_factor(InflightSetting::Unset), Some(2));
    assert_eq!(inflight_factor(InflightSetting::NotANumber), Some(2));
    assert_eq!(inflight_factor(InflightSetting::Number(0)), None);
    assert_eq!(inflight_factor(InflightSetting::Number(5)), Some(5));
    assert!(make_inflight_cap(4, None).is_none());
    let mut cap = make_inflight_cap(4, Some(2)).unwrap();
    for _ in 0..16 {
        assert_eq!(cap.try_acquire(), Acquired::Yes);
    }
    assert_eq!(cap.try_acquire(), Acquired::Full);
}

#[test]
fn planning() {
    assert_eq!(chunk_bits(1), 65536 * 8);
    assert_eq!(chunk_bits(100_000), 800_000);
    assert_eq!(boundary_targets(100, 30), vec![30, 60, 90]);
    assert_eq!(boundary_targets(90, 30), vec![30, 60]);
    assert_eq!(boundary_targets(30, 30), Vec::<u64>::new());
    assert_eq!(boundary_targets(0, 30), Vec::<u64>::new());
    assert_eq!(
        merge_boundaries(&[Some(10), None, Some(10), Some(5), Some(20)]),
        vec![0, 10, 20]
    );
    assert_eq!(merge_boundaries(&[]), vec![0]);
    let items = work_items(&[0, 10, 20]);
    assert_eq!(
        items,
        vec![
            WorkItem { id: 0, start_bit: 0, end_bit_hint: 10 },
            WorkItem { id: 1, start_bit: 10, end_bit_hint: 20 },
            WorkItem { id: 2, start_bit: 20, end_bit_hint: u64::MAX },
        ]
    );
    let payload = ascii_payload(1_000_000);
    let gz = gz_encode(&payload, 6);
    let b = plan_boundaries(&gz[10..], 64 * 1024);
    assert_eq!(b[0], 0);
    assert!(b.len() > 5);
    assert!(b.windows(2).all(|w| w[0] < w[1]));
}

#[test]
fn results_are_handed_on_in_order() {
    let mut r: Reorder<char> = Reorder::new();
    assert_eq!(r.pop_next(), None);
    r.insert(1, 'b');
    r.insert(2, 'c');
    assert_eq!(r.pop_next(), None);
    r.insert(0, 'a');
    assert_eq!(r.pop_next(), Some('a'));
    assert_eq!(r.pop_next(), Some('b'));
    assert_eq!(r.pop_next(), Some('c'));
    assert_eq!(r.pop_next(), None);
    assert_eq!(r.next(), 3);
}

/// Wherever a body is cut, its chunks give the same bytes.
#[test]
fn false_boundaries_do_not_matter() {
    let payload: Vec<u8> = (0..40_000u32).flat_map(|i| format!("row {} of it\n", i % 977).into_bytes()).collect();
    let mut gz = gz_encode(&payload, 9);
    gz.extend_from_slice(&gz_encode(b"and more", 6));
    let mut expected = payload.clone();
    expected.extend_from_slice(b"and more");
    let body = &gz[10..];
    let total = body.len() as u64 * 8;
    for cuts in [
        vec![0u64],
        vec![0, 1, 2, 3],
        vec![0, total / 3, total / 2, total - 1],
        vec![5, 17, total + 100],
        vec![0, total],
    ] {
        let out = decode_member_chunked(body, 10, &cuts).unwrap();
        assert!(out.chunks.concat() == expected, "cuts={cuts:?}");
        assert_eq!(out.consumed, body.len());
    }
    let one = decode_member_chunked(body, 10, &[0]).unwrap();
    assert_eq!(one.spec_failures, 0);
    let bad = decode_member_chunked(body, 10, &[0, 1, 2, 3]).unwrap();
    assert!(bad.spec_failures > 0);
}

#[test]
fn chain_decodes_again_from_the_right_place() {
    let payload = ascii_payload(300_000);
    let gz = gz_encode(&payload, 6);
    let body = &gz[10..];
    let mut wk = WorkerKernel::new();
    let mut chain = ChunkChain::new();
    let false_item = WorkItem { id: 0, start_bit: 3, end_bit_hint: u64::MAX };
    let outcome = WorkOutcome {
        id: 0,
        start_bit: 3,
        end_bit_hint: u64::MAX,
        result: decode_one_chunk(body, &false_item, &mut wk, Some(vec![7; 10])),
    };
    let job = match chain.accept(body, outcome, &mut wk) {
        Ok(j) => j,
        Err(e) => panic!("{e:?}"),
    };
    assert_eq!(chain.spec_failures, 1);
    assert!(job.chunk.bytes == payload);
    assert!(job.final_block);
    assert_eq!(job.member_boundaries.len(), 1);
    assert_eq!(job.member_boundaries[0].byte_offset_in_chunk, payload.len());
    assert_eq!(job.member_boundaries[0].crc_expected, crc32fast::hash(&payload));
    assert_eq!(chain.expected_start, body.len() as u64 * 8);
    assert_eq!(chain.prev_tail, payload[payload.len() - 32768..]);
}

#[test]
fn tail_of_a_short_chunk_carries_the_window() {
    let chunk = SpeculativeChunk {
        bytes: vec![1, 0, 3],
        markers: vec![Marker { out_pos: 1, prefix_offset: 2 }],
    };
    assert_eq!(build_prev_tail_fast(&chunk, &[7, 8, 9]), vec![7, 8, 9, 1, 7, 3]);
    // A marker outside the window is left as it is.
    assert_eq!(build_prev_tail_fast(&chunk, &[8, 9]), vec![8, 9, 1, 0, 3]);
    assert_eq!(build_prev_tail_fast(&chunk, &[]), vec![1, 0, 3]);
    let long = SpeculativeChunk {
        bytes: vec![5; 40_000],
        markers: vec![Marker { out_pos: 0, prefix_offset: 0 }, Marker { out_pos: 39_999, prefix_offset: 0 }],
    };
    let tail = build_prev_tail_fast(&long, &[4]);
    assert_eq!(tail.len(), 32768);
    assert_eq!(tail[32767], 4);
    assert_eq!(tail[0], 5);
    // What is kept of the old window makes up 32 KiB with the chunk.
    let tail = build_prev_tail_fast(&chunk, &vec![6; 32768]);
    assert_eq!(tail.len(), 32768);
}

#[test]
fn members_are_checked() {
    let crc = crc32fast::hash(b"abcdef");
    let good = MemberBoundary { byte_offset_in_chunk: 3, crc_expected: crc, isize_expected: 6, trailer_input_byte: 99 };
    let mut t = MemberTally::new();
    t.check_chunk(b"abc", &[]).unwrap();
    t.check_chunk(b"defxy", &[good]).unwrap();
    assert_eq!(t.index, 1);
    assert_eq!(t.uncompressed, 2);
    assert_eq!(t.crc, crc32fast::hash(b"xy"));
    let mut t = MemberTally::new();
    t.update(b"abc");
    assert_eq!(
        t.check_chunk(b"dex", &[good]),
        Err(GzipError::CrcMismatch {
            expected: crc,
            got: crc32fast::hash(b"abcdex"),
            member: 0,
            uncompressed: 6,
            trailer_byte: 99
        })
    );
    let mut t = MemberTally::new();
    t.update(b"abc");
    let wrong_size = MemberBoundary { isize_expected: 7, ..good };
    assert_eq!(
        t.check_chunk(b"def", &[wrong_size]),
        Err(GzipError::IsizeMismatch { expected: 7, got: 6, member: 0, trailer_byte: 99 })
    );
}

#[test]
fn serial_pieces_are_bounded() {
    let payload = ascii_payload(700_000);
    let mut gz = gz_encode(&payload, 6);
    gz.extend_from_slice(&gz_encode(b"", 6));
    gz.extend_from_slice(&gz_encode(b"tail", 6));
    let body = &gz[10..];
    let mut d = SerialDecoder::new(body, 10, 100_000);
    let mut out = Vec::new();
    let mut pieces = 0;
    loop {
        match d.next().unwrap_or_else(|e| panic!("{e:?}")) {
            SerialStep::Chunk(c) => {
                pieces += 1;
                out.extend_from_slice(&c);
            }
            SerialStep::Done(n) => {
                assert_eq!(n, body.len());
                break;
            }
        }
    }
    assert!(pieces >= 4, "pieces={pieces}");
    let mut expected = payload.clone();
    expected.extend_from_slice(b"tail");
    assert!(out == expected);
}

#[test]
fn errors_of_a_body() {
    let payload = ascii_payload(200_000);
    let gz = gz_encode(&payload, 6);
    let n = gz.len();
    // A wrong checksum, at every number of workers.
    let mut bad = gz.clone();
    bad[n - 8] ^= 1;
    for threads in [1usize, 4] {
        match decode_body(&bad[10..], 10, threads, 64 * 1024).err() {
            Some(Error::Gzip(GzipError::CrcMismatch { member, uncompressed, trailer_byte, .. })) => {
                assert_eq!(member, 0);
                assert_eq!(uncompressed, 200_000);
                assert_eq!(trailer_byte, n as u64 - 8);
            }
            other => panic!("unexpected {other:?}"),
        }
    }
    // A wrong size.
    let mut bad = gz.clone();
    bad[n - 1] ^= 1;
    for threads in [1usize, 4] {
        assert!(matches!(
            decode_body(&bad[10..], 10, threads, 64 * 1024).err(),
            Some(Error::Gzip(GzipError::IsizeMismatch { .. }))
        ));
    }
    // A missing trailer, and a missing end.
    for threads in [1usize, 4] {
        assert_eq!(
            decode_body(&gz[10..n - 1], 10, threads, 64 * 1024).err(),
            Some(Error::Gzip(GzipError::Truncated))
        );
        assert_eq!(
            decode_body(&gz[10..n / 2], 10, threads, 64 * 1024).err(),
            Some(Error::Deflate(DeflateError::UnexpectedEof))
        );
    }
    // Garbage after the first member.
    let mut bad = gz.clone();
    bad.extend_from_slice(&[0; 20]);
    for threads in [1usize, 4] {
        assert_eq!(decode_body(&bad[10..], 10, threads, 64 * 1024).err(), Some(Error::Gzip(GzipError::BadMagic)));
    }
    // A match that reaches before the first byte: a fixed block of one match.
    let mut bytes = vec![0b0000_0011u8, 0b0000_0010];
    bytes.extend_from_slice(&[0; 16]);
    assert_eq!(
        decode_body(&bytes, 0, 1, 64 * 1024).err(),
        Some(Error::Deflate(DeflateError::Invalid("back-reference distance out of bounds")))
    );
    assert!(decode_body(&bytes, 0, 2, 64 * 1024).is_err());
}

/// `gz` in reads of `size` bytes, with an empty one here and there.
fn reads_of(gz: &[u8], size: usize) -> Vec<Vec<u8>> {
    let mut reads = vec![Vec::new()];
    for (i, part) in gz.chunks(size).enumerate() {
        reads.push(part.to_vec());
        if i % 3 == 0 {
            reads.push(Vec::new());
        }
    }
    reads
}

#[test]
fn reads_decode_whatever_their_sizes() {
    let (gz, expected) = members(3, 400_000, 6, "READ-");
    for size in [1013usize, 65_536, 300_000, 10_000_000] {
        for chunk_bytes in [0usize, 100_000, 4 << 20] {
            let chunks = decode_reads(&reads_of(&gz, size), chunk_bytes).unwrap_or_else(|e| panic!("{e:?}"));
            assert!(chunks.concat() == expected, "size={size} chunk_bytes={chunk_bytes}");
            if chunk_bytes == 0 {
                assert!(chunks.len() > 1);
            }
        }
    }
    // One byte at a time.
    let gz = gz_encode(b"hello, world\n", 6);
    assert_eq!(decode_reads(&reads_of(&gz, 1), 0), Ok(vec![b"hello, world\n".to_vec()]));
}

#[test]
fn errors_of_reads() {
    assert_eq!(decode_reads(&[], 0), Err(Error::Gzip(GzipError::Truncated)));
    assert_eq!(decode_reads(&reads_of(b"\x1f\x8b\x08", 1), 0), Err(Error::Gzip(GzipError::Truncated)));
    assert_eq!(decode_reads(&reads_of(b"not a gzip file", 4), 0), Err(Error::Gzip(GzipError::BadMagic)));
    let payload = ascii_payload(300_000);
    let gz = gz_encode(&payload, 6);
    let mut bad = gz.clone();
    let n = bad.len();
    bad[n - 8] ^= 1;
    match decode_reads(&reads_of(&bad, 7777), 65_536) {
        Err(Error::Gzip(GzipError::CrcMismatch { member: 0, uncompressed: 300_000, trailer_byte, .. })) => {
            assert_eq!(trailer_byte, n as u64 - 8);
        }
        other => panic!("unexpected {other:?}"),
    }
    assert_eq!(
        decode_reads(&reads_of(&gz[..n / 2], 7777), 65_536),
        Err(Error::Deflate(DeflateError::UnexpectedEof))
    );
    assert_eq!(decode_reads(&reads_of(&gz[..n - 3], 7777), 65_536), Err(Error::Gzip(GzipError::Truncated)));
}

#[test]
fn recycled_buffers_leave_no_trace() {
    let payload = ascii_payload(700_000);
    let gz = gz_encode(&payload, 6);
    let body = &gz[10..];
    let mut d = SerialDecoder::new(body, 10, 100_000);
    let mut out = Vec::new();
    loop {
        d.recycle(vec![0xee; 50_000]);
        match d.next().unwrap_or_else(|e| panic!("{e:?}")) {
            SerialStep::Chunk(c) => out.extend_from_slice(&c),
            SerialStep::Done(n) => {
                assert_eq!(n, body.len());
                break;
            }
        }
    }
    assert!(out == payload);
}
