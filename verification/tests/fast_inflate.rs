use rusty_rapidgzip::deflate::fast_inflate::{
    decode_four_distinct, decode_four_interleaved, decode_member, decode_member_stepwise, decode_member_u8,
    decode_member_u8_preload, decode_one_block, decode_one_block_preload, decode_three_interleaved,
    decode_two_interleaved, decode_until, decode_until_u16, inflate_fast,
};
use rusty_rapidgzip::deflate::inflate::{inflate, inflate_block};
use rusty_rapidgzip::deflate::safe_inflate::inflate_into;
use rusty_rapidgzip::deflate::speculative::Marker;
use rusty_rapidgzip::deflate::{find_next_dynamic_block, resolve_markers, BitReader, DeflateError, SpeculativeChunk};

fn deflate(payload: &[u8], level: u8) -> Vec<u8> {
    miniz_oxide::deflate::compress_to_vec(payload, level)
}

fn check_inflate_fast(payload: &[u8], level: u8) {
    let mut padded = deflate(payload, level);
    padded.extend_from_slice(&[0u8; 16]);
    let mut br = BitReader::new(&padded);
    let mut out = Vec::new();
    inflate_fast(&mut br, &mut out).expect("inflate_fast failed");
    assert_eq!(out, payload, "inflate_fast mismatch (len={} level={})", payload.len(), level);
}

fn ascii_payload(n: usize) -> Vec<u8> {
    let mut s: u64 = 0x9E37_79B9_7F4A_7C15;
    let mut p = Vec::with_capacity(n);
    while p.len() < n {
        s = s.wrapping_mul(6364136223846793005).wrapping_add(1442695040888963407);
        p.push(((s >> 56) as u8 % 95) + 32);
    }
    p
}

fn noise(n: usize) -> Vec<u8> {
    let mut s: u64 = 0xA1B2C3D4E5F60718;
    let mut p = Vec::with_capacity(n);
    while p.len() < n {
        s = s.wrapping_mul(6364136223846793005).wrapping_add(1442695040888963407);
        p.extend_from_slice(&s.to_le_bytes());
    }
    p
}

/// Text with many repeats, near and far.
fn lines(n: u32) -> Vec<u8> {
    let mut p = Vec::new();
    for i in 0..n {
        p.extend_from_slice(format!("line {i}: hello world\n").as_bytes());
    }
    p
}

fn block_starts(padded: &[u8]) -> Vec<u64> {
    let mut starts = Vec::new();
    let mut br = BitReader::new(padded);
    let mut dummy = Vec::new();
    loop {
        starts.push(br.tell_bit());
        if inflate_block(&mut br, &mut dummy).unwrap() {
            return starts;
        }
    }
}

fn check_preload_matches(payload: &[u8], level: u8) {
    let mut padded = deflate(payload, level);
    padded.extend_from_slice(&[0u8; 64]);
    let mut a = Vec::new();
    decode_member_u8(&padded, 0, u64::MAX, &mut a).unwrap();
    let mut b = Vec::new();
    decode_member_u8_preload(&padded, 0, u64::MAX, &mut b).unwrap();
    assert_eq!(a, payload, "u8 kernel mismatch (len={} level={level})", payload.len());
    assert_eq!(b, payload, "preload kernel mismatch (len={} level={level})", payload.len());
}

#[test]
fn preload_matches_u8() {
    check_preload_matches(b"", 6);
    check_preload_matches(b"hello, world\n", 6);
    check_preload_matches(b"aaaaaaaaaa", 9);
    check_preload_matches(&vec![b'x'; 10000], 6);
    check_preload_matches(&ascii_payload(1024), 6);
    check_preload_matches(&ascii_payload(256 * 1024), 6);
    let mut p = Vec::new();
    for _ in 0..1000 {
        p.extend_from_slice(b"abcdefghij");
    }
    check_preload_matches(&p, 6);
    check_preload_matches(&lines(50000), 9);
    // Stored-block coverage.
    check_preload_matches(&noise(8192), 1);
}

#[test]
fn inflate_fast_empty() {
    check_inflate_fast(b"", 6);
}

#[test]
fn inflate_fast_tiny() {
    check_inflate_fast(b"hello, world\n", 6);
}

#[test]
fn inflate_fast_repeating() {
    let mut p = Vec::new();
    for _ in 0..1000 {
        p.extend_from_slice(b"abcdefghij");
    }
    check_inflate_fast(&p, 6);
}

#[test]
fn inflate_fast_rle() {
    check_inflate_fast(&vec![b'x'; 10000], 6);
}

#[test]
fn inflate_fast_ascii_1k() {
    check_inflate_fast(&ascii_payload(1024), 6);
}

#[test]
fn inflate_fast_fixed_huffman() {
    check_inflate_fast(b"aaaaaaaaaa", 9);
}

#[test]
fn inflate_fast_stored() {
    check_inflate_fast(&noise(8192), 1);
}

#[test]
fn inflate_fast_level9_dynamic() {
    check_inflate_fast(&lines(50000), 9);
}

/// Without a prior window a whole member decodes without markers.
#[test]
fn decode_member_whole_no_markers() {
    let payload = ascii_payload(64 * 1024);
    let mut padded = deflate(&payload, 6);
    padded.extend_from_slice(&[0u8; 16]);
    let mut chunk = SpeculativeChunk::default();
    let end_bit = decode_member(&padded, 0, &mut chunk).unwrap();
    assert!(chunk.markers.is_empty(), "{} unexpected markers", chunk.markers.len());
    assert_eq!(chunk.bytes, payload, "decode_member output mismatch");
    assert!(end_bit > 0 && end_bit <= (padded.len() as u64) * 8);
}

/// After the last block decoding stops at a byte boundary.
#[test]
fn the_end_of_a_stream_is_a_byte_boundary() {
    let mut input = vec![0x4Bu8, 0x4C, 0x84, 0x01, 0x00];
    input.extend_from_slice(&[0; 16]);
    let mut chunk = SpeculativeChunk::new();
    assert_eq!(decode_member(&input, 0, &mut chunk), Ok(40));
    assert_eq!(chunk.bytes, b"aaaaaaaaaa");
    assert!(chunk.markers.is_empty());
    assert_eq!(decode_until(&input, 0, u64::MAX, &mut SpeculativeChunk::new()), Ok((40, true)));
    let mut scratch = Vec::new();
    assert_eq!(decode_until_u16(&input, 0, u64::MAX, &mut SpeculativeChunk::new(), &mut scratch), Ok((40, true)));
}

/// decode_until stops at a block boundary before the last block.
#[test]
fn decode_until_stops_at_boundary() {
    let payload = ascii_payload(4 * 1024 * 1024);
    let mut padded = deflate(&payload, 6);
    padded.extend_from_slice(&[0u8; 16]);

    let mut br = BitReader::new(&padded);
    let mut dummy: Vec<u8> = Vec::new();
    let _ = inflate_block(&mut br, &mut dummy).unwrap();
    let boundary_after_block0 = br.tell_bit();

    let mut chunk = SpeculativeChunk::default();
    let (end_bit, hit_bfinal) = decode_until(&padded, 0, boundary_after_block0, &mut chunk).unwrap();
    assert!(!hit_bfinal, "should not have hit bfinal");
    assert!(end_bit >= boundary_after_block0);
}

/// Decode the first part in order, the rest without its window, resolve, and
/// compare what the two give together.
#[test]
fn midstream_speculative_roundtrip() {
    let payload = ascii_payload(4 * 1024 * 1024);
    let mut padded = deflate(&payload, 6);
    padded.extend_from_slice(&[0u8; 16]);
    let starts = block_starts(&padded);
    assert!(starts.len() >= 3, "need at least 3 blocks for this test");
    let split_bit = starts[1];

    let mut chunk0 = SpeculativeChunk::default();
    let mut br = BitReader::new(&padded);
    while br.tell_bit() < split_bit {
        inflate_block(&mut br, &mut chunk0.bytes).unwrap();
    }
    assert!(chunk0.is_resolved());

    let mut chunk1 = SpeculativeChunk::default();
    decode_member(&padded, split_bit, &mut chunk1).unwrap();
    let tail_start = chunk0.bytes.len().saturating_sub(32 * 1024);
    resolve_markers(&mut chunk1, &chunk0.bytes[tail_start..]).unwrap();

    let mut stitched = chunk0.bytes.clone();
    stitched.extend_from_slice(&chunk1.bytes);
    assert_eq!(stitched.len(), payload.len(), "stitched length mismatch");
    assert!(stitched == payload, "stitched output does not match");
}

fn check_u16_matches_sidetable(payload: &[u8], level: u8, block: usize) -> usize {
    let mut padded = deflate(payload, level);
    padded.extend_from_slice(&[0u8; 16]);
    let starts = block_starts(&padded);
    assert!(starts.len() >= 3);
    let split_bit = starts[block];

    let mut a = SpeculativeChunk::default();
    decode_member(&padded, split_bit, &mut a).unwrap();
    let mut b = SpeculativeChunk::default();
    let mut scratch = Vec::new();
    decode_until_u16(&padded, split_bit, u64::MAX, &mut b, &mut scratch).unwrap();

    assert_eq!(a.bytes.len(), b.bytes.len(), "byte length differs");
    assert_eq!(a.markers.len(), b.markers.len(), "marker count differs");
    for (i, (ma, mb)) in a.markers.iter().zip(b.markers.iter()).enumerate() {
        assert_eq!(
            (ma.out_pos, ma.prefix_offset),
            (mb.out_pos, mb.prefix_offset),
            "marker {i} differs: sidetable={ma:?} u16={mb:?}"
        );
    }
    assert!(a.bytes == b.bytes, "decoded bytes differ");
    a.markers.len()
}

/// Both ways to decode without a window give the same bytes and markers.
#[test]
fn u16_matches_sidetable_midstream() {
    check_u16_matches_sidetable(&ascii_payload(4 * 1024 * 1024), 6, 1);
}

/// The same on text whose markers propagate far beyond the first window.
#[test]
fn u16_matches_sidetable_with_propagating_markers() {
    let markers = check_u16_matches_sidetable(&lines(100000), 9, 1);
    assert!(markers > 0, "no match reached the unknown prefix");
}

/// Cut at every boundary that the finder sees, decode each chunk without its
/// window, resolve, put together, compare.
#[test]
fn multichunk_speculative_roundtrip() {
    let payload = ascii_payload(4 * 1024 * 1024);
    let body = deflate(&payload, 6);
    let mut padded = body.clone();
    padded.extend_from_slice(&[0u8; 32]);
    let total_bits = body.len() as u64 * 8;
    let chunk_bits = 64u64 * 1024 * 8;
    let mut boundaries: Vec<u64> = vec![0];
    let mut c = chunk_bits;
    while c < total_bits {
        if let Some(b) = find_next_dynamic_block(&padded, c, total_bits) {
            if b > *boundaries.last().unwrap() {
                boundaries.push(b);
            }
        }
        c += chunk_bits;
    }
    assert!(boundaries.len() > 1, "no boundary found");

    let mut resolved: Vec<u8> = Vec::new();
    let mut prev_tail: Vec<u8> = Vec::new();
    for i in 0..boundaries.len() {
        let start_bit = boundaries[i];
        let end_bit_hint = boundaries.get(i + 1).copied().unwrap_or(u64::MAX);
        let mut chunk = SpeculativeChunk::default();
        let (_, hit_bfinal) = decode_until(&padded, start_bit, end_bit_hint, &mut chunk).unwrap();
        if let Err(e) = resolve_markers(&mut chunk, &prev_tail) {
            panic!("resolve_markers failed on chunk {i}: {e:?}");
        }
        const WINDOW: usize = 32 * 1024;
        prev_tail.extend_from_slice(&chunk.bytes);
        if prev_tail.len() > WINDOW {
            let drop = prev_tail.len() - WINDOW;
            prev_tail.drain(..drop);
        }
        resolved.extend_from_slice(&chunk.bytes);
        if hit_bfinal {
            break;
        }
    }
    assert_eq!(resolved.len(), payload.len(), "length mismatch");
    for (i, (a, b)) in resolved.iter().zip(payload.iter()).enumerate() {
        if a != b {
            panic!("first mismatch at byte {i}: got {a:#04x}, expected {b:#04x}");
        }
    }
}

/// All engines decode the same streams to the same bytes and end alike.
#[test]
fn engines_agree() {
    for (payload, level) in [
        (Vec::new(), 6u8),
        (b"hello, world\n".to_vec(), 6),
        (ascii_payload(70_000), 9),
        (lines(5000), 1),
        (noise(100_000), 6),
    ] {
        let stream = deflate(&payload, level);
        let mut padded = stream.clone();
        padded.extend_from_slice(&[0xA5u8; 16]);
        let mut textbook = Vec::new();
        let mut br = BitReader::new(&padded);
        inflate(&mut br, &mut textbook).unwrap();
        br.byte_align();
        assert_eq!(br.tell_bit(), stream.len() as u64 * 8);
        let mut safe = Vec::new();
        assert_eq!(inflate_into(&padded, &mut safe), Ok(stream.len()));
        let mut fast = Vec::new();
        let mut br = BitReader::new(&padded);
        inflate_fast(&mut br, &mut fast).unwrap();
        br.byte_align();
        assert_eq!(br.tell_bit(), stream.len() as u64 * 8);
        let mut step = vec![1, 2, 3];
        decode_member_stepwise(&padded, &mut step).unwrap();
        assert_eq!(textbook, payload);
        assert_eq!(safe, payload);
        assert_eq!(fast, payload);
        assert_eq!(step, payload);
    }
}

#[test]
fn interleaved_lanes_do_not_disturb_each_other() {
    let payloads = [ascii_payload(5000), lines(300), noise(3000), Vec::new()];
    let streams: Vec<Vec<u8>> = payloads
        .iter()
        .map(|p| {
            let mut s = deflate(p, 6);
            s.extend_from_slice(&[0u8; 8]);
            s
        })
        .collect();
    let (mut a, mut b, mut c) = (Vec::new(), Vec::new(), Vec::new());
    decode_two_interleaved(&streams[0], &mut a, &streams[1], &mut b).unwrap();
    assert_eq!(a, payloads[0]);
    assert_eq!(b, payloads[1]);
    decode_three_interleaved(&streams[2], &mut a, &streams[0], &mut b, &streams[1], &mut c).unwrap();
    assert_eq!(a, payloads[2]);
    assert_eq!(b, payloads[0]);
    assert_eq!(c, payloads[1]);
    let mut outs = [Vec::new(), Vec::new(), Vec::new(), Vec::new()];
    decode_four_distinct([&streams[0], &streams[1], &streams[2], &streams[3]], &mut outs).unwrap();
    for (o, p) in outs.iter().zip(payloads.iter()) {
        assert_eq!(o, p);
    }
    decode_four_interleaved(&streams[1], &mut outs).unwrap();
    for o in &outs {
        assert_eq!(o, &payloads[1]);
    }
}

#[test]
fn an_error_in_one_lane_is_the_error_of_all() {
    let good = {
        let mut s = deflate(b"abc", 6);
        s.extend_from_slice(&[0u8; 8]);
        s
    };
    let bad = [0x07u8, 0, 0, 0];
    let (mut a, mut b) = (vec![9], vec![8]);
    assert_eq!(
        decode_two_interleaved(&good, &mut a, &bad, &mut b),
        Err(DeflateError::Invalid("reserved block type"))
    );
    assert_eq!((a, b), (vec![9], vec![8]));
    // A lane that runs out of input at a symbol just ends.
    let stream = deflate(b"abc", 6);
    let mut out = Vec::new();
    assert_eq!(decode_member_stepwise(&stream, &mut out), Ok(()));
    assert_eq!(out, b"abc");
    assert_eq!(decode_member_stepwise(&stream[..stream.len() - 1], &mut out), Ok(()));
    assert_eq!(out, b"abc");
}

/// Blocks are started in order, so the first stream's error comes up first;
/// a stream that fails at its start fails before one that fails later.
#[test]
fn the_first_error_in_turn_wins() {
    let reserved = [0x07u8];
    let empty: [u8; 0] = [];
    let (mut a, mut b) = (Vec::new(), Vec::new());
    assert_eq!(
        decode_two_interleaved(&reserved, &mut a, &empty, &mut b),
        Err(DeflateError::Invalid("reserved block type"))
    );
    assert_eq!(decode_two_interleaved(&empty, &mut a, &reserved, &mut b), Err(DeflateError::UnexpectedEof));
    // A stored block, then a reserved block type.
    let late = [0x00u8, 0x01, 0x00, 0xfe, 0xff, b'x', 0x07];
    assert_eq!(decode_member_stepwise(&late, &mut a), Err(DeflateError::Invalid("reserved block type")));
    assert_eq!(decode_two_interleaved(&late, &mut a, &empty, &mut b), Err(DeflateError::UnexpectedEof));
    assert!(a.is_empty() && b.is_empty());
}

#[test]
fn block_errors() {
    let mut out = Vec::new();
    // Block type 3.
    assert_eq!(
        decode_one_block(&mut BitReader::new(&[0x07, 0, 0, 0]), &mut out),
        Err(DeflateError::Invalid("reserved block type"))
    );
    // A stored block whose length and its complement disagree.
    assert_eq!(
        decode_one_block(&mut BitReader::new(&[0x01, 3, 0, 0, 0, 1, 2, 3]), &mut out),
        Err(DeflateError::Invalid("stored block: LEN/NLEN mismatch"))
    );
    // A stored block that ends too early keeps what is there.
    assert_eq!(
        decode_one_block(&mut BitReader::new(&[0x01, 3, 0, 0xfc, 0xff, 1, 2]), &mut out),
        Err(DeflateError::UnexpectedEof)
    );
    assert_eq!(out, [1, 2]);
    // No input at all.
    assert_eq!(decode_one_block_preload(&mut BitReader::new(&[]), &mut out), Err(DeflateError::UnexpectedEof));
    // A fixed block with a match of length 3 at distance 1 before any output:
    // header 011, length symbol 257 (0000001), distance symbol 0 (00000).
    let bits: Vec<u8> = vec![1, 1, 0, 0, 0, 0, 0, 0, 0, 1, 0, 0, 0, 0, 0];
    let mut bytes = vec![0u8; 16];
    for (i, b) in bits.iter().enumerate() {
        bytes[i / 8] |= b << (i % 8);
    }
    let mut out = Vec::new();
    assert_eq!(
        inflate_fast(&mut BitReader::new(&bytes), &mut out),
        Err(DeflateError::Invalid("back-reference distance out of bounds"))
    );
    // With a byte before it the same match copies it.
    let mut out = vec![b'z'];
    assert_eq!(
        decode_one_block(&mut BitReader::new(&bytes), &mut out),
        Ok(true)
    );
    assert_eq!(out, b"zzzz");
    // Without its window it leaves markers.
    let mut chunk = SpeculativeChunk::new();
    decode_member(&bytes, 0, &mut chunk).unwrap();
    assert_eq!(chunk.bytes, [0, 0, 0]);
    assert_eq!(
        chunk.markers,
        vec![
            Marker { out_pos: 0, prefix_offset: 0 },
            Marker { out_pos: 1, prefix_offset: 0 },
            Marker { out_pos: 2, prefix_offset: 0 },
        ]
    );
    assert_eq!(
        resolve_markers(&mut chunk, &[]),
        Err(DeflateError::Invalid("marker references bytes outside the available prefix window"))
    );
    assert!(!chunk.is_resolved());
    resolve_markers(&mut chunk, b"xyz").unwrap();
    assert!(chunk.is_resolved());
    assert_eq!(chunk.bytes, b"zzz");
}

#[test]
fn symbols_out_of_range() {
    // A fixed block whose first symbol is 286: code 11000110.
    let mut bytes = vec![0u8; 16];
    for (i, b) in [1u8, 1, 0, 1, 1, 0, 0, 0, 1, 1, 0].iter().enumerate() {
        bytes[i / 8] |= b << (i % 8);
    }
    let mut out = Vec::new();
    assert_eq!(
        inflate_fast(&mut BitReader::new(&bytes), &mut out),
        Err(DeflateError::Invalid("literal/length symbol out of range"))
    );
    assert_eq!(
        decode_member_stepwise(&bytes, &mut out),
        Err(DeflateError::Invalid("litlen symbol out of range"))
    );
    // Length symbol 257, then distance symbol 30.
    let mut bytes = vec![0u8; 16];
    for (i, b) in [1u8, 1, 0, 0, 0, 0, 0, 0, 0, 1, 1, 1, 1, 1, 0].iter().enumerate() {
        bytes[i / 8] |= b << (i % 8);
    }
    assert_eq!(
        inflate_fast(&mut BitReader::new(&bytes), &mut out),
        Err(DeflateError::Invalid("distance symbol out of range"))
    );
}

/// A complete stream decodes, whatever follows it.
#[test]
fn streams_decode_up_to_their_last_bit() {
    for payload in [&b""[..], b"hello, world\n", b"\xe9\xe9\xe9\xe9\xe9\xe9", &lines(500)] {
        for level in [1u8, 6, 9] {
            let stream = deflate(payload, level);
            let mut out = Vec::new();
            assert_eq!(inflate_into(&stream, &mut out), Ok(stream.len()));
            assert_eq!(out, payload);
            let mut out = Vec::new();
            assert_eq!(inflate_fast(&mut BitReader::new(&stream), &mut out), Ok(()));
            assert_eq!(out, payload);
            let mut out = Vec::new();
            assert!(decode_member_u8(&stream, 0, u64::MAX, &mut out).unwrap().1);
            assert_eq!(out, payload);
            let mut out = Vec::new();
            assert!(decode_member_u8_preload(&stream, 0, u64::MAX, &mut out).unwrap().1);
            assert_eq!(out, payload);
            let mut chunk = SpeculativeChunk::new();
            let end = (stream.len() as u64 * 8, true);
            assert_eq!(decode_until_u16(&stream, 0, u64::MAX, &mut chunk, &mut Vec::new()), Ok(end));
            assert_eq!(chunk.bytes, payload);
            // Without its last byte it does not.
            let cut = &stream[..stream.len() - 1];
            assert_eq!(inflate_fast(&mut BitReader::new(cut), &mut Vec::new()), Err(DeflateError::UnexpectedEof));
        }
    }
    let empty = [0x03u8, 0x00];
    let mut out = Vec::new();
    assert_eq!(inflate_fast(&mut BitReader::new(&empty), &mut out), Ok(()));
    assert!(out.is_empty());
    let stream = deflate(b"hello, world\n", 6);
    assert_eq!(
        decode_member_u8(&stream, stream.len() as u64 * 8 + 1, u64::MAX, &mut Vec::new()),
        Err(DeflateError::UnexpectedEof)
    );
}

#[test]
fn extracting_wide_cells() {
    let mut chunk = SpeculativeChunk::new();
    chunk.reserve_bytes(8);
    chunk.extract_from_u16(&[0x41, 0x8000, 0x42]);
    chunk.extract_from_u16(&[0x8005, 0x43]);
    assert_eq!(chunk.bytes, [0x41, 0, 0x42, 0, 0x43]);
    assert_eq!(
        chunk.markers,
        vec![Marker { out_pos: 1, prefix_offset: 0 }, Marker { out_pos: 3, prefix_offset: 5 }]
    );
    chunk.bytes_offset_markers(&[Marker { out_pos: 2, prefix_offset: 7 }], 10);
    assert_eq!(chunk.markers[2], Marker { out_pos: 12, prefix_offset: 7 });
}

#[test]
fn finder_finds_the_next_dynamic_block() {
    let mut padded = deflate(&lines(50000), 9);
    padded.extend_from_slice(&[0u8; 8]);
    let starts = block_starts(&padded);
    let total = padded.len() as u64 * 8;
    let found = find_next_dynamic_block(&padded, starts[1] - 7, total).unwrap();
    assert!(found <= starts[1]);
    assert_eq!(find_next_dynamic_block(&padded, starts[1], starts[1] + 1), Some(starts[1]));
    assert_eq!(find_next_dynamic_block(&padded, total, total), None);
    assert_eq!(find_next_dynamic_block(&[0; 64], 0, 512), None);
}

fn stored_block(len: u16, held: usize) -> Vec<u8> {
    let mut block = vec![0u8];
    block.extend_from_slice(&len.to_le_bytes());
    block.extend_from_slice(&(!len).to_le_bytes());
    block.extend((0..held).map(|i| (i % 251) as u8));
    block
}

/// Puts the low `n` bits of `code` at the end of the stream, the lowest first.
fn put_bits(stream: &mut Vec<u8>, at: &mut usize, code: u32, n: usize) {
    for i in 0..n {
        if *at % 8 == 0 {
            stream.push(0);
        }
        let last = stream.len() - 1;
        stream[last] |= ((code >> i & 1) as u8) << (*at % 8);
        *at += 1;
    }
}

#[test]
fn an_error_leaves_out_what_is_in_the_window() {
    let eof = Err(DeflateError::UnexpectedEof);
    let mut scratch = Vec::new();

    // Nothing has left the window.
    let mut chunk = SpeculativeChunk::new();
    chunk.bytes.extend_from_slice(b"before");
    let cut_off = stored_block(2000, 1000);
    assert_eq!(decode_until_u16(&cut_off, 0, u64::MAX, &mut chunk, &mut scratch), eof);
    assert_eq!(chunk.bytes, b"before");
    assert!(chunk.markers.is_empty());

    // After two blocks the window is plain and long enough: all is handed on.
    let mut stream = stored_block(65535, 65535);
    stream.extend_from_slice(&stored_block(65535, 65535));
    stream.extend_from_slice(&stored_block(2000, 500));
    let mut chunk = SpeculativeChunk::new();
    assert_eq!(decode_until_u16(&stream, 0, u64::MAX, &mut chunk, &mut scratch), eof);
    assert_eq!(chunk.bytes.len(), 2 * 65535 + 500);

    // A block of one zero and 1100 copies of 258 more, without its end. The window
    // is flushed once, at the first symbol after 262144 cells, down to 32768.
    let mut stream = Vec::new();
    let mut at = 0;
    put_bits(&mut stream, &mut at, 0b011, 3);
    put_bits(&mut stream, &mut at, 0b0000_1100, 8);
    for _ in 0..1100 {
        put_bits(&mut stream, &mut at, 0b1010_0011, 8);
        put_bits(&mut stream, &mut at, 0, 5);
    }
    let mut chunk = SpeculativeChunk::new();
    assert_eq!(decode_until_u16(&stream, 0, u64::MAX, &mut chunk, &mut scratch), eof);
    assert_eq!(chunk.bytes.len(), 1 + 258 * 1017 - 32768);
    assert!(chunk.bytes.iter().all(|&b| b == 0));
}
