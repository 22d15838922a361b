//! The columns must be the same wherever the text is cut.
use rusty_rapidgzip::fastq::{split_pieces, FastqSplitter};
use rusty_rapidgzip::file::decode_file;
use rusty_rapidgzip::pieces::PieceDecoder;
use rusty_rapidgzip::stream::Polled;
use rusty_rapidgzip::streaming::{DispatchStep, Dispatcher};

type Cols = (Vec<u8>, Vec<u8>, Vec<u8>);

fn split(chunks: &[&[u8]]) -> Result<Cols, String> {
    match split_pieces(chunks) {
        Ok(c) => Ok((c.names, c.seqs, c.quals)),
        Err(e) => Err(e.message().to_string()),
    }
}

fn chunkings(data: &[u8]) -> Vec<Vec<&[u8]>> {
    let mut v: Vec<Vec<&[u8]>> = vec![vec![data]]; // the whole text as one piece
    for sz in [1usize, 2, 3, 5, 7, 11, 64] {
        v.push(data.chunks(sz.max(1)).collect());
    }
    v
}

/// Splits every chunking; asserts that they all agree; returns the common result.
fn split_invariant(data: &[u8]) -> Result<Cols, String> {
    let mut common: Option<Result<Cols, String>> = None;
    for chunks in chunkings(data) {
        let n = chunks.len();
        let r = split(&chunks);
        match &common {
            None => common = Some(r),
            Some(prev) => assert_eq!(prev, &r, "split depends on chunk boundaries ({n} chunks)"),
        }
    }
    common.unwrap()
}

fn cols(names: &str, seqs: &str, quals: &str) -> Cols {
    (names.as_bytes().to_vec(), seqs.as_bytes().to_vec(), quals.as_bytes().to_vec())
}

#[test]
fn basic_two_records() {
    let data = b"@r1 desc\nACGT\n+\nIIII\n@r2\nGG\n+\n##\n";
    let got = split_invariant(data).unwrap();
    assert_eq!(got, cols("r1 desc\nr2\n", "ACGT\nGG\n", "IIII\n##\n"));
}

#[test]
fn empty_input() {
    assert_eq!(split_invariant(b"").unwrap(), cols("", "", ""));
}

#[test]
fn no_trailing_newline() {
    // Final quality line has no terminating '\n' - still a complete record.
    let data = b"@a\nAC\n+\nII\n@b\nGT\n+\n##";
    let got = split_invariant(data).unwrap();
    assert_eq!(got, cols("a\nb\n", "AC\nGT\n", "II\n##\n"));
}

#[test]
fn at_and_plus_in_quality() {
    // Quality strings deliberately start with '@' and contain '+': a
    // content-based scanner would mis-segment here. Newline-counting must not.
    let data = b"@r1\nACGT\n+\n@!+I\n@r2\nTTTT\n+\n+@?J\n";
    let got = split_invariant(data).unwrap();
    assert_eq!(got, cols("r1\nr2\n", "ACGT\nTTTT\n", "@!+I\n+@?J\n"));
}

#[test]
fn crlf_line_endings() {
    let data = b"@r1\r\nACGT\r\n+\r\nIIII\r\n@r2\r\nAC\r\n+\r\n##\r\n";
    let got = split_invariant(data).unwrap();
    // Trailing '\r' is stripped from every field.
    assert_eq!(got, cols("r1\nr2\n", "ACGT\nAC\n", "IIII\n##\n"));
}

#[test]
fn variable_lengths() {
    let data = b"@a\nA\n+\nI\n@b\nACGTACGT\n+\nIIIIIIII\n@c\nACG\n+\nJJJ\n";
    let got = split_invariant(data).unwrap();
    assert_eq!(got, cols("a\nb\nc\n", "A\nACGTACGT\nACG\n", "I\nIIIIIIII\nJJJ\n"));
}

#[test]
fn many_records_stress() {
    // Enough records that small chunkings split inside almost every one.
    let mut data = Vec::new();
    let mut expect_n = String::new();
    let mut expect_s = String::new();
    let mut expect_q = String::new();
    for i in 0..200u32 {
        let len = 1 + (i as usize % 30);
        let seq: String = std::iter::repeat('A').take(len).collect();
        let qual: String = std::iter::repeat('I').take(len).collect();
        data.extend_from_slice(format!("@read{i}\n{seq}\n+\n{qual}\n").as_bytes());
        expect_n.push_str(&format!("read{i}\n"));
        expect_s.push_str(&format!("{seq}\n"));
        expect_q.push_str(&format!("{qual}\n"));
    }
    let got = split_invariant(&data).unwrap();
    assert_eq!(got, cols(&expect_n, &expect_s, &expect_q));
}

#[test]
fn err_header_not_at() {
    let e = split_invariant(b"r1\nACGT\n+\nIIII\n").unwrap_err();
    assert!(e.contains("'@'"), "unexpected error: {e}");
}

#[test]
fn err_separator_not_plus() {
    let e = split_invariant(b"@r1\nACGT\nX\nIIII\n").unwrap_err();
    assert!(e.contains("'+'"), "unexpected error: {e}");
}

#[test]
fn err_seq_qual_length_mismatch() {
    let e = split_invariant(b"@r1\nACGT\n+\nII\n").unwrap_err();
    assert!(e.contains("length mismatch"), "unexpected error: {e}");
}

// -- Truncated-input errors ---------------------------------------------------
//
// Each test covers a different truncation point within or between records.
// All should produce an error; the split_invariant helper verifies that the
// error is independent of chunk boundaries.

#[test]
fn err_truncated_mid_header() {
    // Truncated before the first newline - only a partial header.
    let e = split_invariant(b"@r1").unwrap_err();
    assert!(e.contains("truncated"), "unexpected error: {e}");
}

#[test]
fn err_truncated_after_header_newline() {
    // Header complete but no sequence line at all.
    let e = split_invariant(b"@r1\n").unwrap_err();
    assert!(e.contains("truncated"), "unexpected error: {e}");
}

#[test]
fn err_truncated_mid_seq() {
    // Sequence started but no terminating newline.
    let e = split_invariant(b"@r1\nAC").unwrap_err();
    assert!(e.contains("truncated"), "unexpected error: {e}");
}

#[test]
fn err_truncated_after_seq_newline() {
    // Sequence complete but no separator line.
    let e = split_invariant(b"@r1\nACGT\n").unwrap_err();
    assert!(e.contains("truncated"), "unexpected error: {e}");
}

#[test]
fn err_truncated_mid_sep() {
    // Separator started ('+') but no terminating newline.
    let e = split_invariant(b"@r1\nACGT\n+").unwrap_err();
    assert!(e.contains("truncated"), "unexpected error: {e}");
}

#[test]
fn err_truncated_after_sep_newline() {
    // Separator complete but no quality line.
    let e = split_invariant(b"@r1\nACGT\n+\n").unwrap_err();
    assert!(e.contains("truncated"), "unexpected error: {e}");
}

#[test]
fn err_truncated_mid_qual() {
    // Quality line shorter than sequence - caught as a length mismatch.
    let e = split_invariant(b"@r1\nACGT\n+\nII").unwrap_err();
    assert!(e.contains("length mismatch") || e.contains("truncated"), "unexpected error: {e}");
}

#[test]
fn err_truncated_second_record_after_complete_first() {
    // First record is complete; second record is truncated at its header line.
    // The stream should error, not silently drop the partial record.
    let e = split_invariant(b"@r1\nACGT\n+\nIIII\n@r2\n").unwrap_err();
    assert!(e.contains("truncated"), "unexpected error: {e}");
}

#[test]
fn err_truncated_second_record_mid_seq() {
    // First record complete; second record has header and partial sequence.
    let e = split_invariant(b"@r1\nACGT\n+\nIIII\n@r2\nGG").unwrap_err();
    assert!(e.contains("truncated"), "unexpected error: {e}");
}

fn gzip(payload: &[u8]) -> Vec<u8> {
    let mut out = vec![0x1f, 0x8b, 8, 0, 0, 0, 0, 0, 0, 0xff];
    out.extend_from_slice(&miniz_oxide::deflate::compress_to_vec(payload, 6));
    out.extend_from_slice(&crc32fast::hash(payload).to_le_bytes());
    out.extend_from_slice(&(payload.len() as u32).to_le_bytes());
    out
}

fn decode(gz: &[u8], num_threads: usize, chunk_size_bytes: usize) -> Vec<Vec<u8>> {
    decode_file(gz, num_threads, chunk_size_bytes).expect("decode_file").chunks
}

/// Decodes `gz` in chunks as it comes in, 50000 bytes at a time.
fn decode_pipe(gz: &[u8], chunk_bytes: usize) -> Vec<Vec<u8>> {
    let mut at = 0;
    let mut feed = |d: &mut Dispatcher| {
        let to = (at + 50_000).min(gz.len());
        d.feed(&gz[at..to]);
        at = to;
    };
    let mut d = Dispatcher::new(chunk_bytes);
    let mut pieces: Option<PieceDecoder> = None;
    let mut chunks = Vec::new();
    while let Polled::NeedInput = d.start_body().expect("header") {
        feed(&mut d);
    }
    loop {
        match d.next() {
            DispatchStep::NeedInput => feed(&mut d),
            DispatchStep::Work(item) => {
                let is_final = item.is_final_region;
                let pieces = pieces.get_or_insert_with(|| PieceDecoder::new(item.base_byte));
                if let Some((bytes, last)) = pieces.step(item).expect("step") {
                    assert_eq!(last, is_final);
                    chunks.push(bytes);
                }
            }
            DispatchStep::Done => return chunks,
        }
    }
}

fn columns(chunks: &[Vec<u8>]) -> Cols {
    let mut s = FastqSplitter::new();
    for c in chunks {
        s.feed(c).unwrap();
    }
    let c = s.finish().unwrap();
    (c.names, c.seqs, c.quals)
}

#[test]
fn end_to_end_read_gz_into_fastq() {
    let mut payload = Vec::new();
    let mut exp_n = String::new();
    let mut exp_s = String::new();
    let mut exp_q = String::new();
    for i in 0..5000u32 {
        let len = 1 + (i as usize % 50);
        let seq: String = "C".repeat(len);
        let qual: String = "F".repeat(len);
        payload.extend_from_slice(format!("@seq.{i} x\n{seq}\n+\n{qual}\n").as_bytes());
        exp_n.push_str(&format!("seq.{i} x\n"));
        exp_s.push_str(&format!("{seq}\n"));
        exp_q.push_str(&format!("{qual}\n"));
    }
    let gz = gzip(&payload);
    for threads in [1usize, 4] {
        for chunk_size in [64 * 1024usize, 1 << 20] {
            let (n, s, q) = columns(&decode(&gz, threads, chunk_size));
            assert_eq!(n, exp_n.as_bytes(), "names t={threads} cs={chunk_size}");
            assert_eq!(s, exp_s.as_bytes(), "seqs t={threads} cs={chunk_size}");
            assert_eq!(q, exp_q.as_bytes(), "quals t={threads} cs={chunk_size}");
        }
    }
}

/// Decoding in chunks what comes from a pipe gives the bytes that decoding a
/// file in memory gives, across many chunks and several members.
#[test]
fn streaming_parallel_pipe_matches_mmap_multichunk() {
    let mut payload = Vec::new();
    for i in 0..12000u32 {
        let len = 60 + (i as usize * 7) % 90;
        let seq: String = (0..len).map(|j| b"ACGT"[((i as usize + j) * 31) % 4] as char).collect();
        let qual: String = "I".repeat(len);
        payload.extend_from_slice(format!("@read{i} run:1:flow\n{seq}\n+\n{qual}\n").as_bytes());
    }
    let gz_a = gzip(&payload);
    let gz_b = gzip(&payload[..payload.len() / 3]);
    let mut gz_multi = gz_a.clone();
    gz_multi.extend_from_slice(&gz_b);
    for (label, gz) in [("single", &gz_a), ("multi", &gz_multi)] {
        let reference = decode(gz, 4, 64 * 1024).concat();
        let got = decode_pipe(gz, 64 * 1024).concat();
        assert_eq!(got, reference, "{label}: pipe differs from memory");
        assert!(got.len() > 1_000_000, "{label}: expected a multi-chunk payload");
    }
}

/// Payloads that compress badly are cut into many chunks.
#[test]
fn pipe_is_cut_into_many_chunks() {
    let mut s: u64 = 0x9E37_79B9_7F4A_7C15;
    let payload: Vec<u8> = (0..1_200_000)
        .map(|_| {
            s = s.wrapping_mul(6364136223846793005).wrapping_add(1442695040888963407);
            ((s >> 56) as u8 % 95) + 32
        })
        .collect();
    let mut gz = gzip(&payload);
    gz.extend_from_slice(&gzip(&payload[..500_000]));
    let mut whole = payload.clone();
    whole.extend_from_slice(&payload[..500_000]);
    let chunks = decode_pipe(&gz, 64 * 1024);
    assert!(chunks.len() > 5, "{} chunks", chunks.len());
    assert_eq!(chunks.concat(), whole);
}

#[test]
fn end_to_end_read_gz_into_fastq_named_pipe() {
    let mut payload = Vec::new();
    let mut exp_n = String::new();
    let mut exp_s = String::new();
    let mut exp_q = String::new();
    for i in 0..500u32 {
        let len = 4 + (i as usize % 20);
        let seq: String = "G".repeat(len);
        let qual: String = "J".repeat(len);
        payload.extend_from_slice(format!("@r{i}\n{seq}\n+\n{qual}\n").as_bytes());
        exp_n.push_str(&format!("r{i}\n"));
        exp_s.push_str(&format!("{seq}\n"));
        exp_q.push_str(&format!("{qual}\n"));
    }
    let gz = gzip(&payload);
    let (n, s, q) = columns(&decode_pipe(&gz, 4 << 20));
    assert_eq!(n, exp_n.as_bytes(), "names");
    assert_eq!(s, exp_s.as_bytes(), "seqs");
    assert_eq!(q, exp_q.as_bytes(), "quals");
}
