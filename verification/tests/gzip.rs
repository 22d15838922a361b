use rusty_rapidgzip::backend::{commit_member, keep_gzip_member, member_isize, member_start, more_room, MemberOutcome};
use rusty_rapidgzip::bgzf::{batch_target, decode_batch, find_members, make_batches};
use rusty_rapidgzip::corpus::{
    corpus_plan, deterministic_ascii, deterministic_base64, digest_text, incompressible, payload_bytes, sha256_of, Payload,
};
use rusty_rapidgzip::file::decode_file;
use rusty_rapidgzip::gzip::{
    decode_all, decode_one, decode_one_indexed, decode_one_indexed_fast, decode_one_indexed_safe, parse_bgzf_block_size,
    parse_header,
};
use rusty_rapidgzip::pipeline::WorkerKernel;
use rusty_rapidgzip::stream::{Polled, StreamBuf, StreamDecoder, StreamStep};
use rusty_rapidgzip::streaming::{decode_item, DispatchStep, Dispatcher, Source};
use rusty_rapidgzip::{Config, DecodeStats, DeflateError, Error, GzipError, Verbosity};

fn make_gz_member(data: &[u8]) -> Vec<u8> {
    let mut out = Vec::new();
    out.extend_from_slice(&[0x1f, 0x8b, 0x08, 0x00, 0x00, 0x00, 0x00, 0x00, 0x00, 0xff]);
    let len = data.len() as u16;
    out.push(0x01); // BFINAL=1, BTYPE=00 (stored)
    out.extend_from_slice(&len.to_le_bytes());
    out.extend_from_slice(&(!len).to_le_bytes());
    out.extend_from_slice(data);
    out.extend_from_slice(&crc32fast::hash(data).to_le_bytes());
    out.extend_from_slice(&(data.len() as u32).to_le_bytes());
    out
}

fn make_bgzf_member(data: &[u8]) -> Vec<u8> {
    let len = data.len() as u16;
    let mut body = vec![0x01];
    body.extend_from_slice(&len.to_le_bytes());
    body.extend_from_slice(&(!len).to_le_bytes());
    body.extend_from_slice(data);
    // 10 (fixed header) + 2 (XLEN) + 6 (BC subfield) + body + 8 (trailer)
    let total = 10 + 2 + 6 + body.len() + 8;
    let bsize = (total - 1) as u16;
    let mut out = Vec::new();
    out.extend_from_slice(&[0x1f, 0x8b, 0x08, 0x04, 0x00, 0x00, 0x00, 0x00, 0x00, 0xff]);
    out.extend_from_slice(&[0x06, 0x00]); // XLEN = 6
    out.push(b'B');
    out.push(b'C');
    out.extend_from_slice(&[0x02, 0x00]); // SLEN = 2
    out.extend_from_slice(&bsize.to_le_bytes());
    out.extend_from_slice(&body);
    out.extend_from_slice(&crc32fast::hash(data).to_le_bytes());
    out.extend_from_slice(&(data.len() as u32).to_le_bytes());
    out
}

fn gz_encode(payload: &[u8], level: u8) -> Vec<u8> {
    let mut out = vec![0x1f, 0x8b, 8, 0, 0, 0, 0, 0, 0, 0xff];
    out.extend_from_slice(&miniz_oxide::deflate::compress_to_vec(payload, level));
    out.extend_from_slice(&crc32fast::hash(payload).to_le_bytes());
    out.extend_from_slice(&(payload.len() as u32).to_le_bytes());
    out
}

fn decode_gz_bytes(bytes: &[u8]) -> Result<Vec<u8>, Error> {
    Ok(decode_file(bytes, 2, 1 << 20)?.chunks.concat())
}

#[test]
fn bgzf_bgzf_decodes_both_members() {
    let mut input = make_bgzf_member(b"hello ");
    input.extend(make_bgzf_member(b"world"));
    let out = decode_gz_bytes(&input).expect("bgzf+bgzf should decode");
    assert_eq!(out, b"hello world");
}

#[test]
fn gz_gz_decodes_both_members() {
    let mut input = make_gz_member(b"hello ");
    input.extend(make_gz_member(b"world"));
    let out = decode_gz_bytes(&input).expect("gz+gz should decode");
    assert_eq!(out, b"hello world");
}

#[test]
fn bgzf_gz_decodes_both_members() {
    // First member triggers BGZF detection; second is plain gzip.
    let mut input = make_bgzf_member(b"hello ");
    input.extend(make_gz_member(b"world"));
    let out = decode_gz_bytes(&input).expect("bgzf+gz should decode");
    assert_eq!(out, b"hello world");
}

#[test]
fn gz_bgzf_decodes_both_members() {
    // First member is plain gzip so BGZF path is NOT taken; second is BGZF
    // (which is valid gzip and must be handled by the regular path).
    let mut input = make_gz_member(b"hello ");
    input.extend(make_bgzf_member(b"world"));
    let out = decode_gz_bytes(&input).expect("gz+bgzf should decode");
    assert_eq!(out, b"hello world");
}

#[test]
fn header_fields() {
    let plain = [0x1f, 0x8b, 8, 0, 1, 2, 3, 4, 5, 6];
    assert_eq!(parse_header(&plain), Ok(10));
    assert_eq!(parse_header(&plain[..9]), Err(GzipError::Truncated));
    assert_eq!(parse_header(&[0x1f, 0x8c, 8, 0, 0, 0, 0, 0, 0, 0]), Err(GzipError::BadMagic));
    assert_eq!(parse_header(&[0x1f, 0x8b, 7, 0, 0, 0, 0, 0, 0, 0]), Err(GzipError::UnsupportedMethod(7)));
    assert_eq!(parse_header(&[0x1f, 0x8b, 8, 0xe1, 0, 0, 0, 0, 0, 0]), Err(GzipError::ReservedFlags(0xe1)));
    // Extra field, name, comment and header checksum.
    let mut all = vec![0x1f, 0x8b, 8, 0x1e, 0, 0, 0, 0, 0, 0];
    all.extend_from_slice(&[3, 0, 9, 9, 9]);
    all.extend_from_slice(b"name\0");
    all.extend_from_slice(b"a comment\0");
    all.extend_from_slice(&[0xab, 0xcd]);
    assert_eq!(parse_header(&all), Ok(all.len()));
    for n in 10..all.len() {
        assert_eq!(parse_header(&all[..n]), Err(GzipError::Truncated), "n={n}");
    }
    // What follows a header does not change it.
    all.extend_from_slice(&[1, 2, 3]);
    assert_eq!(parse_header(&all), Ok(all.len() - 3));
}

#[test]
fn member_errors() {
    let good = gz_encode(b"some text, some text", 6);
    let n = good.len();
    for decode in [decode_one_indexed, decode_one_indexed_safe, decode_one_indexed_fast] {
        let mut out = b"before ".to_vec();
        assert_eq!(decode(&good, &mut out, 3), Ok(n));
        assert_eq!(out, b"before some text, some text");
        let mut bad = good.clone();
        bad[n - 5] ^= 0x80;
        assert_eq!(
            decode(&bad, &mut Vec::new(), 3),
            Err(GzipError::CrcMismatch {
                expected: crc32fast::hash(b"some text, some text") ^ 0x8000_0000,
                got: crc32fast::hash(b"some text, some text"),
                member: 3,
                uncompressed: 20,
                trailer_byte: n as u64 - 8,
            })
        );
        let mut bad = good.clone();
        bad[n - 4] = 21;
        assert_eq!(
            decode(&bad, &mut Vec::new(), 3),
            Err(GzipError::IsizeMismatch { expected: 21, got: 20, member: 3, trailer_byte: n as u64 - 8 })
        );
        assert_eq!(decode(&good[..n - 1], &mut Vec::new(), 3), Err(GzipError::Truncated));
        assert_eq!(
            decode(&good[..12], &mut Vec::new(), 3),
            Err(GzipError::Deflate(DeflateError::UnexpectedEof))
        );
    }
    let mut out = Vec::new();
    assert_eq!(decode_one(&good, &mut out), Ok(n));
    assert_eq!(out, b"some text, some text");
}

/// The engines give the same of every member, good or bad.
#[test]
fn engines_agree_on_members() {
    let good = gz_encode(&deterministic_ascii(100_000), 6);
    let mut bad_crc = good.clone();
    let n = bad_crc.len();
    bad_crc[n - 8] ^= 1;
    let mut bad_size = good.clone();
    bad_size[n - 1] ^= 1;
    let mut bad_method = good.clone();
    bad_method[2] = 7;
    for input in [&good, &bad_crc, &bad_size, &bad_method] {
        let (mut a, mut b, mut c) = (vec![1], vec![1], vec![1]);
        let r = decode_one_indexed(input, &mut a, 5);
        assert_eq!(decode_one_indexed_safe(input, &mut b, 5), r);
        assert_eq!(decode_one_indexed_fast(input, &mut c, 5), r);
        assert_eq!(a, b);
        assert_eq!(a, c);
        assert_eq!(r.is_ok(), input == &good);
    }
}

#[test]
fn decode_all_counts_what_it_appends() {
    let mut input = gz_encode(b"abc", 6);
    input.extend(make_gz_member(b"defgh"));
    let mut out = b"x".to_vec();
    assert_eq!(decode_all(&input, &mut out), Ok(8));
    assert_eq!(out, b"xabcdefgh");
    assert_eq!(decode_all(b"", &mut out), Ok(0));
    input.push(0);
    assert_eq!(decode_all(&input, &mut Vec::new()), Err(GzipError::Truncated));
}

/// Errors name the trailer by its place in the whole input.
#[test]
fn trailers_are_told_by_the_input() {
    let member = |crc: [u8; 4]| {
        let mut m = vec![0x1f, 0x8b, 8, 0, 0, 0, 0, 0, 0, 0xff, 1, 1, 0, 0xfe, 0xff, 0x61];
        m.extend_from_slice(&crc);
        m.extend_from_slice(&[1, 0, 0, 0]);
        m
    };
    let mut two = member([0x43, 0xBE, 0xB7, 0xE8]);
    two.extend_from_slice(&member([0; 4]));
    let mut out = Vec::new();
    assert_eq!(
        decode_all(&two, &mut out),
        Err(GzipError::CrcMismatch { expected: 0, got: 0xE8B7BE43, member: 1, uncompressed: 1, trailer_byte: 40 })
    );
    assert_eq!(out, b"aa");
    for threads in [1usize, 2, 8] {
        let error = GzipError::CrcMismatch {
            expected: 0,
            got: 0xE8B7BE43,
            member: 1,
            uncompressed: 1,
            trailer_byte: 40,
        };
        assert_eq!(decode_file(&two, threads, 4 << 20).err(), Some(Error::Gzip(error)));
        let error = GzipError::CrcMismatch {
            expected: 0,
            got: 0xE8B7BE43,
            member: 0,
            uncompressed: 1,
            trailer_byte: 16,
        };
        assert_eq!(decode_file(&member([0; 4]), threads, 4 << 20).err(), Some(Error::Gzip(error)));
    }
    // The second of two BGZF members.
    let mut file = make_bgzf_member(b"abc");
    let first = file.len();
    file.extend_from_slice(&make_bgzf_member(b"def"));
    let n = file.len();
    file[n - 8] ^= 1;
    assert!(matches!(
        decode_file(&file, 2, 4 << 20).err(),
        Some(Error::Gzip(GzipError::CrcMismatch { member: 1, trailer_byte, .. })) if trailer_byte == n as u64 - 8
    ));
    assert!(first < n);
}

#[test]
fn checksums_are_crc32() {
    // The check value of CRC-32 (IEEE).
    let member = gz_encode(b"123456789", 6);
    assert_eq!(member[member.len() - 8..member.len() - 4], 0xCBF4_3926u32.to_le_bytes());
    assert!(decode_one(&member, &mut Vec::new()).is_ok());
}

#[test]
fn bgzf_block_sizes() {
    let m = make_bgzf_member(b"abc");
    assert_eq!(parse_bgzf_block_size(&m), Some(m.len() as u32));
    assert_eq!(parse_bgzf_block_size(&make_gz_member(b"abc")), None);
    assert_eq!(parse_bgzf_block_size(&m[..11]), None);
    assert_eq!(parse_bgzf_block_size(&m[..17]), None);
    // Another subfield before the right one.
    let mut two = vec![0x1f, 0x8b, 8, 4, 0, 0, 0, 0, 0, 0, 11, 0];
    two.extend_from_slice(&[b'X', b'Y', 1, 0, 77]);
    two.extend_from_slice(&[b'B', b'C', 2, 0, 0x34, 0x12]);
    assert_eq!(parse_bgzf_block_size(&two), Some(0x1235));
    // A subfield that is longer than the extra field.
    two[14] = 200;
    assert_eq!(parse_bgzf_block_size(&two), None);
}

#[test]
fn bgzf_members_and_batches() {
    let mut file = Vec::new();
    let mut ends = Vec::new();
    for i in 0..10u8 {
        file.extend(make_bgzf_member(&vec![i; 20_000]));
        ends.push(file.len());
    }
    let (spans, rest) = find_members(&file).unwrap();
    assert_eq!(rest, file.len());
    assert_eq!(spans.len(), 10);
    assert_eq!(spans[0], (0, ends[0]));
    assert_eq!(spans[9], (ends[8], ends[9]));
    let target = batch_target(file.len(), 2, 1 << 20);
    assert_eq!(target, 65536);
    assert_eq!(batch_target(10 << 20, 2, 1 << 20), 1 << 20);
    assert_eq!(batch_target(10 << 20, 4, 1 << 20), 655360);
    let batches = make_batches(&spans, target);
    assert_eq!(batches, vec![(0, 4), (4, 8), (8, 10)]);
    let out = decode_batch(&file, &spans, 4, 8).unwrap();
    let expected: Vec<u8> = (4..8u8).flat_map(|i| vec![i; 20_000]).collect();
    assert_eq!(out, expected);
    assert!(make_batches(&[], 1).is_empty());
    // A last member that is cut off.
    assert_eq!(find_members(&file[..file.len() - 1]), Err(GzipError::Truncated));
    // A member that fails names itself by its number.
    let mut bad = file.clone();
    let at = ends[5] - 8;
    bad[at] ^= 1;
    assert!(matches!(
        decode_file(&bad, 2, 1 << 20).err(),
        Some(Error::Gzip(GzipError::CrcMismatch { member: 5, .. }))
    ));
    assert!(decode_gz_bytes(&file).unwrap().len() == 200_000);
}

#[test]
fn stream_steps() {
    let gz = gz_encode(b"streamed text", 6);
    let mut d = StreamDecoder::new();
    assert!(matches!(d.next(), Ok(StreamStep::NeedInput)));
    d.feed(&gz[..gz.len() - 8]);
    match d.next() {
        Ok(StreamStep::Chunk(c)) => assert_eq!(c, b"streamed text"),
        _ => panic!("expected a chunk"),
    }
    assert!(matches!(d.next(), Ok(StreamStep::NeedInput)));
    d.feed(&gz[gz.len() - 8..]);
    assert!(matches!(d.next(), Ok(StreamStep::NeedInput)));
    d.feed(&[]);
    assert!(matches!(d.next(), Ok(StreamStep::Done)));
    // Cut off, damaged, and not gzip at all.
    let mut d = StreamDecoder::new();
    d.feed(&gz[..gz.len() - 1]);
    d.feed(&[]);
    assert!(matches!(d.next(), Ok(StreamStep::Chunk(_))));
    assert_eq!(d.next().err(), Some(Error::Gzip(GzipError::Truncated)));
    let mut bad = gz.clone();
    let n = bad.len();
    bad[n - 8] ^= 1;
    let mut d = StreamDecoder::new();
    d.feed(&bad);
    assert!(matches!(d.next(), Ok(StreamStep::Chunk(_))));
    assert!(matches!(
        d.next().err(),
        Some(Error::Gzip(GzipError::CrcMismatch { member: 0, uncompressed: 13, trailer_byte, .. }))
            if trailer_byte == n as u64 - 8
    ));
    // In the second member, when the first has gone by.
    let mut two = gz.clone();
    two.extend_from_slice(&bad);
    let mut d = StreamDecoder::new();
    let mut at = 0;
    let error = loop {
        match d.next() {
            Ok(StreamStep::NeedInput) => {
                d.feed(&two[at..at + 1]);
                at += 1;
            }
            Ok(StreamStep::Chunk(_)) => {}
            Ok(StreamStep::Done) => panic!("a wrong checksum went by"),
            Err(e) => break e,
        }
    };
    assert!(matches!(
        error,
        Error::Gzip(GzipError::CrcMismatch { member: 1, uncompressed: 13, trailer_byte, .. })
            if trailer_byte == 2 * n as u64 - 8
    ));
    let mut d = StreamDecoder::new();
    d.feed(b"plain text, no gzip");
    assert_eq!(d.next().err(), Some(Error::Gzip(GzipError::BadMagic)));
    let mut d = StreamDecoder::new();
    d.feed(&[0x1f, 0x8b, 8, 0, 0, 0, 0, 0, 0, 0, 7]);
    assert_eq!(d.next().err(), Some(Error::Deflate(DeflateError::Invalid("reserved block type"))));
}

#[test]
fn stream_buffer_waits_for_whole_things() {
    let gz = gz_encode(b"abc", 6);
    let mut b = StreamBuf::new();
    assert!(b.is_empty());
    b.feed(&gz[..5]);
    assert!(matches!(b.read_gzip_header(), Ok(Polled::NeedInput)));
    b.feed(&gz[5..12]);
    assert!(matches!(b.read_gzip_header(), Ok(Polled::Ready(()))));
    let mut out = b"old".to_vec();
    assert!(matches!(b.decode_block(&mut out), Ok(Polled::NeedInput)));
    assert_eq!(out, b"old");
    b.feed(&gz[12..]);
    assert!(matches!(b.decode_block(&mut out), Ok(Polled::Ready(true))));
    assert_eq!(out, b"oldabc");
    b.byte_align();
    match b.read_trailer() {
        Ok(Polled::Ready(trailer)) => {
            assert_eq!(trailer.crc_expected, crc32fast::hash(b"abc"));
            assert_eq!(trailer.isize_expected, 3);
            assert_eq!(trailer.trailer_input_byte, gz.len() as u64 - 8);
        }
        _ => panic!("expected a trailer"),
    }
    assert!(b.is_empty());
    b.feed(&[]);
    assert!(b.is_eof());
    assert_eq!(b.read_trailer().err(), Some(Error::Gzip(GzipError::Truncated)));
    // A block that the input ends in leaves no bytes behind.
    let mut b = StreamBuf::new();
    b.feed(&gz[10..12]);
    b.feed(&[]);
    let mut out = b"old".to_vec();
    assert_eq!(b.decode_block(&mut out).err(), Some(Error::Gzip(GzipError::Truncated)));
    assert_eq!(out, b"old");
}

#[test]
fn dispatcher_cuts_what_comes_in() {
    let payload = deterministic_ascii(1_500_000);
    let gz = gz_encode(&payload, 6);
    let mut d = Dispatcher::new(64 * 1024);
    let mut at = 0;
    let mut header = false;
    let mut wk = WorkerKernel::new();
    let mut items = 0u64;
    let mut bits = 80u64;
    loop {
        if !header {
            match d.start_body().unwrap() {
                Polled::Ready(()) => header = true,
                Polled::NeedInput => {
                    let to = (at + 6).min(gz.len());
                    d.feed(&gz[at..to]);
                    at = to;
                }
            }
            continue;
        }
        match d.next() {
            DispatchStep::NeedInput => {
                let to = (at + 50_000).min(gz.len());
                d.feed(&gz[at..to]);
                at = to;
            }
            DispatchStep::Work(item) => {
                assert_eq!(item.id, items);
                assert_eq!(item.base_byte * 8 + item.start_bit, bits);
                items += 1;
                let r = match decode_item(&item, &mut wk) {
                    Ok(r) => r,
                    Err(e) => panic!("{e:?}"),
                };
                assert_eq!(r.final_block, item.is_final_region);
                if item.is_final_region {
                    assert_eq!(r.member_boundaries[0].trailer_input_byte, gz.len() as u64 - 8);
                } else {
                    bits = item.base_byte * 8 + item.end_bit_hint;
                    assert!(r.member_boundaries.is_empty());
                }
            }
            DispatchStep::Done => break,
        }
    }
    assert!(items > 5, "items={items}");
    assert_eq!(d.bytes_read(), gz.len() as u64);
}

#[test]
fn source_slides_over_the_body() {
    let mut s = Source::new();
    s.feed(&[10, 11, 12, 13, 14, 15]);
    assert_eq!(s.abs_end(), 6);
    s.drain_to(2);
    assert_eq!(s.abs_end(), 6);
    let item = s.cut_item(7, 19, Some(33));
    assert_eq!(item.id, 7);
    assert_eq!(item.base_byte, 2);
    assert_eq!(item.start_bit, 3);
    assert_eq!(item.end_bit_hint, 17);
    assert_eq!(item.bytes, vec![12, 13, 14, 15]);
    assert!(!item.is_final_region);
    let rest = s.cut_item(8, 33, None);
    assert_eq!(rest.bytes, vec![14, 15]);
    assert_eq!(rest.end_bit_hint, u64::MAX);
    assert!(rest.is_final_region);
    s.feed(&[]);
    assert!(s.is_eof());
    assert_eq!(s.bytes_read(), 6);
    assert_eq!(s.strip_first_header().err(), Some(Error::Gzip(GzipError::Truncated)));
}

#[test]
fn engine_answers() {
    assert_eq!(member_start(10, 72), Ok(9));
    assert_eq!(member_start(10, 80), Err(DeflateError::UnexpectedEof));
    let mut out = vec![1];
    assert_eq!(commit_member(2, 3, 39, &[7, 8], &mut out), MemberOutcome::Straddle);
    assert_eq!(out, vec![1]);
    assert_eq!(commit_member(2, 3, 40, &[7, 8], &mut out), MemberOutcome::Done(40, true));
    assert_eq!(out, vec![1, 7, 8]);
    assert_eq!(more_room(10, 16), 32);
    assert_eq!(more_room(20, 16), 40);
    assert_eq!(more_room(usize::MAX, 1), usize::MAX);
    let m = gz_encode(b"abc", 6);
    assert_eq!(member_isize(&m), Ok(3));
    assert_eq!(member_isize(&m[..17]), Err(DeflateError::UnexpectedEof));
    let mut out = b"x".to_vec();
    assert_eq!(keep_gzip_member(Some(vec![1, 2]), &mut out), Ok(2));
    assert_eq!(
        keep_gzip_member(None, &mut out),
        Err(DeflateError::Invalid("zune-inflate gzip decode failed"))
    );
    assert_eq!(out, vec![b'x', 1, 2]);
}

#[test]
fn payloads_are_the_same_everywhere() {
    let mut s: u64 = 0x9E37_79B9_7F4A_7C15;
    let expected: Vec<u8> = (0..100)
        .map(|_| {
            s = s.wrapping_mul(6364136223846793005).wrapping_add(1442695040888963407);
            ((s >> 56) as u8 % 95) + 32
        })
        .collect();
    assert_eq!(deterministic_ascii(100), expected);
    let mut s: u64 = 0xA1B2_C3D4_E5F6_0718;
    let mut expected = Vec::new();
    while expected.len() < 21 {
        s = s.wrapping_mul(6364136223846793005).wrapping_add(1442695040888963407);
        expected.extend_from_slice(&s.to_le_bytes());
    }
    expected.truncate(21);
    assert_eq!(incompressible(21), expected);
    let alphabet = b"ABCDEFGHIJKLMNOPQRSTUVWXYZabcdefghijklmnopqrstuvwxyz0123456789+/";
    let mut s: u64 = 0xDEAD_BEEF_CAFE_F00D;
    let expected: Vec<u8> = (0..70)
        .map(|_| {
            s = s.wrapping_mul(6364136223846793005).wrapping_add(1442695040888963407);
            alphabet[(s >> 58) as usize & 63]
        })
        .collect();
    assert_eq!(deterministic_base64(70), expected);
    // A longer payload begins with a shorter one.
    assert_eq!(incompressible(100)[..13], incompressible(13));
    assert_eq!(payload_bytes(Payload::Greeting), b"hello, world\n");
    assert_eq!(payload_bytes(Payload::Repeated(97, 10)), b"aaaaaaaaaa");
}

#[test]
fn corpus_has_its_files() {
    let plan = corpus_plan(false);
    let names: Vec<&str> = plan.iter().map(|f| f.name).collect();
    assert_eq!(
        names,
        vec![
            "empty.gz",
            "hello.gz",
            "ascii_1k.gz",
            "ascii_1m.gz",
            "multistream.gz",
            "incompressible_64k.gz",
            "fixed_small.gz",
            "multistream_8m_x2.gz",
            "multistream_many.gz",
            "base64_32m.gz",
        ]
    );
    assert_eq!(plan[4].parts, vec![Payload::Ascii(64 * 1024), Payload::Ascii(64 * 1024 + 17)]);
    assert_eq!(plan[5].level, 1);
    assert_eq!(plan[6].level, 9);
    assert_eq!(plan[8].parts.len(), 10);
    assert_eq!(plan[8].parts[9], Payload::Ascii(50_000 + 9 * 137));
    let big = corpus_plan(true);
    assert_eq!(big.len(), 11);
    assert_eq!(big[10].parts, vec![Payload::Base64(4 * 1024 * 1024 * 1024)]);
}

#[test]
fn digests_in_hexadecimal() {
    assert_eq!(digest_text(&[0x00, 0x9f, 0xa0, 0xff]), "009fa0ff");
    assert_eq!(sha256_of(b""), "e3b0c44298fc1c149afbf4c8996fb92427ae41e4649b934ca495991b7852b855");
    assert_eq!(sha256_of(b"abc"), "ba7816bf8f01cfea414140de5dae2223b00361a396177a9cb410ff61f20015ad");
}

#[test]
fn defaults() {
    let c = Config::default();
    assert_eq!(c.num_threads, 0);
    assert_eq!(c.chunk_size_bytes, 4 * 1024 * 1024);
    assert!(!c.verbose.is_on());
    assert!(Verbosity::On.is_on());
    assert_eq!(
        DecodeStats::default(),
        DecodeStats { compressed_bytes: 0, uncompressed_bytes: 0, chunks_decoded: 0, speculation_failures: 0 }
    );
}
