use rusty_rapidgzip::deflate::huffman::{bit_reverse, Encoding, HuffmanDecoder, HUFFDEC_EXCEPTIONAL, HUFFDEC_LITERAL};
use rusty_rapidgzip::deflate::{BitReader, DeflateError};

fn tiny_tree() -> HuffmanDecoder {
    HuffmanDecoder::from_lengths(&[2, 1, 3, 3]).unwrap()
}

fn fixed_lengths() -> Vec<u8> {
    let mut lengths = vec![0u8; 288];
    for l in lengths.iter_mut().take(144) {
        *l = 8;
    }
    for l in lengths.iter_mut().take(256).skip(144) {
        *l = 9;
    }
    for l in lengths.iter_mut().take(280).skip(256) {
        *l = 7;
    }
    for l in lengths.iter_mut().take(288).skip(280) {
        *l = 8;
    }
    lengths
}

#[test]
fn bit_reverse_basic() {
    assert_eq!(bit_reverse(0b110, 3), 0b011);
    assert_eq!(bit_reverse(0b10, 2), 0b01);
    assert_eq!(bit_reverse(0, 5), 0);
    assert_eq!(bit_reverse(0b11111, 5), 0b11111);
}

#[test]
fn bit_reverse_whole_word() {
    assert_eq!(bit_reverse(1, 32), 0x8000_0000);
    assert_eq!(bit_reverse(0x8000_0001, 32), 0x8000_0001);
    assert_eq!(bit_reverse(0xffff, 0), 0);
}

#[test]
fn decode_tiny_tree() {
    let dec = tiny_tree();
    let mut bits: Vec<u8> = Vec::new();
    for code_str in ["0", "10", "110", "111", "111"] {
        for c in code_str.chars() {
            bits.push((c == '1') as u8);
        }
    }
    let mut bytes: Vec<u8> = Vec::new();
    let mut acc = 0u8;
    let mut nb = 0u32;
    for b in &bits {
        acc |= b << nb;
        nb += 1;
        if nb == 8 {
            bytes.push(acc);
            acc = 0;
            nb = 0;
        }
    }
    if nb > 0 {
        bytes.push(acc);
    }
    bytes.extend_from_slice(&[0; 8]);

    let mut br = BitReader::new(&bytes);
    assert_eq!(dec.decode(&mut br).unwrap(), 1);
    assert_eq!(dec.decode(&mut br).unwrap(), 0);
    assert_eq!(dec.decode(&mut br).unwrap(), 2);
    assert_eq!(dec.decode(&mut br).unwrap(), 3);
    assert_eq!(dec.decode(&mut br).unwrap(), 3);
}

#[test]
fn rejects_oversubscribed() {
    let err = HuffmanDecoder::from_lengths(&[1, 1, 2]).err().unwrap();
    assert!(matches!(err, DeflateError::Invalid(_)));
}

#[test]
fn accepts_incomplete() {
    let dec = HuffmanDecoder::from_lengths(&[2, 2, 2]).unwrap();
    let bytes = [0b11u8, 0, 0, 0, 0, 0, 0, 0, 0];
    let mut br = BitReader::new(&bytes);
    assert!(dec.decode(&mut br).is_err());
}

#[test]
fn rejects_too_long() {
    let mut lens = vec![0u8; 10];
    lens[0] = 16;
    assert!(HuffmanDecoder::from_lengths(&lens).is_err());
}

#[test]
fn fixed_literal_tree_smoke() {
    let lengths = fixed_lengths();
    let dec = HuffmanDecoder::from_lengths(&lengths).unwrap();
    let bytes = [0u8; 8];
    let mut br = BitReader::new(&bytes);
    assert_eq!(dec.decode(&mut br).unwrap(), 256);
}

#[test]
fn long_code_path() {
    let mut lengths = Vec::new();
    for l in 1..=14u8 {
        lengths.push(l);
    }
    lengths.push(15);
    lengths.push(15);
    let dec = HuffmanDecoder::from_lengths(&lengths).unwrap();
    assert!(dec.has_long_codes());
}

#[test]
fn long_codes_decode() {
    let mut lengths: Vec<u8> = (1..=14u8).collect();
    lengths.push(15);
    lengths.push(15);
    let dec = HuffmanDecoder::from_lengths(&lengths).unwrap();
    // Fifteen ones: the last symbol. Then thirteen ones and a zero: symbol 13.
    let mut bits: Vec<u8> = vec![1; 15];
    bits.extend_from_slice(&[1; 13]);
    bits.push(0);
    let mut bytes = vec![0u8; 12];
    for (i, b) in bits.iter().enumerate() {
        bytes[i / 8] |= b << (i % 8);
    }
    let mut br = BitReader::new(&bytes);
    assert_eq!(dec.decode(&mut br).unwrap(), 15);
    assert_eq!(dec.decode(&mut br).unwrap(), 13);
    assert_eq!(br.tell_bit(), 29);
}

#[test]
fn litlen_encoding_literal_byte() {
    // Symbol 65 ('A') of the fixed code: 65 + 48 = 0b01110001, reversed 0x8E.
    let dec = HuffmanDecoder::from_lengths_litlen(&fixed_lengths()).unwrap();
    let bytes = [0x8Eu8, 0, 0, 0, 0, 0, 0, 0, 0];
    let mut br = BitReader::new(&bytes);
    br.ensure_bits(48).unwrap();
    let entry = dec.lookup_filled(&mut br).unwrap();
    assert_ne!(entry & HUFFDEC_LITERAL, 0, "expected literal flag set");
    assert_eq!((entry >> 16) as u8, 65, "literal byte at bits 23..16");
}

#[test]
fn litlen_encoding_eob() {
    let dec = HuffmanDecoder::from_lengths_litlen(&fixed_lengths()).unwrap();
    // The end of a block has the code of seven zero bits.
    let bytes = [0u8; 8];
    let mut br = BitReader::new(&bytes);
    br.ensure_bits(48).unwrap();
    let entry = dec.lookup_filled(&mut br).unwrap();
    assert_eq!(entry & HUFFDEC_LITERAL, 0);
    assert_ne!(entry & HUFFDEC_EXCEPTIONAL, 0);
}

#[test]
fn strict_rejects_incomplete() {
    assert_eq!(
        HuffmanDecoder::from_lengths_strict(&[2, 2, 2]).err(),
        Some(DeflateError::Invalid("incomplete huffman tree (strict)"))
    );
    assert!(HuffmanDecoder::from_lengths_strict(&[1, 1]).is_ok());
    // A single code is accepted though it leaves half of the space unused.
    assert!(HuffmanDecoder::from_lengths_strict(&[1]).is_ok());
}

#[test]
fn errors_name_their_cause() {
    assert_eq!(
        HuffmanDecoder::from_lengths(&[1, 1, 2]).err(),
        Some(DeflateError::Invalid("oversubscribed huffman tree"))
    );
    assert_eq!(
        HuffmanDecoder::from_lengths(&[16]).err(),
        Some(DeflateError::Invalid("huffman code length > 15"))
    );
}

#[test]
fn lookup_near_the_end_of_the_input() {
    let dec = tiny_tree();
    // A lookup needs the bits of the code, and no more.
    let one = [0u8];
    let mut br = BitReader::new(&one);
    for _ in 0..8 {
        assert_eq!(dec.decode(&mut br), Ok(1));
    }
    assert_eq!(dec.decode(&mut br), Err(DeflateError::UnexpectedEof));
    assert_eq!(br.tell_bit(), 8);
    // No code begins with 11 here, which takes fifteen bits to say.
    let dec = HuffmanDecoder::from_lengths(&[2, 2, 2]).unwrap();
    assert_eq!(
        dec.decode(&mut BitReader::new(&[0xff, 0xff])),
        Err(DeflateError::Invalid("no matching huffman code"))
    );
}

#[test]
fn rebuilding_replaces_the_code() {
    let mut dec = HuffmanDecoder::new_empty();
    let zeros = [0u8; 8];
    assert!(dec.decode(&mut BitReader::new(&zeros)).is_err());
    dec.rebuild_from_lengths(&[2, 1, 3, 3], false).unwrap();
    assert_eq!(dec.decode(&mut BitReader::new(&zeros)), Ok(1));
    dec.rebuild_from_lengths(&[1, 1], true).unwrap();
    assert_eq!(dec.decode(&mut BitReader::new(&zeros)), Ok(0));
    dec.rebuild_from_lengths_dist(&[1, 1]).unwrap();
    let mut br = BitReader::new(&zeros);
    br.ensure_bits(15).unwrap();
    // Distance symbol 0: base 1, no extra bits, a code of one bit.
    assert_eq!(dec.lookup_filled(&mut br), Ok(0x0001_0001));
    // A failed rebuild leaves no code behind.
    assert!(dec.rebuild_from_lengths_litlen(&[1, 1, 1]).is_err());
    assert!(dec.rebuild_from_lengths(&[], false).is_ok());
    assert_ne!(Encoding::Simple, Encoding::Dist);
}

#[test]
fn entries_of_lengths_and_distances() {
    // Symbols 284 and 285 with codes of one bit each.
    let mut lengths = vec![0u8; 288];
    lengths[284] = 1;
    lengths[285] = 1;
    let dec = HuffmanDecoder::from_lengths_litlen(&lengths).unwrap();
    let bytes = [0b10u8, 0, 0, 0, 0, 0, 0, 0];
    let mut br = BitReader::new(&bytes);
    br.ensure_bits(48).unwrap();
    assert_eq!(dec.lookup_filled(&mut br), Ok((227 << 16) | (5 << 8) | 1));
    assert_eq!(dec.lookup_filled(&mut br), Ok((258 << 16) | 1));
    // Symbols 29 and 30 of the distance code.
    let mut lengths = vec![0u8; 32];
    lengths[29] = 1;
    lengths[30] = 1;
    let dec = HuffmanDecoder::from_lengths_dist(&lengths).unwrap();
    let mut br = BitReader::new(&bytes);
    br.ensure_bits(48).unwrap();
    assert_eq!(dec.lookup_filled(&mut br), Ok((24577 << 16) | (13 << 8) | 1));
    assert_eq!(dec.lookup_filled(&mut br), Ok(HUFFDEC_EXCEPTIONAL | 1));
}

#[test]
fn reader_reads_low_bits_first() {
    let bytes = [0b1010_0110u8, 0b0000_0011, 0xff];
    let mut br = BitReader::new(&bytes);
    assert_eq!(br.read(3), Ok(0b110));
    assert_eq!(br.peek(5), Ok(0b10100));
    assert_eq!(br.read(7), Ok(0b1110100));
    assert_eq!(br.tell_bit(), 10);
    br.byte_align();
    assert_eq!(br.tell_bit(), 16);
    assert_eq!(br.read(9), Err(DeflateError::UnexpectedEof));
    assert_eq!(br.tell_bit(), 16);
    assert_eq!(br.seek_to_bit(24), Ok(()));
    assert_eq!(br.read(0), Ok(0));
    assert_eq!(br.read(1), Err(DeflateError::UnexpectedEof));
    assert_eq!(br.seek_to_bit(25), Err(DeflateError::UnexpectedEof));
    assert_eq!(br.seek_to_bit(5), Ok(()));
    assert_eq!(br.read(3), Ok(0b101));
    assert_eq!(br.total_bits(), 24);
}
