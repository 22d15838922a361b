//! Payloads for test files, the same on every machine.
use vstd::prelude::*;
use vstd::arithmetic::power2::{pow2, lemma2_to64, lemma_pow2_adds, lemma_pow2_pos};
use sha2::Digest;

verus! {

/// The next state of the generator: a linear congruence modulo 2^64.
pub open spec fn lcg(s: int) -> int {
    (s * 6364136223846793005 + 1442695040888963407) % 0x1_0000_0000_0000_0000
}

/// The state after `n` steps from `seed`.
pub open spec fn lcg_at(seed: int, n: nat) -> int
    decreases n,
{
    if n == 0 {
        seed
    } else {
        lcg(lcg_at(seed, (n - 1) as nat))
    }
}

/// Steps the generator.
fn lcg_next(s: u64) -> (r: u64)
    ensures
        r == lcg(s as int),
{
    proof {
        let a = s * 6364136223846793005;
        let c = 1442695040888963407int;
        let m = 0x1_0000_0000_0000_0000int;
        vstd::arithmetic::div_mod::lemma_add_mod_noop(a, c, m);
    }
    s.wrapping_mul(6364136223846793005).wrapping_add(1442695040888963407)
}

/// `n` printable ASCII bytes.
pub open spec fn ascii_payload(n: nat) -> Seq<u8> {
    Seq::new(n, |i: int| ((lcg_at(0x9E37_79B9_7F4A_7C15, (i + 1) as nat) / 0x100_0000_0000_0000) % 95 + 32) as u8)
}

/// `n` bytes that hardly compress: the states, each lowest byte first.
pub open spec fn noise_payload(n: nat) -> Seq<u8> {
    Seq::new(n, |i: int| le_byte(lcg_at(0xA1B2_C3D4_E5F6_0718, (i / 8 + 1) as nat), i % 8))
}

/// Byte `k` of `s`, the lowest being number 0.
pub open spec fn le_byte(s: int, k: int) -> u8 {
    ((s / vstd::arithmetic::power2::pow2((8 * k) as nat) as int) % 256) as u8
}

/// The base64 alphabet.
pub const BASE64: [u8; 64] = [
    65, 66, 67, 68, 69, 70, 71, 72, 73, 74, 75, 76, 77, 78, 79, 80, 81, 82, 83, 84, 85, 86, 87, 88, 89, 90, 97, 98, 99, 100,
    101, 102, 103, 104, 105, 106, 107, 108, 109, 110, 111, 112, 113, 114, 115, 116, 117, 118, 119, 120, 121, 122, 48, 49, 50,
    51, 52, 53, 54, 55, 56, 57, 43, 47,
];

/// `n` characters of base64.
pub open spec fn base64_payload(n: nat) -> Seq<u8> {
    Seq::new(n, |i: int| BASE64[lcg_at(0xDEAD_BEEF_CAFE_F00D, (i + 1) as nat) / 0x400_0000_0000_0000])
}

/// `n` printable ASCII bytes.
pub fn deterministic_ascii(n: usize) -> (out: Vec<u8>)
    ensures
        out@ == ascii_payload(n as nat),
{
    let mut out: Vec<u8> = Vec::with_capacity(n);
    let mut s: u64 = 0x9E37_79B9_7F4A_7C15;
    while out.len() < n
        invariant
            out@.len() <= n,
            s == lcg_at(0x9E37_79B9_7F4A_7C15, out@.len()),
            out@ =~= ascii_payload(n as nat).take(out@.len() as int),
        decreases n - out@.len(),
    {
        s = lcg_next(s);
        proof {
            assert(s >> 56u64 == s / 0x100_0000_0000_0000u64) by (bit_vector);
        }
        out.push(((s >> 56) % 95 + 32) as u8);
    }
    assert(ascii_payload(n as nat).take(n as int) =~= ascii_payload(n as nat));
    out
}

/// `n` characters of base64.
pub fn deterministic_base64(n: u64) -> (out: Vec<u8>)
    requires
        n <= usize::MAX,
    ensures
        out@ == base64_payload(n as nat),
{
    let mut out: Vec<u8> = Vec::with_capacity(n as usize);
    let mut s: u64 = 0xDEAD_BEEF_CAFE_F00D;
    while (out.len() as u64) < n
        invariant
            out@.len() <= n,
            s == lcg_at(0xDEAD_BEEF_CAFE_F00D, out@.len()),
            out@ =~= base64_payload(n as nat).take(out@.len() as int),
        decreases n - out@.len(),
    {
        s = lcg_next(s);
        proof {
            assert(s >> 58u64 == s / 0x400_0000_0000_0000u64 && s >> 58u64 < 64) by (bit_vector);
        }
        out.push(BASE64[(s >> 58) as usize]);
    }
    assert(base64_payload(n as nat).take(n as int) =~= base64_payload(n as nat));
    out
}

/// `n` bytes that hardly compress.
pub fn incompressible(n: usize) -> (out: Vec<u8>)
    ensures
        out@ == noise_payload(n as nat),
{
    let mut out: Vec<u8> = Vec::with_capacity(n);
    let mut s: u64 = 0xA1B2_C3D4_E5F6_0718;
    let mut i: usize = 0;
    let ghost mut steps = 0nat;
    while i < n
        invariant
            i <= n,
            out@.len() == i,
            steps == (i + 7) / 8,
            s == lcg_at(0xA1B2_C3D4_E5F6_0718, steps),
            out@ =~= noise_payload(n as nat).take(i as int),
        decreases n - i,
    {
        if i % 8 == 0 {
            s = lcg_next(s);
            proof {
                steps = steps + 1;
            }
        }
        let shift: u64 = (i % 8) as u64 * 8;
        proof {
            vstd::bits::lemma_u64_shr_is_div(s, shift);
            let x = s >> shift;
            assert(x & 0xffu64 == x % 256) by (bit_vector);
        }
        out.push(((s >> shift) & 0xff) as u8);
        i = i + 1;
    }
    assert(noise_payload(n as nat).take(n as int) =~= noise_payload(n as nat));
    out
}

/// What a test file holds, or a part of it.
#[derive(Debug, Clone, Copy, PartialEq, Eq, Structural)]
pub enum Payload {
    /// A byte, so many times.
    Repeated(u8, usize),
    /// `hello, world` and a line feed.
    Greeting,
    /// So many bytes of `deterministic_ascii`.
    Ascii(usize),
    /// So many bytes of `incompressible`.
    Noise(usize),
    /// So many bytes of `deterministic_base64`.
    Base64(u64),
}

/// `hello, world` and a line feed.
pub const GREETING: [u8; 13] = [104, 101, 108, 108, 111, 44, 32, 119, 111, 114, 108, 100, 10];

/// The bytes of a payload.
pub open spec fn payload_of(p: Payload) -> Seq<u8> {
    match p {
        Payload::Repeated(b, n) => Seq::new(n as nat, |i: int| b),
        Payload::Greeting => GREETING@,
        Payload::Ascii(n) => ascii_payload(n as nat),
        Payload::Noise(n) => noise_payload(n as nat),
        Payload::Base64(n) => base64_payload(n as nat),
    }
}

/// The bytes of a payload.
pub fn payload_bytes(p: Payload) -> (out: Vec<u8>)
    requires
        match p {
            Payload::Base64(n) => n <= usize::MAX,
            _ => true,
        },
    ensures
        out@ == payload_of(p),
{
    match p {
        Payload::Repeated(b, n) => {
            let mut out: Vec<u8> = Vec::with_capacity(n);
            while out.len() < n
                invariant
                    out@.len() <= n,
                    out@ =~= Seq::new(out@.len(), |i: int| b),
                decreases n - out@.len(),
            {
                out.push(b);
            }
            assert(out@ =~= payload_of(p));
            out
        },
        Payload::Greeting => {
            let mut out: Vec<u8> = Vec::with_capacity(13);
            let mut i: usize = 0;
            while i < 13
                invariant
                    i <= 13,
                    out@ =~= GREETING@.take(i as int),
                decreases 13 - i,
            {
                out.push(GREETING[i]);
                i = i + 1;
            }
            assert(GREETING@.take(13) =~= GREETING@);
            out
        },
        Payload::Ascii(n) => deterministic_ascii(n),
        Payload::Noise(n) => incompressible(n),
        Payload::Base64(n) => deterministic_base64(n),
    }
}

/// A test file: one gzip member for each part, compressed at `level`.
#[derive(Debug)]
pub struct Fixture {
    pub name: &'static str,
    pub parts: Vec<Payload>,
    pub level: u32,
}

/// A test file, as planned.
pub struct Planned {
    pub name: Seq<char>,
    pub parts: Seq<Payload>,
    pub level: u32,
}

impl View for Fixture {
    type V = Planned;

    open spec fn view(&self) -> Planned {
        Planned { name: self.name@, parts: self.parts@, level: self.level }
    }
}

/// The parts of the file with many members: each a little longer than the last.
pub open spec fn many_parts() -> Seq<Payload> {
    Seq::new(10, |i: int| Payload::Ascii((50000 + i * 137) as usize))
}

/// All test files; the largest one only if asked for.
pub open spec fn planned_corpus(big: bool) -> Seq<Planned> {
    let small = seq![
        (Planned { name: "empty.gz"@, parts: seq![Payload::Repeated(0, 0)], level: 6 }),
        (Planned { name: "hello.gz"@, parts: seq![Payload::Greeting], level: 6 }),
        (Planned { name: "ascii_1k.gz"@, parts: seq![Payload::Ascii(1024)], level: 6 }),
        (Planned { name: "ascii_1m.gz"@, parts: seq![Payload::Ascii(0x10_0000)], level: 6 }),
        (Planned { name: "multistream.gz"@, parts: seq![Payload::Ascii(0x1_0000), Payload::Ascii(0x1_0011)], level: 6 }),
        (Planned { name: "incompressible_64k.gz"@, parts: seq![Payload::Noise(0x1_0000)], level: 1 }),
        (Planned { name: "fixed_small.gz"@, parts: seq![Payload::Repeated(97, 10)], level: 9 }),
        (Planned { name: "multistream_8m_x2.gz"@, parts: seq![Payload::Ascii(0x80_0000), Payload::Ascii(0x80_03e7)], level: 6 }),
        (Planned { name: "multistream_many.gz"@, parts: many_parts(), level: 6 }),
        (Planned { name: "base64_32m.gz"@, parts: seq![Payload::Base64(0x200_0000)], level: 6 }),
    ];
    if big {
        small.push(Planned { name: "base64_4gib.gz"@, parts: seq![Payload::Base64(0x1_0000_0000)], level: 6 })
    } else {
        small
    }
}

fn fixture(name: &'static str, parts: Vec<Payload>, level: u32) -> (f: Fixture)
    ensures
        f@ == (Planned { name: name@, parts: parts@, level }),
{
    Fixture { name, parts, level }
}

fn many() -> (parts: Vec<Payload>)
    ensures
        parts@ == many_parts(),
{
    let mut parts: Vec<Payload> = Vec::new();
    let mut i: usize = 0;
    while i < 10
        invariant
            i <= 10,
            parts@ =~= many_parts().take(i as int),
        decreases 10 - i,
    {
        parts.push(Payload::Ascii(50000 + i * 137));
        i = i + 1;
    }
    assert(many_parts().take(10) =~= many_parts());
    parts
}

/// All test files; the largest one only if asked for.
pub fn corpus_plan(big: bool) -> (plan: Vec<Fixture>)
    ensures
        plan@.len() == planned_corpus(big).len(),
        forall|i: int| 0 <= i < plan@.len() ==> (#[trigger] plan@[i])@ == planned_corpus(big)[i],
{
    let mut plan: Vec<Fixture> = Vec::new();
    plan.push(fixture("empty.gz", vec![Payload::Repeated(0, 0)], 6));
    plan.push(fixture("hello.gz", vec![Payload::Greeting], 6));
    plan.push(fixture("ascii_1k.gz", vec![Payload::Ascii(1024)], 6));
    plan.push(fixture("ascii_1m.gz", vec![Payload::Ascii(0x10_0000)], 6));
    plan.push(fixture("multistream.gz", vec![Payload::Ascii(0x1_0000), Payload::Ascii(0x1_0011)], 6));
    plan.push(fixture("incompressible_64k.gz", vec![Payload::Noise(0x1_0000)], 1));
    plan.push(fixture("fixed_small.gz", vec![Payload::Repeated(97, 10)], 9));
    plan.push(fixture("multistream_8m_x2.gz", vec![Payload::Ascii(0x80_0000), Payload::Ascii(0x80_03e7)], 6));
    plan.push(fixture("multistream_many.gz", many(), 6));
    plan.push(fixture("base64_32m.gz", vec![Payload::Base64(0x200_0000)], 6));
    if big {
        plan.push(fixture("base64_4gib.gz", vec![Payload::Base64(0x1_0000_0000)], 6));
    }
    assert forall|i: int| 0 <= i < plan@.len() implies (#[trigger] plan@[i])@ == planned_corpus(big)[i] by {
        assert(plan@[i]@.parts =~= planned_corpus(big)[i].parts);
    }
    plan
}

/// A longer payload begins with a shorter one.
pub proof fn law_payloads_are_prefixes(m: nat, n: nat)
    requires
        m <= n,
    ensures
        ascii_payload(n).take(m as int) == ascii_payload(m),
        noise_payload(n).take(m as int) == noise_payload(m),
        base64_payload(n).take(m as int) == base64_payload(m),
{
    assert(ascii_payload(n).take(m as int) =~= ascii_payload(m));
    assert(noise_payload(n).take(m as int) =~= noise_payload(m));
    assert(base64_payload(n).take(m as int) =~= base64_payload(m));
}

/// The SHA-256 digest of some bytes.
pub uninterp spec fn sha256(data: Seq<u8>) -> Seq<u8>;

/// The digest of `data`, by `sha2::Sha256::digest`.
///
/// Trusted: that it depends on the bytes alone and has 32 bytes.
#[verifier::external_body]
fn sha256_digest(data: &[u8]) -> (d: Vec<u8>)
    ensures
        d@ == sha256(data@),
        d@.len() == 32,
{
    sha2::Sha256::digest(data).to_vec()
}

/// The hexadecimal digit of `n`, which is below 16.
pub open spec fn hex_digit(n: int) -> char {
    if n < 10 {
        (48 + n) as char
    } else {
        (87 + n) as char
    }
}

/// Two lower-case hexadecimal digits for each byte, the high one first.
pub open spec fn hex_digits(data: Seq<u8>) -> Seq<char> {
    Seq::new(
        data.len() * 2,
        |i: int|
            if i % 2 == 0 {
                hex_digit(data[i / 2] as int / 16)
            } else {
                hex_digit(data[i / 2] as int % 16)
            },
    )
}

/// The hexadecimal form of `data`, by `hex::encode`.
///
/// Trusted: that it writes two lower-case digits for each byte, the high one first.
#[verifier::external_body]
fn hex_encode(data: &[u8]) -> (s: String)
    ensures
        s@ == hex_digits(data@),
{
    hex::encode(data)
}

/// A digest in hexadecimal.
pub fn digest_text(digest: &[u8]) -> (s: String)
    ensures
        s@ == hex_digits(digest@),
{
    hex_encode(digest)
}

/// The SHA-256 digest of `data` in hexadecimal.
pub fn sha256_of(data: &[u8]) -> (s: String)
    ensures
        s@ == hex_digits(sha256(data@)),
{
    digest_text(sha256_digest(data).as_slice())
}

/// A character of base64.
pub open spec fn is_base64(b: u8) -> bool {
    65 <= b <= 90 || 97 <= b <= 122 || 48 <= b <= 57 || b == 43 || b == 47
}

/// Text payloads are made of printable characters, base64 ones of its alphabet.
pub proof fn law_payload_characters(n: nat, i: int)
    requires
        0 <= i < n,
    ensures
        32 <= ascii_payload(n)[i] <= 126,
        is_base64(base64_payload(n)[i]),
{
    lemma_state_bound(0x9E37_79B9_7F4A_7C15, (i + 1) as nat);
    lemma_state_bound(0xDEAD_BEEF_CAFE_F00D, (i + 1) as nat);
}

proof fn lemma_state_bound(seed: int, n: nat)
    requires
        n > 0,
    ensures
        0 <= lcg_at(seed, n) < 0x1_0000_0000_0000_0000,
{
    let s = lcg_at(seed, (n - 1) as nat);
    vstd::arithmetic::div_mod::lemma_mod_bound(s * 6364136223846793005 + 1442695040888963407, 0x1_0000_0000_0000_0000);
}

/// A hexadecimal digit, as a number.
pub open spec fn digit_value(c: char) -> int {
    if '0' <= c && c <= '9' {
        c as int - '0' as int
    } else if 'a' <= c && c <= 'f' {
        10 + (c as int - 'a' as int)
    } else {
        -1
    }
}

/// The bytes can be read back from their hexadecimal form.
pub proof fn law_hex_reads_back(data: Seq<u8>, i: int)
    requires
        0 <= i < data.len(),
    ensures
        hex_digits(data).len() == 2 * data.len(),
        digit_value(hex_digits(data)[2 * i]) * 16 + digit_value(hex_digits(data)[2 * i + 1]) == data[i],
{
    assert((2 * i) % 2 == 0 && (2 * i) / 2 == i && (2 * i + 1) % 2 == 1 && (2 * i + 1) / 2 == i);
}

/// `n` bytes from byte `i` on as a number, the lowest first.
pub open spec fn le_number(s: Seq<u8>, i: int, n: nat) -> int
    decreases n,
{
    if n == 0 {
        0
    } else {
        s[i] + 256 * le_number(s, i + 1, (n - 1) as nat)
    }
}

proof fn lemma_shifted(x: int, j: nat)
    requires
        0 <= x,
    ensures
        x / pow2(8 * j) as int == (x / pow2(8 * j) as int) % 256 + 256 * (x / pow2(8 * (j + 1)) as int),
{
    let d = pow2(8 * j) as int;
    lemma_pow2_pos(8 * j);
    lemma_pow2_adds(8 * j, 8);
    lemma2_to64();
    assert(8 * j + 8 == 8 * (j + 1));
    vstd::arithmetic::div_mod::lemma_div_denominator(x, d, 256);
}

/// The last bytes of a state, from byte `j` on.
proof fn lemma_noise_from(n: nat, k: nat, j: nat)
    requires
        8 * k + 8 <= n,
        j <= 8,
    ensures
        le_number(noise_payload(n), (8 * k + j) as int, (8 - j) as nat) == lcg_at(0xA1B2_C3D4_E5F6_0718, k + 1) / pow2(
            8 * j,
        ) as int,
    decreases 8 - j,
{
    let s = lcg_at(0xA1B2_C3D4_E5F6_0718, k + 1);
    lemma_state_bound(0xA1B2_C3D4_E5F6_0718, k + 1);
    if j < 8 {
        lemma_noise_from(n, k, j + 1);
        lemma_noise_byte(n, k, j as int);
        lemma_shifted(s, j);
    } else {
        lemma2_to64();
        assert(s / 0x1_0000_0000_0000_0000 == 0);
    }
}

proof fn lemma_noise_byte(n: nat, k: nat, j: int)
    requires
        8 * k + 8 <= n,
        0 <= j < 8,
    ensures
        noise_payload(n)[8 * k + j] == le_byte(lcg_at(0xA1B2_C3D4_E5F6_0718, k + 1), j),
{
    assert((8 * k + j) / 8 == k && (8 * k + j) % 8 == j);
}

/// In the noise, each eight bytes follow from the eight before them by the linear
/// congruence.
pub proof fn law_noise_follows(n: nat, k: nat)
    requires
        8 * k + 16 <= n,
    ensures
        ({
            let eight = le_number(noise_payload(n), (8 * k) as int, 8);
            let next = le_number(noise_payload(n), (8 * k + 8) as int, 8);
            next == (6364136223846793005 * eight + 1442695040888963407) % 0x1_0000_0000_0000_0000
        }),
{
    lemma_noise_from(n, k, 0);
    lemma_noise_from(n, k + 1, 0);
    lemma2_to64();
    assert(8 * (k + 1) + 0 == 8 * k + 8);
}

/// The alphabet: capital letters, small letters, digits, and `+` and `/`, in order.
pub proof fn law_base64_alphabet(i: int)
    requires
        0 <= i < 64,
    ensures
        i < 26 ==> BASE64[i] == 65 + i,
        26 <= i < 52 ==> BASE64[i] == 97 + (i - 26),
        52 <= i < 62 ==> BASE64[i] == 48 + (i - 52),
        i == 62 ==> BASE64[i] == 43,
        i == 63 ==> BASE64[i] == 47,
{
}

} // verus!
