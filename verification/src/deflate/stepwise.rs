//! Decoding several streams at once, one symbol from each in turn.
//!
//! Each stream is a lane of its own; taking turns changes nothing of what a
//! lane decodes to. A lane that runs out of input at a symbol ends there, and
//! the complement of a stored block's length is not looked at.
use vstd::prelude::*;
use crate::deflate::DeflateError;
use crate::deflate::bit_reader::{BitReader, addressable};
use crate::deflate::bits::{bits_at, bit_len, align_up, lemma_bits_bound, lemma_bits_byte};
use crate::deflate::format::{
    Symbol, Decoded, Codes, Body, block, body_at, run, symbol_at, until, lemma_block_advances, lemma_until_step,
    match_at, copy_back, dynamic_header, stored_bytes, stored_end, lemma_symbol_advances, lemma_dynamic_header_advances,
};
use crate::deflate::canonical::lookup_at;
use crate::deflate::huffman::{HuffmanDecoder, Encoding, HUFFDEC_EXCEPTIONAL, HUFFDEC_LITERAL};
use crate::deflate::inflate::{fixed_decoders, read_block_bits, read_dynamic_header};
use crate::deflate::symbols::{append_match, lemma_litlen_entry, lemma_symbol_bounds, read_match};
use crate::deflate::tables::{fixed_distances, fixed_literals};

verus! {

/// The symbol at `p` and the position after it.
pub open spec fn lane_symbol(lit: Seq<u8>, dist: Seq<u8>, input: Seq<u8>, p: int) -> Result<(Symbol, int), DeflateError> {
    match lookup_at(lit, input, p) {
        Err(e) => Err(e),
        Ok(s) => if s < 256 {
            Ok((Symbol::Literal(s as u8), p + lit[s]))
        } else if s == 256 {
            Ok((Symbol::EndOfBlock, p + lit[s]))
        } else if s > 285 {
            Err(DeflateError::Invalid("litlen symbol out of range"))
        } else {
            match_at(dist, input, p + lit[s], s - 257)
        },
    }
}

pub proof fn lemma_lane_symbol(lit: Seq<u8>, dist: Seq<u8>, input: Seq<u8>, p: int)
    ensures
        match lane_symbol(lit, dist, input, p) {
            Ok((sym, q)) => p < q <= bit_len(input) && match sym {
                Symbol::Match { length, distance } => 3 <= length <= 258 && 1 <= distance <= 32768,
                _ => true,
            },
            Err(_) => true,
        },
{
    lemma_symbol_advances(lit, dist, input, p);
    lemma_symbol_bounds(lit, dist, input, p);
}

/// Decodes symbols from `p` on, up to the end of the block or of the input. On
/// success: the position after the block, if its end was reached.
#[verifier::opaque]
pub open spec fn lane_run(lit: Seq<u8>, dist: Seq<u8>, input: Seq<u8>, p: int, out: Seq<u8>) -> Decoded<u8, Option<int>>
    decreases bit_len(input) - p,
{
    proof {
        lemma_lane_symbol(lit, dist, input, p);
    }
    match lane_symbol(lit, dist, input, p) {
        Err(DeflateError::UnexpectedEof) => Decoded { out, end: Ok(None) },
        Err(e) => Decoded { out, end: Err(e) },
        Ok((Symbol::EndOfBlock, q)) => Decoded { out, end: Ok(Some(q)) },
        Ok((Symbol::Literal(b), q)) => lane_run(lit, dist, input, q, out.push(b)),
        Ok((Symbol::Match { length, distance }, q)) => if distance > out.len() {
            Decoded { out, end: Err(DeflateError::Invalid("back-reference distance out of bounds")) }
        } else {
            lane_run(lit, dist, input, q, copy_back(out, distance, length))
        },
    }
}

/// What follows the three header bits of a block: its bytes, or its codes.
pub enum LaneBody {
    Stored { from: int, len: int },
    Compressed(Codes),
}

/// The body of a block of type `btype` whose header bits end at `p`.
pub open spec fn lane_body(input: Seq<u8>, p: int, btype: nat) -> Result<LaneBody, DeflateError> {
    if btype == 0 {
        let q = align_up(p);
        if bit_len(input) - q < 32 {
            Err(DeflateError::UnexpectedEof)
        } else {
            Ok(LaneBody::Stored { from: q / 8 + 4, len: bits_at(input, q, 16) as int })
        }
    } else if btype == 1 {
        Ok(LaneBody::Compressed(Codes { lit: fixed_literals(), dist: fixed_distances(), at: p }))
    } else if btype == 2 {
        match dynamic_header(input, p, false) {
            Err(e) => Err(e),
            Ok(c) => Ok(LaneBody::Compressed(c)),
        }
    } else {
        Err(DeflateError::Invalid("reserved block type"))
    }
}

/// Decodes the block at `p`. On success: the position after it, if its end was reached.
pub open spec fn lane_block(input: Seq<u8>, p: int, out: Seq<u8>) -> Decoded<u8, Option<int>> {
    if bit_len(input) - p < 3 {
        Decoded { out, end: Err(DeflateError::UnexpectedEof) }
    } else {
        match lane_body(input, p + 3, bits_at(input, p + 1, 2)) {
            Err(e) => Decoded { out, end: Err(e) },
            Ok(LaneBody::Stored { from, len }) => Decoded {
                out: out + stored_bytes(input, from, len),
                end: match stored_end(input, from, len) {
                    Err(e) => Err(e),
                    Ok(q) => Ok(Some(q)),
                },
            },
            Ok(LaneBody::Compressed(c)) => lane_run(c.lit, c.dist, input, c.at, out),
        }
    }
}

/// Decodes blocks from `p` on, up to the last one or to the end of the input.
#[verifier::opaque]
pub open spec fn lane(input: Seq<u8>, p: int, out: Seq<u8>) -> Decoded<u8, ()>
    decreases bit_len(input) - p,
{
    proof {
        lemma_lane_block_advances(input, p, out);
    }
    let b = lane_block(input, p, out);
    match b.end {
        Err(e) => Decoded { out: b.out, end: Err(e) },
        Ok(None) => Decoded { out: b.out, end: Ok(()) },
        Ok(Some(q)) => if bits_at(input, p, 1) == 1 {
            Decoded { out: b.out, end: Ok(()) }
        } else {
            lane(input, q, b.out)
        },
    }
}

/// Goes on after a block.
pub open spec fn after_lane_block(input: Seq<u8>, b: Decoded<u8, Option<int>>, last: bool) -> Decoded<u8, ()> {
    match b.end {
        Err(e) => Decoded { out: b.out, end: Err(e) },
        Ok(None) => Decoded { out: b.out, end: Ok(()) },
        Ok(Some(q)) => if last {
            Decoded { out: b.out, end: Ok(()) }
        } else {
            lane(input, q, b.out)
        },
    }
}

pub proof fn lemma_lane_run_advances(lit: Seq<u8>, dist: Seq<u8>, input: Seq<u8>, p: int, out: Seq<u8>)
    ensures
        match lane_run(lit, dist, input, p, out).end {
            Ok(Some(q)) => p < q <= bit_len(input),
            _ => true,
        },
    decreases bit_len(input) - p,
{
    reveal(lane_run);
    lemma_lane_symbol(lit, dist, input, p);
    match lane_symbol(lit, dist, input, p) {
        Ok((Symbol::Literal(b), q)) => {
            lemma_lane_run_advances(lit, dist, input, q, out.push(b));
        },
        Ok((Symbol::Match { length, distance }, q)) => {
            if distance <= out.len() {
                lemma_lane_run_advances(lit, dist, input, q, copy_back(out, distance, length));
            }
        },
        _ => {},
    }
}

pub proof fn lemma_lane_block_advances(input: Seq<u8>, p: int, out: Seq<u8>)
    ensures
        match lane_block(input, p, out).end {
            Ok(Some(q)) => p < q <= bit_len(input),
            _ => true,
        },
{
    if bit_len(input) - p >= 3 {
        lemma_dynamic_header_advances(input, p + 3, false);
        if let Ok(LaneBody::Compressed(c)) = lane_body(input, p + 3, bits_at(input, p + 1, 2)) {
            lemma_lane_run_advances(c.lit, c.dist, input, c.at, out);
        }
    }
}

/// A stream that is decoded a step at a time: where it stands, what it has
/// decoded, the codes of the block that it is in, and whether that is the last.
pub ghost struct LaneState {
    pub input: Seq<u8>,
    pub p: int,
    pub out: Seq<u8>,
    pub in_block: bool,
    pub lit: Seq<u8>,
    pub dist: Seq<u8>,
    pub last: bool,
    pub done: bool,
}

impl LaneState {
    /// The lane stands inside its input, and not in a block once it is done.
    pub open spec fn wf(self) -> bool {
        &&& 0 <= self.p <= bit_len(self.input)
        &&& self.in_block ==> !self.done
    }

    /// How many steps there can be at most.
    pub open spec fn steps_left(self) -> int {
        if self.done {
            0
        } else {
            bit_len(self.input) - self.p + 1
        }
    }

    /// What the lane decodes to in the end.
    pub open spec fn result(self) -> Decoded<u8, ()> {
        if self.done {
            Decoded { out: self.out, end: Ok(()) }
        } else if self.in_block {
            after_lane_block(self.input, lane_run(self.lit, self.dist, self.input, self.p, self.out), self.last)
        } else {
            lane(self.input, self.p, self.out)
        }
    }

    /// Outside of a block, at bit `p`.
    pub open spec fn between(self, p: int, out: Seq<u8>, last: bool, done: bool) -> LaneState {
        LaneState { input: self.input, p, out, in_block: false, lit: Seq::empty(), dist: Seq::empty(), last, done }
    }
}

/// A lane before its first block.
pub open spec fn first_state(input: Seq<u8>) -> LaneState {
    LaneState {
        input,
        p: 0,
        out: Seq::empty(),
        in_block: false,
        lit: Seq::empty(),
        dist: Seq::empty(),
        last: false,
        done: false,
    }
}

/// Starts the next block; one of bytes as they are is over at once.
pub open spec fn started(s: LaneState) -> Result<LaneState, DeflateError> {
    if bit_len(s.input) - s.p < 3 {
        Err(DeflateError::UnexpectedEof)
    } else {
        let last = bits_at(s.input, s.p, 1) == 1;
        match lane_body(s.input, s.p + 3, bits_at(s.input, s.p + 1, 2)) {
            Err(e) => Err(e),
            Ok(LaneBody::Stored { from, len }) => match stored_end(s.input, from, len) {
                Err(e) => Err(e),
                Ok(q) => Ok(s.between(q, s.out + stored_bytes(s.input, from, len), last, last)),
            },
            Ok(LaneBody::Compressed(c)) => Ok(
                LaneState { p: c.at, in_block: true, lit: c.lit, dist: c.dist, last, ..s },
            ),
        }
    }
}

/// Decodes one symbol of a block. A lane without enough input is done.
pub open spec fn stepped(s: LaneState) -> Result<LaneState, DeflateError> {
    match lane_symbol(s.lit, s.dist, s.input, s.p) {
        Err(DeflateError::UnexpectedEof) => Ok(s.between(s.p, s.out, s.last, true)),
        Err(e) => Err(e),
        Ok((Symbol::EndOfBlock, q)) => Ok(s.between(q, s.out, s.last, s.last)),
        Ok((Symbol::Literal(b), q)) => Ok(LaneState { p: q, out: s.out.push(b), ..s }),
        Ok((Symbol::Match { length, distance }, q)) => if distance > s.out.len() {
            Err(DeflateError::Invalid("back-reference distance out of bounds"))
        } else {
            Ok(LaneState { p: q, out: copy_back(s.out, distance, length), ..s })
        },
    }
}

/// A step leads on, and does not change what comes out in the end.
pub proof fn lemma_started(s: LaneState)
    requires
        s.wf(),
        !s.done,
        !s.in_block,
    ensures
        match started(s) {
            Ok(t) => t.wf() && t.input == s.input && t.result() == s.result() && 0 <= t.steps_left() < s.steps_left(),
            Err(e) => s.result().end == Err::<(), DeflateError>(e),
        },
{
    reveal(lane);
    lemma_dynamic_header_advances(s.input, s.p + 3, false);
}

pub proof fn lemma_stepped(s: LaneState)
    requires
        s.wf(),
        s.in_block,
    ensures
        match stepped(s) {
            Ok(t) => t.wf() && t.input == s.input && t.result() == s.result() && 0 <= t.steps_left() < s.steps_left(),
            Err(e) => s.result().end == Err::<(), DeflateError>(e),
        },
{
    reveal(lane_run);
    lemma_lane_symbol(s.lit, s.dist, s.input, s.p);
}

/// Decodes a lane up to the end of its block.
pub open spec fn drained(s: LaneState) -> Result<LaneState, DeflateError>
    decreases s.steps_left(),
{
    proof {
        if s.wf() && s.in_block {
            lemma_stepped(s);
        }
    }
    if !s.wf() || !s.in_block {
        Ok(s)
    } else {
        match stepped(s) {
            Err(e) => Err(e),
            Ok(t) => drained(t),
        }
    }
}

pub proof fn lemma_drained(s: LaneState)
    requires
        s.wf(),
    ensures
        match drained(s) {
            Ok(t) => {
                &&& t.wf() && !t.in_block && t.input == s.input && t.result() == s.result()
                &&& 0 <= t.steps_left() <= s.steps_left()
                &&& s.in_block ==> t.steps_left() < s.steps_left()
            },
            Err(e) => s.result().end == Err::<(), DeflateError>(e),
        },
    decreases s.steps_left(),
{
    if s.in_block {
        lemma_stepped(s);
        if let Ok(t) = stepped(s) {
            lemma_drained(t);
        }
    }
}

/// Starts a block in each lane from number `k` on that needs one.
pub open spec fn all_started(ss: Seq<LaneState>, k: int) -> Result<Seq<LaneState>, DeflateError>
    decreases ss.len() - k,
{
    if k < 0 || k >= ss.len() {
        Ok(ss)
    } else if ss[k].in_block || ss[k].done {
        all_started(ss, k + 1)
    } else {
        match started(ss[k]) {
            Err(e) => Err(e),
            Ok(t) => all_started(ss.update(k, t), k + 1),
        }
    }
}

/// Decodes one symbol in each lane from number `k` on.
pub open spec fn all_stepped(ss: Seq<LaneState>, k: int) -> Result<Seq<LaneState>, DeflateError>
    decreases ss.len() - k,
{
    if k < 0 || k >= ss.len() {
        Ok(ss)
    } else {
        match stepped(ss[k]) {
            Err(e) => Err(e),
            Ok(t) => all_stepped(ss.update(k, t), k + 1),
        }
    }
}

/// Decodes each lane from number `k` on up to the end of its block.
pub open spec fn all_drained(ss: Seq<LaneState>, k: int) -> Result<Seq<LaneState>, DeflateError>
    decreases ss.len() - k,
{
    if k < 0 || k >= ss.len() {
        Ok(ss)
    } else {
        match drained(ss[k]) {
            Err(e) => Err(e),
            Ok(t) => all_drained(ss.update(k, t), k + 1),
        }
    }
}

pub open spec fn all_wf(ss: Seq<LaneState>) -> bool {
    forall|i: int| 0 <= i < ss.len() ==> (#[trigger] ss[i]).wf()
}

pub open spec fn all_in_block(ss: Seq<LaneState>) -> bool {
    forall|i: int| 0 <= i < ss.len() ==> (#[trigger] ss[i]).in_block
}

pub open spec fn all_done(ss: Seq<LaneState>) -> bool {
    forall|i: int| 0 <= i < ss.len() ==> (#[trigger] ss[i]).done
}

/// How many steps there can be at most in the first `n` lanes.
pub open spec fn total_steps(ss: Seq<LaneState>, n: int) -> int
    decreases n,
{
    if n <= 0 {
        0
    } else {
        total_steps(ss, n - 1) + ss[n - 1].steps_left()
    }
}

/// The lanes `b` come after the lanes `a`: nothing has changed of what comes
/// out in the end.
pub open spec fn follows(a: Seq<LaneState>, b: Seq<LaneState>) -> bool {
    &&& a.len() == b.len()
    &&& all_wf(b)
    &&& forall|i: int|
        #![trigger a[i]]
        #![trigger b[i]]
        0 <= i < a.len() ==> b[i].input == a[i].input && b[i].result() == a[i].result() && 0 <= b[i].steps_left()
            <= a[i].steps_left()
}

/// One of the lanes fails with `e`.
pub open spec fn one_fails(ss: Seq<LaneState>, e: DeflateError) -> bool {
    exists|i: int| 0 <= i < ss.len() && (#[trigger] ss[i]).result().end == Err::<(), DeflateError>(e)
}

proof fn lemma_total(a: Seq<LaneState>, b: Seq<LaneState>, n: int)
    requires
        follows(a, b),
        0 <= n <= a.len(),
    ensures
        0 <= total_steps(b, n) <= total_steps(a, n),
        (exists|i: int| 0 <= i < n && (#[trigger] b[i]).steps_left() < a[i].steps_left()) ==> total_steps(b, n)
            < total_steps(a, n),
    decreases n,
{
    if n > 0 {
        lemma_total(a, b, n - 1);
        assert(b[n - 1].steps_left() <= a[n - 1].steps_left());
        if exists|i: int| 0 <= i < n && (#[trigger] b[i]).steps_left() < a[i].steps_left() {
            let i = choose|i: int| 0 <= i < n && (#[trigger] b[i]).steps_left() < a[i].steps_left();
            if i < n - 1 {
                assert(b[i].steps_left() < a[i].steps_left());
            }
        }
    }
}

proof fn lemma_follows_trans(a: Seq<LaneState>, b: Seq<LaneState>, c: Seq<LaneState>)
    requires
        follows(a, b),
        follows(b, c),
    ensures
        follows(a, c),
{
    assert forall|i: int| 0 <= i < a.len() implies (#[trigger] c[i]).input == a[i].input && c[i].result() == a[i].result()
        && 0 <= c[i].steps_left() <= a[i].steps_left() by {
        assert(b[i].input == a[i].input);
    }
}

proof fn lemma_fails_before(a: Seq<LaneState>, b: Seq<LaneState>, e: DeflateError)
    requires
        follows(a, b),
        one_fails(b, e),
    ensures
        one_fails(a, e),
{
    let i = choose|i: int| 0 <= i < b.len() && (#[trigger] b[i]).result().end == Err::<(), DeflateError>(e);
    assert(a[i].result() == b[i].result());
}

proof fn lemma_follows_self(a: Seq<LaneState>)
    requires
        all_wf(a),
    ensures
        follows(a, a),
{
    assert forall|i: int| 0 <= i < a.len() implies 0 <= (#[trigger] a[i]).steps_left() by {
        assert(a[i].wf());
    }
}

/// Putting one lane a step further.
proof fn lemma_follows_update(a: Seq<LaneState>, k: int, t: LaneState)
    requires
        all_wf(a),
        0 <= k < a.len(),
        t.wf(),
        t.input == a[k].input,
        t.result() == a[k].result(),
        0 <= t.steps_left() <= a[k].steps_left(),
    ensures
        follows(a, a.update(k, t)),
{
    lemma_follows_self(a);
    let b = a.update(k, t);
    assert forall|i: int| 0 <= i < b.len() implies (#[trigger] b[i]).wf() by {
        assert(a[i].wf());
    }
}

pub proof fn lemma_all_started(ss: Seq<LaneState>, k: int)
    requires
        all_wf(ss),
        0 <= k <= ss.len(),
    ensures
        match all_started(ss, k) {
            Ok(t) => {
                &&& follows(ss, t)
                &&& forall|i: int|
                    0 <= i < ss.len() ==> if i >= k && !ss[i].in_block && !ss[i].done {
                        (#[trigger] t[i]).steps_left() < ss[i].steps_left()
                    } else {
                        t[i] == ss[i]
                    }
            },
            Err(e) => one_fails(ss, e),
        },
    decreases ss.len() - k,
{
    lemma_follows_self(ss);
    if k < ss.len() {
        assert(ss[k].wf());
        if ss[k].in_block || ss[k].done {
            lemma_all_started(ss, k + 1);
        } else {
            lemma_started(ss[k]);
            match started(ss[k]) {
                Err(e) => {
                    assert(ss[k].result().end == Err::<(), DeflateError>(e));
                },
                Ok(t) => {
                    let s1 = ss.update(k, t);
                    lemma_follows_update(ss, k, t);
                    lemma_all_started(s1, k + 1);
                    match all_started(s1, k + 1) {
                        Err(e) => {
                            lemma_fails_before(ss, s1, e);
                        },
                        Ok(u) => {
                            lemma_follows_trans(ss, s1, u);
                            assert(u[k] == s1[k]);
                        },
                    }
                },
            }
        }
    }
}

proof fn lemma_all_stepped(ss: Seq<LaneState>, k: int)
    requires
        all_wf(ss),
        0 <= k <= ss.len(),
        forall|i: int| k <= i < ss.len() ==> (#[trigger] ss[i]).in_block,
    ensures
        match all_stepped(ss, k) {
            Ok(t) => {
                &&& follows(ss, t)
                &&& forall|i: int| k <= i < ss.len() ==> (#[trigger] t[i]).steps_left() < ss[i].steps_left()
                &&& forall|i: int| 0 <= i < k ==> #[trigger] t[i] == ss[i]
            },
            Err(e) => one_fails(ss, e),
        },
    decreases ss.len() - k,
{
    lemma_follows_self(ss);
    if k < ss.len() {
        assert(ss[k].wf() && ss[k].in_block);
        lemma_stepped(ss[k]);
        match stepped(ss[k]) {
            Err(e) => {
                assert(ss[k].result().end == Err::<(), DeflateError>(e));
            },
            Ok(t) => {
                let s1 = ss.update(k, t);
                lemma_follows_update(ss, k, t);
                assert forall|i: int| k + 1 <= i < s1.len() implies (#[trigger] s1[i]).in_block by {
                    assert(ss[i].in_block);
                }
                lemma_all_stepped(s1, k + 1);
                match all_stepped(s1, k + 1) {
                    Err(e) => {
                        lemma_fails_before(ss, s1, e);
                    },
                    Ok(u) => {
                        lemma_follows_trans(ss, s1, u);
                        assert(u[k] == s1[k]);
                    },
                }
            },
        }
    }
}

proof fn lemma_all_drained(ss: Seq<LaneState>, k: int)
    requires
        all_wf(ss),
        0 <= k <= ss.len(),
    ensures
        match all_drained(ss, k) {
            Ok(t) => {
                &&& follows(ss, t)
                &&& forall|i: int|
                    k <= i < ss.len() && ss[i].in_block ==> (#[trigger] t[i]).steps_left() < ss[i].steps_left()
                &&& forall|i: int| 0 <= i < k ==> #[trigger] t[i] == ss[i]
            },
            Err(e) => one_fails(ss, e),
        },
    decreases ss.len() - k,
{
    lemma_follows_self(ss);
    if k < ss.len() {
        assert(ss[k].wf());
        lemma_drained(ss[k]);
        match drained(ss[k]) {
            Err(e) => {
                assert(ss[k].result().end == Err::<(), DeflateError>(e));
            },
            Ok(t) => {
                let s1 = ss.update(k, t);
                lemma_follows_update(ss, k, t);
                lemma_all_drained(s1, k + 1);
                match all_drained(s1, k + 1) {
                    Err(e) => {
                        lemma_fails_before(ss, s1, e);
                    },
                    Ok(u) => {
                        lemma_follows_trans(ss, s1, u);
                        assert(u[k] == s1[k]);
                    },
                }
            },
        }
    }
}

/// Decodes one symbol in each lane in turn, until a lane is at the end of its block.
pub open spec fn in_lockstep(ss: Seq<LaneState>) -> Result<Seq<LaneState>, DeflateError>
    decreases total_steps(ss, ss.len() as int),
{
    proof {
        if all_wf(ss) && all_in_block(ss) && ss.len() > 0 {
            lemma_lockstep_shrinks(ss);
        }
    }
    if !all_wf(ss) || !all_in_block(ss) || ss.len() == 0 {
        Ok(ss)
    } else {
        match all_stepped(ss, 0) {
            Err(e) => Err(e),
            Ok(t) => in_lockstep(t),
        }
    }
}

pub proof fn lemma_lockstep_shrinks(ss: Seq<LaneState>)
    requires
        all_wf(ss),
        all_in_block(ss),
        ss.len() > 0,
    ensures
        match all_stepped(ss, 0) {
            Ok(t) => {
                &&& follows(ss, t)
                &&& 0 <= total_steps(t, t.len() as int) < total_steps(ss, ss.len() as int)
                &&& t[0].steps_left() < ss[0].steps_left()
            },
            Err(e) => one_fails(ss, e),
        },
{
    lemma_all_stepped(ss, 0);
    if let Ok(t) = all_stepped(ss, 0) {
        assert(t[0].steps_left() < ss[0].steps_left());
        lemma_total(ss, t, ss.len() as int);
    }
}

proof fn lemma_in_lockstep(ss: Seq<LaneState>)
    requires
        all_wf(ss),
    ensures
        match in_lockstep(ss) {
            Ok(t) => {
                &&& follows(ss, t)
                &&& all_in_block(ss) && ss.len() > 0 ==> t[0].steps_left() < ss[0].steps_left()
            },
            Err(e) => one_fails(ss, e),
        },
    decreases total_steps(ss, ss.len() as int),
{
    lemma_follows_self(ss);
    if all_in_block(ss) && ss.len() > 0 {
        lemma_lockstep_shrinks(ss);
        if let Ok(t) = all_stepped(ss, 0) {
            lemma_in_lockstep(t);
            match in_lockstep(t) {
                Err(e) => {
                    lemma_fails_before(ss, t, e);
                },
                Ok(u) => {
                    lemma_follows_trans(ss, t, u);
                    assert(u[0].steps_left() <= t[0].steps_left());
                },
            }
        }
    }
}

/// One round: starts the blocks that are to be started; then, if all lanes are in
/// a block, decodes them in lockstep, or else each up to the end of its block.
#[verifier::opaque]
pub open spec fn one_round(ss: Seq<LaneState>) -> Result<Seq<LaneState>, DeflateError> {
    match all_started(ss, 0) {
        Err(e) => Err(e),
        Ok(t) => if all_in_block(t) {
            in_lockstep(t)
        } else {
            all_drained(t, 0)
        },
    }
}

/// A round leads on, and does not change what comes out in the end.
pub proof fn lemma_one_round(ss: Seq<LaneState>)
    requires
        all_wf(ss),
        !all_done(ss),
    ensures
        match one_round(ss) {
            Ok(t) => {
                &&& follows(ss, t)
                &&& 0 <= total_steps(t, t.len() as int) < total_steps(ss, ss.len() as int)
            },
            Err(e) => one_fails(ss, e),
        },
{
    reveal(one_round);
    lemma_all_started(ss, 0);
    let j = choose|j: int| 0 <= j < ss.len() && !(#[trigger] ss[j]).done;
    if let Ok(t) = all_started(ss, 0) {
        let r = one_round(ss);
        lemma_in_lockstep(t);
        lemma_all_drained(t, 0);
        match r {
            Err(e) => {
                lemma_fails_before(ss, t, e);
            },
            Ok(u) => {
                lemma_follows_trans(ss, t, u);
                assert(t[j].steps_left() <= ss[j].steps_left());
                assert(u[j].steps_left() <= t[j].steps_left());
                if !ss[j].in_block {
                    assert(t[j].steps_left() < ss[j].steps_left());
                    assert(u[j].steps_left() < ss[j].steps_left());
                } else {
                    assert(t[j] == ss[j]);
                    if all_in_block(t) {
                        assert(t[0].steps_left() <= ss[0].steps_left());
                        assert(u[0].steps_left() < ss[0].steps_left());
                    } else {
                        assert(u[j].steps_left() < ss[j].steps_left());
                    }
                }
                lemma_total(ss, u, ss.len() as int);
            },
        }
    }
}

/// Rounds until all lanes are done.
#[verifier::opaque]
pub open spec fn rounds(ss: Seq<LaneState>) -> Result<Seq<LaneState>, DeflateError>
    decreases total_steps(ss, ss.len() as int),
{
    proof {
        if all_wf(ss) && !all_done(ss) {
            lemma_one_round(ss);
        }
    }
    if !all_wf(ss) || all_done(ss) {
        Ok(ss)
    } else {
        match one_round(ss) {
            Err(e) => Err(e),
            Ok(t) => rounds(t),
        }
    }
}

proof fn lemma_rounds_step(ss: Seq<LaneState>)
    requires
        all_wf(ss),
    ensures
        all_done(ss) ==> rounds(ss) == Ok::<Seq<LaneState>, DeflateError>(ss),
        !all_done(ss) ==> rounds(ss) == match one_round(ss) {
            Err(e) => Err(e),
            Ok(t) => rounds(t),
        },
{
    reveal(rounds);
}

proof fn lemma_rounds(ss: Seq<LaneState>)
    requires
        all_wf(ss),
    ensures
        match rounds(ss) {
            Ok(t) => follows(ss, t) && all_done(t),
            Err(e) => one_fails(ss, e),
        },
    decreases total_steps(ss, ss.len() as int),
{
    reveal(rounds);
    lemma_follows_self(ss);
    if !all_done(ss) {
        lemma_one_round(ss);
        if let Ok(t) = one_round(ss) {
            lemma_rounds(t);
            match rounds(t) {
                Err(e) => {
                    lemma_fails_before(ss, t, e);
                },
                Ok(u) => {
                    lemma_follows_trans(ss, t, u);
                },
            }
        }
    }
}

/// The lanes of some streams before their first blocks.
pub open spec fn first_states(inputs: Seq<Seq<u8>>) -> Seq<LaneState> {
    Seq::new(inputs.len(), |i: int| first_state(inputs[i]))
}

/// What streams decode to that are decoded in turn. The first error that comes
/// up ends it.
pub open spec fn interleaved(inputs: Seq<Seq<u8>>) -> Result<Seq<Seq<u8>>, DeflateError> {
    match rounds(first_states(inputs)) {
        Err(e) => Err(e),
        Ok(ss) => Ok(Seq::new(ss.len(), |i: int| ss[i].out)),
    }
}

/// The bytes of some streams.
pub open spec fn contents(inputs: Seq<&[u8]>) -> Seq<Seq<u8>> {
    Seq::new(inputs.len(), |i: int| inputs[i]@)
}

/// What a stream decodes to in a lane of its own.
pub open spec fn lane_of(input: Seq<u8>) -> Decoded<u8, ()> {
    lane(input, 0, Seq::empty())
}

/// Taking turns changes nothing of what each stream decodes to: all of them
/// decode if and only if each does on its own, to the same bytes, and an error
/// is that of one of them.
pub proof fn law_interleaved_is_alone(inputs: Seq<Seq<u8>>)
    ensures
        match interleaved(inputs) {
            Ok(outs) => outs.len() == inputs.len() && forall|i: int|
                0 <= i < inputs.len() ==> lane_of(#[trigger] inputs[i]) == (Decoded {
                    out: outs[i],
                    end: Ok::<(), DeflateError>(()),
                }),
            Err(e) => exists|i: int|
                0 <= i < inputs.len() && lane_of(#[trigger] inputs[i]).end == Err::<(), DeflateError>(e),
        },
{
    let ss = first_states(inputs);
    lemma_rounds(ss);
    match rounds(ss) {
        Ok(t) => {
            let outs = interleaved(inputs)->Ok_0;
            assert forall|i: int| 0 <= i < inputs.len() implies lane_of(#[trigger] inputs[i]) == (Decoded {
                out: outs[i],
                end: Ok::<(), DeflateError>(()),
            }) by {
                assert(t[i].result() == ss[i].result());
                assert(t[i].done);
            }
        },
        Err(e) => {
            let i = choose|i: int| 0 <= i < ss.len() && (#[trigger] ss[i]).result().end == Err::<(), DeflateError>(e);
            assert(lane_of(inputs[i]).end == Err::<(), DeflateError>(e));
        },
    }
}

/// One stream, decoded a step at a time.
struct Lane<'a> {
    br: BitReader<'a>,
    lit: HuffmanDecoder,
    dist: HuffmanDecoder,
    out: Vec<u8>,
    in_block: bool,
    bfinal: bool,
    done: bool,
}

impl<'a> View for Lane<'a> {
    type V = LaneState;

    closed spec fn view(&self) -> LaneState {
        LaneState {
            input: self.br.stream(),
            p: self.br.pos(),
            out: self.out@,
            in_block: self.in_block,
            lit: if self.in_block {
                self.lit.lengths()
            } else {
                Seq::empty()
            },
            dist: if self.in_block {
                self.dist.lengths()
            } else {
                Seq::empty()
            },
            last: self.bfinal,
            done: self.done,
        }
    }
}

impl<'a> Lane<'a> {
    spec fn wf(&self) -> bool {
        &&& self.br.wf()
        &&& self@.wf()
        &&& self.in_block ==> self.lit.wf() && self.lit.encoding() == Encoding::LitLen && self.dist.wf()
            && self.dist.encoding() == Encoding::Dist
    }

    fn new(input: &'a [u8]) -> (l: Lane<'a>)
        requires
            addressable(input@),
        ensures
            l.wf(),
            l@ == first_state(input@),
    {
        let l = Lane {
            br: BitReader::new(input),
            lit: HuffmanDecoder::new_empty(),
            dist: HuffmanDecoder::new_empty(),
            out: Vec::new(),
            in_block: false,
            bfinal: false,
            done: false,
        };
        assert(l.out@ =~= Seq::<u8>::empty());
        l
    }

    /// Copies the bytes of a stored block.
    fn copy_stored(&mut self) -> (r: Result<(), DeflateError>)
        requires
            old(self).br.wf(),
        ensures
            final(self).br.wf(),
            final(self).br.stream() == old(self).br.stream(),
            final(self).bfinal == old(self).bfinal,
            final(self).done == old(self).done,
            final(self).in_block == old(self).in_block,
            match lane_body(old(self).br.stream(), old(self).br.pos(), 0) {
                Ok(LaneBody::Stored { from, len }) => match stored_end(old(self).br.stream(), from, len) {
                    Ok(q) => r is Ok && final(self).br.pos() == q && final(self).out@ == old(self).out@ + stored_bytes(
                        old(self).br.stream(),
                        from,
                        len,
                    ),
                    Err(e) => r == Err::<(), DeflateError>(e),
                },
                Ok(_) => false,
                Err(e) => r == Err::<(), DeflateError>(e),
            },
    {
        self.br.byte_align();
        let ghost q = self.br.pos();
        let ghost input = self.br.stream();
        proof {
            self.br.lemma_wf();
            lemma_bits_bound(input, q, 16);
            vstd::arithmetic::power2::lemma2_to64();
        }
        let len: u32 = match self.br.read(16) {
            Ok(v) => v,
            Err(e) => {
                return Err(e);
            },
        };
        match self.br.read(16) {
            Ok(_) => {},
            Err(e) => {
                return Err(e);
            },
        }
        proof {
            self.br.lemma_wf();
        }
        let ghost from = q / 8 + 4;
        let mut i: u32 = 0;
        assert(self.out@ =~= old(self).out@ + input.subrange(from, from));
        while i < len
            invariant
                i <= len,
                self.br.wf(),
                self.br.stream() == input,
                input == old(self).br.stream(),
                self.bfinal == old(self).bfinal,
                self.done == old(self).done,
                self.in_block == old(self).in_block,
                0 <= from,
                from + i <= input.len(),
                self.br.pos() == 8 * (from + i),
                self.out@ == old(self).out@ + input.subrange(from, from + i),
                lane_body(input, old(self).br.pos(), 0) == Ok::<LaneBody, DeflateError>(
                    LaneBody::Stored { from, len: len as int },
                ),
            decreases len - i,
        {
            match self.br.read(8) {
                Ok(v) => {
                    proof {
                        lemma_bits_byte(input, from + i);
                    }
                    self.out.push(v as u8);
                    assert(self.out@ =~= old(self).out@ + input.subrange(from, from + i + 1));
                },
                Err(e) => {
                    return Err(e);
                },
            }
            i = i + 1;
        }
        Ok(())
    }

    /// Starts the next block.
    fn start_block(&mut self) -> (r: Result<(), DeflateError>)
        requires
            old(self).wf(),
            !old(self).done,
            !old(self).in_block,
        ensures
            match started(old(self)@) {
                Ok(s) => r is Ok && final(self).wf() && final(self)@ == s,
                Err(e) => r == Err::<(), DeflateError>(e),
            },
    {
        let ghost p = self.br.pos();
        proof {
            self.br.lemma_wf();
            lemma_dynamic_header_advances(self.br.stream(), p + 3, false);
        }
        let (bfinal, btype) = match read_block_bits(&mut self.br) {
            Ok(v) => v,
            Err(e) => {
                return Err(e);
            },
        };
        self.bfinal = bfinal;
        match btype {
            0 => {
                match self.copy_stored() {
                    Ok(()) => {},
                    Err(e) => {
                        return Err(e);
                    },
                }
                self.done = bfinal;
            },
            1 => match fixed_decoders() {
                Ok((l, d)) => {
                    self.lit = l;
                    self.dist = d;
                    self.in_block = true;
                },
                Err(e) => {
                    return Err(e);
                },
            },
            2 => match read_dynamic_header(&mut self.br) {
                Ok((l, d)) => {
                    self.lit = l;
                    self.dist = d;
                    self.in_block = true;
                },
                Err(e) => {
                    return Err(e);
                },
            },
            _ => {
                return Err(DeflateError::Invalid("reserved block type"));
            },
        }
        proof {
            self.br.lemma_wf();
        }
        Ok(())
    }

    /// Decodes one symbol.
    fn step(&mut self) -> (r: Result<(), DeflateError>)
        requires
            old(self).wf(),
            old(self).in_block,
        ensures
            match stepped(old(self)@) {
                Ok(s) => r is Ok && final(self).wf() && final(self)@ == s,
                Err(e) => r == Err::<(), DeflateError>(e),
            },
    {
        let ghost input = self.br.stream();
        let ghost p = self.br.pos();
        proof {
            self.br.lemma_wf();
            self.lit.lemma_wf();
            lemma_lane_symbol(self.lit.lengths(), self.dist.lengths(), input, p);
        }
        let at: u64 = self.br.tell_bit();
        let entry: u32 = match self.lit.lookup(&mut self.br) {
            Ok(e) => e,
            Err(DeflateError::UnexpectedEof) => {
                self.done = true;
                self.in_block = false;
                return Ok(());
            },
            Err(e) => {
                return Err(e);
            },
        };
        let ghost s = lookup_at(self.lit.lengths(), input, p)->Ok_0;
        proof {
            lemma_litlen_entry(s, self.lit.lengths()[s] as int);
        }
        if entry & HUFFDEC_LITERAL != 0 {
            self.out.push(((entry >> 16) & 0xff) as u8);
            return Ok(());
        }
        if entry & HUFFDEC_EXCEPTIONAL != 0 {
            if entry >> 16 != 0 {
                return Err(DeflateError::Invalid("litlen symbol out of range"));
            }
            self.in_block = false;
            if self.bfinal {
                self.done = true;
            }
            return Ok(());
        }
        match read_match(&mut self.br, &self.dist, entry, Ghost(s)) {
            Ok((length, distance)) => {
                if distance > self.out.len() {
                    return Err(DeflateError::Invalid("back-reference distance out of bounds"));
                }
                append_match(&mut self.out, distance, length);
                Ok(())
            },
            Err(DeflateError::UnexpectedEof) => {
                self.done = true;
                self.in_block = false;
                self.br.seek_to_bit(at)
            },
            Err(e) => Err(e),
        }
    }

    /// Decodes up to the end of the block.
    fn drain(&mut self) -> (r: Result<(), DeflateError>)
        requires
            old(self).wf(),
        ensures
            match drained(old(self)@) {
                Ok(s) => r is Ok && final(self).wf() && final(self)@ == s,
                Err(e) => r == Err::<(), DeflateError>(e),
            },
    {
        while self.in_block
            invariant
                self.wf(),
                drained(self@) == drained(old(self)@),
            decreases self@.steps_left(),
        {
            proof {
                lemma_stepped(self@);
            }
            match self.step() {
                Ok(()) => {},
                Err(e) => {
                    return Err(e);
                },
            }
        }
        Ok(())
    }
}

/// The states of lanes.
spec fn states(lanes: Seq<Lane<'_>>) -> Seq<LaneState> {
    Seq::new(lanes.len(), |i: int| lanes[i]@)
}

spec fn lanes_wf(lanes: Seq<Lane<'_>>) -> bool {
    forall|i: int| 0 <= i < lanes.len() ==> (#[trigger] lanes[i]).wf()
}

/// Starts a block in each lane that needs one.
fn start_lanes(lanes: &mut Vec<Lane<'_>>) -> (r: Result<(), DeflateError>)
    requires
        lanes_wf(old(lanes)@),
    ensures
        match all_started(states(old(lanes)@), 0) {
            Ok(ss) => r is Ok && lanes_wf(final(lanes)@) && states(final(lanes)@) == ss,
            Err(e) => r == Err::<(), DeflateError>(e),
        },
{
    let mut k: usize = 0;
    while k < lanes.len()
        invariant
            k <= lanes@.len(),
            lanes_wf(lanes@),
            all_started(states(lanes@), k as int) == all_started(states(old(lanes)@), 0),
        decreases lanes@.len() - k,
    {
        assert(lanes@[k as int].wf());
        if !lanes[k].in_block && !lanes[k].done {
            let ghost before = states(lanes@);
            match lanes[k].start_block() {
                Ok(()) => {},
                Err(e) => {
                    return Err(e);
                },
            }
            assert(states(lanes@) =~= before.update(k as int, lanes@[k as int]@));
        }
        k = k + 1;
    }
    Ok(())
}

/// Decodes one symbol in each lane.
fn step_lanes(lanes: &mut Vec<Lane<'_>>) -> (r: Result<(), DeflateError>)
    requires
        lanes_wf(old(lanes)@),
        all_in_block(states(old(lanes)@)),
    ensures
        match all_stepped(states(old(lanes)@), 0) {
            Ok(ss) => r is Ok && lanes_wf(final(lanes)@) && states(final(lanes)@) == ss,
            Err(e) => r == Err::<(), DeflateError>(e),
        },
{
    let mut k: usize = 0;
    assert forall|i: int| 0 <= i < lanes@.len() implies (#[trigger] lanes@[i]).in_block by {
        assert(states(lanes@)[i].in_block);
    }
    while k < lanes.len()
        invariant
            k <= lanes@.len(),
            lanes_wf(lanes@),
            forall|i: int| k <= i < lanes@.len() ==> (#[trigger] lanes@[i]).in_block,
            all_stepped(states(lanes@), k as int) == all_stepped(states(old(lanes)@), 0),
        decreases lanes@.len() - k,
    {
        assert(lanes@[k as int].wf());
        let ghost before = states(lanes@);
        match lanes[k].step() {
            Ok(()) => {},
            Err(e) => {
                return Err(e);
            },
        }
        assert(states(lanes@) =~= before.update(k as int, lanes@[k as int]@));
        k = k + 1;
    }
    Ok(())
}

/// Decodes each lane up to the end of its block.
fn drain_lanes(lanes: &mut Vec<Lane<'_>>) -> (r: Result<(), DeflateError>)
    requires
        lanes_wf(old(lanes)@),
    ensures
        match all_drained(states(old(lanes)@), 0) {
            Ok(ss) => r is Ok && lanes_wf(final(lanes)@) && states(final(lanes)@) == ss,
            Err(e) => r == Err::<(), DeflateError>(e),
        },
{
    let mut k: usize = 0;
    while k < lanes.len()
        invariant
            k <= lanes@.len(),
            lanes_wf(lanes@),
            all_drained(states(lanes@), k as int) == all_drained(states(old(lanes)@), 0),
        decreases lanes@.len() - k,
    {
        assert(lanes@[k as int].wf());
        let ghost before = states(lanes@);
        match lanes[k].drain() {
            Ok(()) => {},
            Err(e) => {
                return Err(e);
            },
        }
        assert(states(lanes@) =~= before.update(k as int, lanes@[k as int]@));
        k = k + 1;
    }
    Ok(())
}

/// True if every lane is in a block.
fn lanes_in_block(lanes: &Vec<Lane<'_>>) -> (b: bool)
    ensures
        b == all_in_block(states(lanes@)),
{
    let mut k: usize = 0;
    while k < lanes.len()
        invariant
            k <= lanes@.len(),
            forall|i: int| 0 <= i < k ==> (#[trigger] states(lanes@)[i]).in_block,
        decreases lanes@.len() - k,
    {
        if !lanes[k].in_block {
            assert(!states(lanes@)[k as int].in_block);
            return false;
        }
        k = k + 1;
    }
    true
}

/// True if every lane is done.
fn lanes_done(lanes: &Vec<Lane<'_>>) -> (b: bool)
    ensures
        b == all_done(states(lanes@)),
{
    let mut k: usize = 0;
    while k < lanes.len()
        invariant
            k <= lanes@.len(),
            forall|i: int| 0 <= i < k ==> (#[trigger] states(lanes@)[i]).done,
        decreases lanes@.len() - k,
    {
        if !lanes[k].done {
            assert(!states(lanes@)[k as int].done);
            return false;
        }
        k = k + 1;
    }
    true
}

proof fn lemma_states_wf(lanes: Seq<Lane<'_>>)
    requires
        lanes_wf(lanes),
    ensures
        all_wf(states(lanes)),
{
    assert forall|i: int| 0 <= i < lanes.len() implies (#[trigger] states(lanes)[i]).wf() by {
        assert(lanes[i].wf());
    }
}

/// Decodes one symbol in each lane in turn, until a lane is at the end of its block.
fn run_lockstep(lanes: &mut Vec<Lane<'_>>) -> (r: Result<(), DeflateError>)
    requires
        lanes_wf(old(lanes)@),
        old(lanes)@.len() > 0,
    ensures
        match in_lockstep(states(old(lanes)@)) {
            Ok(ss) => r is Ok && lanes_wf(final(lanes)@) && states(final(lanes)@) == ss,
            Err(e) => r == Err::<(), DeflateError>(e),
        },
{
    while lanes_in_block(lanes)
        invariant
            lanes_wf(lanes@),
            lanes@.len() > 0,
            in_lockstep(states(lanes@)) == in_lockstep(states(old(lanes)@)),
        decreases total_steps(states(lanes@), lanes@.len() as int),
    {
        proof {
            lemma_states_wf(lanes@);
            lemma_lockstep_shrinks(states(lanes@));
        }
        match step_lanes(lanes) {
            Ok(()) => {},
            Err(e) => {
                return Err(e);
            },
        }
    }
    Ok(())
}

/// One round: starts the blocks that are to be started; then, if all lanes are in
/// a block, decodes them in lockstep, or else each up to the end of its block.
fn run_round(lanes: &mut Vec<Lane<'_>>) -> (r: Result<(), DeflateError>)
    requires
        lanes_wf(old(lanes)@),
        old(lanes)@.len() > 0,
    ensures
        match one_round(states(old(lanes)@)) {
            Ok(ss) => r is Ok && lanes_wf(final(lanes)@) && states(final(lanes)@) == ss,
            Err(e) => r == Err::<(), DeflateError>(e),
        },
{
    proof {
        reveal(one_round);
        lemma_states_wf(lanes@);
        lemma_all_started(states(lanes@), 0);
    }
    match start_lanes(lanes) {
        Ok(()) => {},
        Err(e) => {
            return Err(e);
        },
    }
    assert(states(lanes@).len() > 0);
    if lanes_in_block(lanes) {
        run_lockstep(lanes)
    } else {
        drain_lanes(lanes)
    }
}

/// Decodes several streams in turn.
fn decode_lanes(inputs: &Vec<&[u8]>) -> (r: Result<Vec<Vec<u8>>, DeflateError>)
    requires
        forall|i: int| 0 <= i < inputs@.len() ==> addressable((#[trigger] inputs@[i])@),
    ensures
        match interleaved(contents(inputs@)) {
            Ok(outs) => r is Ok && outs.len() == inputs@.len() && r->Ok_0@.len() == inputs@.len() && forall|i: int|
                0 <= i < inputs@.len() ==> (#[trigger] r->Ok_0@[i])@ == outs[i],
            Err(e) => r == Err::<Vec<Vec<u8>>, DeflateError>(e),
        },
{
    let ghost views = contents(inputs@);
    let mut lanes: Vec<Lane<'_>> = Vec::with_capacity(inputs.len());
    let mut i: usize = 0;
    while i < inputs.len()
        invariant
            i <= inputs@.len(),
            forall|i: int| 0 <= i < inputs@.len() ==> addressable((#[trigger] inputs@[i])@),
            lanes@.len() == i,
            forall|j: int| 0 <= j < lanes@.len() ==> (#[trigger] lanes@[j]).wf() && lanes@[j]@ == first_state(inputs@[j]@),
        decreases inputs@.len() - i,
    {
        lanes.push(Lane::new(inputs[i]));
        i = i + 1;
    }
    let ghost first = first_states(views);
    assert(states(lanes@) =~= first);
    proof {
        lemma_states_wf(lanes@);
        lemma_rounds(first);
    }
    while !lanes_done(&lanes)
        invariant
            first == first_states(contents(inputs@)),
            lanes_wf(lanes@),
            lanes@.len() == inputs@.len(),
            rounds(states(lanes@)) == rounds(first),
        decreases total_steps(states(lanes@), lanes@.len() as int),
    {
        let ghost before = states(lanes@);
        proof {
            lemma_states_wf(lanes@);
            assert(before.len() > 0);
            lemma_one_round(before);
            lemma_rounds_step(before);
        }
        match run_round(&mut lanes) {
            Ok(()) => {},
            Err(e) => {
                return Err(e);
            },
        }
    }
    proof {
        lemma_states_wf(lanes@);
        lemma_rounds_step(states(lanes@));
    }
    let mut outs: Vec<Vec<u8>> = Vec::with_capacity(lanes.len());
    let mut n: usize = 0;
    while n < lanes.len()
        invariant
            n <= lanes@.len(),
            outs@.len() == n,
            forall|j: int| 0 <= j < n ==> (#[trigger] outs@[j])@ == states(lanes@)[j].out,
        decreases lanes@.len() - n,
    {
        outs.push(vstd::slice::slice_to_vec(lanes[n].out.as_slice()));
        n = n + 1;
    }
    Ok(outs)
}

/// Decodes one stream, step by step, in place of what `out` holds.
pub fn decode_member_stepwise(input: &[u8], out: &mut Vec<u8>) -> (r: Result<(), DeflateError>)
    requires
        addressable(input@),
    ensures
        match lane_of(input@).end {
            Ok(()) => r is Ok && final(out)@ == lane_of(input@).out,
            Err(e) => r == Err::<(), DeflateError>(e) && final(out)@ == old(out)@,
        },
{
    let mut l = Lane::new(input);
    while !l.done
        invariant
            l.wf(),
            l@.result() == lane_of(input@),
            out@ == old(out)@,
        decreases l@.steps_left(),
    {
        if !l.in_block {
            proof {
                lemma_started(l@);
            }
            match l.start_block() {
                Ok(()) => {},
                Err(e) => {
                    return Err(e);
                },
            }
        } else {
            proof {
                lemma_drained(l@);
            }
            match l.drain() {
                Ok(()) => {},
                Err(e) => {
                    return Err(e);
                },
            }
        }
    }
    *out = l.out;
    Ok(())
}

/// Decodes two streams in turn, in place of what the outputs hold.
pub fn decode_two_interleaved(in_a: &[u8], out_a: &mut Vec<u8>, in_b: &[u8], out_b: &mut Vec<u8>) -> (r: Result<
    (),
    DeflateError,
>)
    requires
        addressable(in_a@),
        addressable(in_b@),
    ensures
        match interleaved(seq![in_a@, in_b@]) {
            Ok(outs) => r is Ok && final(out_a)@ == outs[0] && final(out_b)@ == outs[1],
            Err(e) => r == Err::<(), DeflateError>(e) && final(out_a)@ == old(out_a)@ && final(out_b)@ == old(out_b)@,
        },
{
    let mut inputs: Vec<&[u8]> = Vec::new();
    inputs.push(in_a);
    inputs.push(in_b);
    assert(contents(inputs@) =~= seq![in_a@, in_b@]);
    let mut outs: Vec<Vec<u8>> = match decode_lanes(&inputs) {
        Ok(v) => v,
        Err(e) => {
            return Err(e);
        },
    };
    core::mem::swap(out_a, &mut outs[0]);
    core::mem::swap(out_b, &mut outs[1]);
    Ok(())
}

/// Decodes three streams in turn, in place of what the outputs hold.
pub fn decode_three_interleaved(
    in_a: &[u8],
    out_a: &mut Vec<u8>,
    in_b: &[u8],
    out_b: &mut Vec<u8>,
    in_c: &[u8],
    out_c: &mut Vec<u8>,
) -> (r: Result<(), DeflateError>)
    requires
        addressable(in_a@),
        addressable(in_b@),
        addressable(in_c@),
    ensures
        match interleaved(seq![in_a@, in_b@, in_c@]) {
            Ok(outs) => r is Ok && final(out_a)@ == outs[0] && final(out_b)@ == outs[1] && final(out_c)@ == outs[2],
            Err(e) => r == Err::<(), DeflateError>(e) && final(out_a)@ == old(out_a)@ && final(out_b)@ == old(out_b)@
                && final(out_c)@ == old(out_c)@,
        },
{
    let mut inputs: Vec<&[u8]> = Vec::new();
    inputs.push(in_a);
    inputs.push(in_b);
    inputs.push(in_c);
    assert(contents(inputs@) =~= seq![in_a@, in_b@, in_c@]);
    let mut outs: Vec<Vec<u8>> = match decode_lanes(&inputs) {
        Ok(v) => v,
        Err(e) => {
            return Err(e);
        },
    };
    core::mem::swap(out_a, &mut outs[0]);
    core::mem::swap(out_b, &mut outs[1]);
    core::mem::swap(out_c, &mut outs[2]);
    Ok(())
}

/// Decodes four streams in turn, in place of what the outputs hold.
pub fn decode_four_distinct(ins: [&[u8]; 4], outs: &mut [Vec<u8>; 4]) -> (r: Result<(), DeflateError>)
    requires
        forall|i: int| 0 <= i < 4 ==> addressable((#[trigger] ins@[i])@),
    ensures
        match interleaved(contents(ins@)) {
            Ok(all) => r is Ok && forall|i: int| 0 <= i < 4 ==> (#[trigger] final(outs)@[i])@ == all[i],
            Err(e) => r == Err::<(), DeflateError>(e) && final(outs)@ == old(outs)@,
        },
{
    let mut inputs: Vec<&[u8]> = Vec::new();
    inputs.push(ins[0]);
    inputs.push(ins[1]);
    inputs.push(ins[2]);
    inputs.push(ins[3]);
    assert(inputs@ =~= ins@);
    let mut decoded: Vec<Vec<u8>> = match decode_lanes(&inputs) {
        Ok(v) => v,
        Err(e) => {
            return Err(e);
        },
    };
    let ghost all = decoded@;
    core::mem::swap(&mut outs[0], &mut decoded[0]);
    core::mem::swap(&mut outs[1], &mut decoded[1]);
    core::mem::swap(&mut outs[2], &mut decoded[2]);
    core::mem::swap(&mut outs[3], &mut decoded[3]);
    assert(outs@ =~= all);
    Ok(())
}

/// Decodes one stream four times in turn, in place of what the outputs hold.
pub fn decode_four_interleaved(input: &[u8], outs: &mut [Vec<u8>; 4]) -> (r: Result<(), DeflateError>)
    requires
        addressable(input@),
    ensures
        match lane_of(input@).end {
            Ok(()) => r is Ok && forall|i: int| 0 <= i < 4 ==> (#[trigger] final(outs)@[i])@ == lane_of(input@).out,
            Err(e) => r == Err::<(), DeflateError>(e) && final(outs)@ == old(outs)@,
        },
{
    let ins: [&[u8]; 4] = [input, input, input, input];
    let r: Result<(), DeflateError> = decode_four_distinct(ins, outs);
    proof {
        let all = contents(ins@);
        law_interleaved_is_alone(all);
        assert(forall|i: int| 0 <= i < 4 ==> #[trigger] all[i] == input@);
        assert(lane_of(all[0]) == lane_of(input@));
        if r is Ok {
            assert forall|i: int| 0 <= i < 4 implies (#[trigger] outs@[i])@ == lane_of(input@).out by {
                assert(lane_of(all[i]) == lane_of(input@));
            }
        }
    }
    r
}

proof fn lemma_lane_run_is_run(lit: Seq<u8>, dist: Seq<u8>, input: Seq<u8>, p: int, out: Seq<u8>)
    requires
        run(lit, dist, input, p, out).end is Ok,
    ensures
        lane_run(lit, dist, input, p, out).out == run(lit, dist, input, p, out).out,
        lane_run(lit, dist, input, p, out).end == Ok::<Option<int>, DeflateError>(
            Some(run(lit, dist, input, p, out).end->Ok_0),
        ),
    decreases bit_len(input) - p,
{
    reveal(run);
    reveal(lane_run);
    lemma_symbol_advances(lit, dist, input, p);
    match symbol_at(lit, dist, input, p) {
        Ok((Symbol::Literal(b), q)) => {
            lemma_lane_run_is_run(lit, dist, input, q, out.push(b));
        },
        Ok((Symbol::Match { length, distance }, q)) => {
            if distance <= out.len() {
                lemma_lane_run_is_run(lit, dist, input, q, copy_back(out, distance, length));
            }
        },
        _ => {},
    }
}

/// A lane decodes every stream that the other kernels decode, to the same bytes.
pub proof fn law_lane_is_inflate(input: Seq<u8>, p: int, out: Seq<u8>)
    requires
        until(input, p, bit_len(input) + 1, out).end is Ok,
    ensures
        lane(input, p, out) == (Decoded {
            out: until(input, p, bit_len(input) + 1, out).out,
            end: Ok::<(), DeflateError>(()),
        }),
    decreases bit_len(input) - p,
{
    reveal(lane);
    lemma_until_step(input, p, bit_len(input) + 1, out);
    lemma_block_advances(input, p, out);
    let b = block(input, p, out);
    let btype = bits_at(input, p + 1, 2);
    if let Ok(Body::Compressed(c)) = body_at(input, p + 3, btype) {
        lemma_lane_run_is_run(c.lit, c.dist, input, c.at, out);
    }
    let (q, last) = b.end->Ok_0;
    if !last {
        law_lane_is_inflate(input, q, b.out);
    }
}

} // verus!
