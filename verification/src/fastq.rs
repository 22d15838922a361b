//! Splitting FASTQ into columns.
//!
//! A record has four lines: a name after `@`, a sequence, a separator that
//! starts with `+`, and a quality as long as the sequence. Only newlines tell
//! lines apart, so that a quality may hold any character. Input comes in
//! pieces that may be cut anywhere.
use vstd::prelude::*;

verus! {

/// Why some text is no FASTQ.
#[derive(Debug, Clone, Copy, PartialEq, Eq, Structural)]
pub enum FastqError {
    BadHeader,
    BadSeparator,
    LengthMismatch,
    Truncated,
}

impl FastqError {
    /// What is wrong, in words.
    pub fn message(&self) -> (m: &'static str)
        ensures
            m@ == match *self {
                FastqError::BadHeader => "FASTQ header line does not start with '@'"@,
                FastqError::BadSeparator => "FASTQ separator line does not start with '+'"@,
                FastqError::LengthMismatch => "FASTQ sequence/quality length mismatch"@,
                FastqError::Truncated => "FASTQ input truncated inside a record"@,
            },
    {
        match self {
            FastqError::BadHeader => "FASTQ header line does not start with '@'",
            FastqError::BadSeparator => "FASTQ separator line does not start with '+'",
            FastqError::LengthMismatch => "FASTQ sequence/quality length mismatch",
            FastqError::Truncated => "FASTQ input truncated inside a record",
        }
    }
}

/// The columns of FASTQ text: each field with a newline after it.
pub struct Columns {
    pub names: Vec<u8>,
    pub seqs: Vec<u8>,
    pub quals: Vec<u8>,
}

/// The contents of columns.
pub ghost struct ColumnsView {
    pub names: Seq<u8>,
    pub seqs: Seq<u8>,
    pub quals: Seq<u8>,
}

impl View for Columns {
    type V = ColumnsView;

    open spec fn view(&self) -> ColumnsView {
        ColumnsView { names: self.names@, seqs: self.seqs@, quals: self.quals@ }
    }
}

/// Which line of a record comes next.
#[derive(Debug, Clone, Copy, PartialEq, Eq, Structural)]
pub enum Line {
    Name,
    Sequence,
    Separator,
    Quality,
}

/// Where splitting stands between two lines.
pub ghost struct Progress {
    pub next: Line,
    pub columns: ColumnsView,
    /// The length of the current record's sequence.
    pub seq_len: nat,
}

/// A line without the carriage return that may end it.
pub open spec fn stripped(line: Seq<u8>) -> Seq<u8> {
    if line.len() > 0 && line.last() == 13 {
        line.drop_last()
    } else {
        line
    }
}

/// Takes in one line.
pub open spec fn after_line(p: Progress, raw: Seq<u8>) -> Result<Progress, FastqError> {
    let line = stripped(raw);
    match p.next {
        Line::Name => if line.len() == 0 || line[0] != 64 {
            Err(FastqError::BadHeader)
        } else {
            Ok(
                Progress {
                    next: Line::Sequence,
                    columns: ColumnsView { names: p.columns.names + line.skip(1).push(10), ..p.columns },
                    seq_len: 0,
                },
            )
        },
        Line::Sequence => Ok(
            Progress {
                next: Line::Separator,
                columns: ColumnsView { seqs: p.columns.seqs + line.push(10), ..p.columns },
                seq_len: line.len(),
            },
        ),
        Line::Separator => if line.len() == 0 || line[0] != 43 {
            Err(FastqError::BadSeparator)
        } else {
            Ok(Progress { next: Line::Quality, ..p })
        },
        Line::Quality => if line.len() != p.seq_len {
            Err(FastqError::LengthMismatch)
        } else {
            Ok(
                Progress {
                    next: Line::Name,
                    columns: ColumnsView { quals: p.columns.quals + line.push(10), ..p.columns },
                    seq_len: p.seq_len,
                },
            )
        },
    }
}

/// What the text that is left after the last newline makes of it: nothing is
/// left between records, or the last quality has no newline.
pub open spec fn at_end(p: Progress, rest: Seq<u8>) -> Result<ColumnsView, FastqError> {
    match p.next {
        Line::Name if rest.len() == 0 => Ok(p.columns),
        Line::Quality if rest.len() > 0 => match after_line(p, rest) {
            Ok(q) => Ok(q.columns),
            Err(e) => Err(e),
        },
        _ => Err(FastqError::Truncated),
    }
}

/// The first newline in `text` from `from` on.
pub open spec fn newline_from(text: Seq<u8>, from: int) -> Option<int>
    decreases text.len() - from,
{
    if from < 0 || from >= text.len() {
        None
    } else if text[from] == 10 {
        Some(from)
    } else {
        newline_from(text, from + 1)
    }
}

/// Splits `text`, going on from `p`.
#[verifier::opaque]
pub open spec fn split_from(p: Progress, text: Seq<u8>) -> Result<ColumnsView, FastqError>
    decreases text.len(),
{
    proof {
        lemma_newline_from(text, 0);
    }
    match newline_from(text, 0) {
        None => at_end(p, text),
        Some(e) => match after_line(p, text.take(e)) {
            Err(err) => Err(err),
            Ok(q) => split_from(q, text.skip(e + 1)),
        },
    }
}

/// The columns of FASTQ text.
pub open spec fn columns_of(text: Seq<u8>) -> Result<ColumnsView, FastqError> {
    split_from(
        Progress {
            next: Line::Name,
            columns: ColumnsView { names: Seq::empty(), seqs: Seq::empty(), quals: Seq::empty() },
            seq_len: 0,
        },
        text,
    )
}

pub proof fn lemma_newline_from(text: Seq<u8>, from: int)
    requires
        0 <= from,
    ensures
        match newline_from(text, from) {
            Some(e) => from <= e < text.len() && text[e] == 10 && forall|i: int| from <= i < e ==> text[i] != 10,
            None => forall|i: int| from <= i < text.len() ==> text[i] != 10,
        },
    decreases text.len() - from,
{
    if from < text.len() && text[from] != 10 {
        lemma_newline_from(text, from + 1);
    }
}

pub proof fn lemma_first_newline(text: Seq<u8>, from: int, e: int)
    requires
        0 <= from <= e < text.len(),
        text[e] == 10,
        forall|i: int| from <= i < e ==> text[i] != 10,
    ensures
        newline_from(text, from) == Some(e),
    decreases e - from,
{
    if from < e {
        lemma_first_newline(text, from + 1, e);
    }
}

/// Splits text that comes in pieces.
pub struct FastqSplitter {
    next: Line,
    columns: Columns,
    seq_len: usize,
    /// The line that is not complete yet.
    carry: Vec<u8>,
}

impl FastqSplitter {
    closed spec fn progress(&self) -> Progress {
        Progress { next: self.next, columns: self.columns@, seq_len: self.seq_len as nat }
    }

    pub closed spec fn wf(&self) -> bool {
        forall|i: int| 0 <= i < self.carry@.len() ==> self.carry@[i] != 10
    }

    /// What splitting gives if `more` is all that is still to come.
    pub closed spec fn result(&self, more: Seq<u8>) -> Result<ColumnsView, FastqError> {
        split_from(self.progress(), self.carry@ + more)
    }

    pub fn new() -> (s: FastqSplitter)
        ensures
            s.wf(),
            forall|text: Seq<u8>| #[trigger] s.result(text) == columns_of(text),
    {
        let s = FastqSplitter {
            next: Line::Name,
            columns: Columns { names: Vec::new(), seqs: Vec::new(), quals: Vec::new() },
            seq_len: 0,
            carry: Vec::new(),
        };
        assert forall|text: Seq<u8>| #[trigger] s.result(text) == columns_of(text) by {
            assert(s.carry@ + text =~= text);
            assert(s.columns@.names =~= Seq::<u8>::empty());
            assert(s.columns@.seqs =~= Seq::<u8>::empty());
            assert(s.columns@.quals =~= Seq::<u8>::empty());
        }
        s
    }

    /// Takes in the line that `carry` holds.
    fn end_line(&mut self) -> (r: Result<(), FastqError>)
        ensures
            final(self).carry@ == Seq::<u8>::empty(),
            match after_line(old(self).progress(), old(self).carry@) {
                Ok(p) => r is Ok && final(self).progress() == p,
                Err(e) => r == Err::<(), FastqError>(e),
            },
    {
        let mut line: Vec<u8> = Vec::new();
        core::mem::swap(&mut line, &mut self.carry);
        assert(self.carry@ =~= Seq::<u8>::empty());
        let n: usize = line.len();
        if n > 0 && line[n - 1] == 13 {
            line.truncate(n - 1);
        }
        assert(line@ =~= stripped(old(self).carry@));
        match self.next {
            Line::Name => {
                if line.len() == 0 || line[0] != 64 {
                    return Err(FastqError::BadHeader);
                }
                self.columns.names.extend_from_slice(
                    vstd::slice::slice_subrange(line.as_slice(), 1, line.len()),
                );
                self.columns.names.push(10);
                assert(self.columns.names@ =~= old(self).columns.names@ + line@.skip(1).push(10));
                self.seq_len = 0;
                self.next = Line::Sequence;
            },
            Line::Sequence => {
                self.columns.seqs.extend_from_slice(line.as_slice());
                self.columns.seqs.push(10);
                assert(self.columns.seqs@ =~= old(self).columns.seqs@ + line@.push(10));
                self.seq_len = line.len();
                self.next = Line::Separator;
            },
            Line::Separator => {
                if line.len() == 0 || line[0] != 43 {
                    return Err(FastqError::BadSeparator);
                }
                self.next = Line::Quality;
            },
            Line::Quality => {
                if line.len() != self.seq_len {
                    return Err(FastqError::LengthMismatch);
                }
                self.columns.quals.extend_from_slice(line.as_slice());
                self.columns.quals.push(10);
                assert(self.columns.quals@ =~= old(self).columns.quals@ + line@.push(10));
                self.next = Line::Name;
            },
        }
        Ok(())
    }

    /// Takes in a piece of text.
    pub fn feed(&mut self, text: &[u8]) -> (r: Result<(), FastqError>)
        requires
            old(self).wf(),
        ensures
            match r {
                Ok(()) => final(self).wf() && forall|more: Seq<u8>| #[trigger]
                    final(self).result(more) == old(self).result(text@ + more),
                Err(e) => forall|more: Seq<u8>| #[trigger]
                    old(self).result(text@ + more) == Err::<ColumnsView, FastqError>(e),
            },
    {
        let mut i: usize = 0;
        assert(text@.skip(0) =~= text@);
        while i < text.len()
            invariant
                i <= text@.len(),
                self.wf(),
                forall|more: Seq<u8>| #[trigger]
                    old(self).result(text@ + more) == self.result(text@.skip(i as int) + more),
            decreases text@.len() - i,
        {
            let b: u8 = text[i];
            let ghost before = *self;
            if b == 10 {
                proof {
                    assert forall|more: Seq<u8>| #[trigger]
                        before.result(text@.skip(i as int) + more) == match after_line(
                            before.progress(),
                            before.carry@,
                        ) {
                            Err(e) => Err::<ColumnsView, FastqError>(e),
                            Ok(p) => split_from(p, text@.skip(i + 1) + more),
                        } by {
                        reveal(split_from);
                        let all = before.carry@ + (text@.skip(i as int) + more);
                        let e = before.carry@.len() as int;
                        assert(all[e] == 10);
                        assert forall|k: int| 0 <= k < e implies all[k] != 10 by {
                            assert(all[k] == before.carry@[k]);
                        }
                        lemma_first_newline(all, 0, e);
                        assert(all.take(e) =~= before.carry@);
                        assert(all.skip(e + 1) =~= text@.skip(i + 1) + more);
                    }
                }
                match self.end_line() {
                    Ok(()) => {},
                    Err(e) => {
                        assert forall|more: Seq<u8>| #[trigger] old(self).result(text@ + more) == Err::<
                            ColumnsView,
                            FastqError,
                        >(e) by {
                            assert(before.result(text@.skip(i as int) + more) == Err::<ColumnsView, FastqError>(e));
                        }
                        return Err(e);
                    },
                }
                proof {
                    assert forall|more: Seq<u8>| #[trigger] old(self).result(text@ + more) == self.result(
                        text@.skip(i + 1) + more,
                    ) by {
                        assert(self.carry@ + (text@.skip(i + 1) + more) =~= text@.skip(i + 1) + more);
                        assert(old(self).result(text@ + more) == before.result(text@.skip(i as int) + more));
                    }
                }
            } else {
                self.carry.push(b);
                proof {
                    assert forall|more: Seq<u8>| #[trigger] old(self).result(text@ + more) == self.result(
                        text@.skip(i + 1) + more,
                    ) by {
                        assert(self.carry@ + (text@.skip(i + 1) + more) =~= before.carry@ + (text@.skip(i as int)
                            + more));
                        assert(old(self).result(text@ + more) == before.result(text@.skip(i as int) + more));
                    }
                }
            }
            i = i + 1;
        }
        proof {
            assert forall|more: Seq<u8>| #[trigger] self.result(more) == old(self).result(text@ + more) by {
                assert(text@.skip(text@.len() as int) + more =~= more);
            }
        }
        Ok(())
    }

    /// Ends the text.
    pub fn finish(self) -> (r: Result<Columns, FastqError>)
        requires
            self.wf(),
        ensures
            match self.result(Seq::empty()) {
                Ok(c) => r is Ok && r->Ok_0@ == c,
                Err(e) => r == Err::<Columns, FastqError>(e),
            },
    {
        proof {
            reveal(split_from);
            assert(self.carry@ + Seq::<u8>::empty() =~= self.carry@);
            lemma_newline_from(self.carry@, 0);
        }
        let mut s = self;
        match s.next {
            Line::Name => {
                if s.carry.len() > 0 {
                    return Err(FastqError::Truncated);
                }
                Ok(s.columns)
            },
            Line::Quality => {
                if s.carry.len() == 0 {
                    return Err(FastqError::Truncated);
                }
                match s.end_line() {
                    Ok(()) => Ok(s.columns),
                    Err(e) => Err(e),
                }
            },
            _ => Err(FastqError::Truncated),
        }
    }
}

/// Pieces put together.
pub open spec fn text_of(pieces: Seq<&[u8]>) -> Seq<u8>
    decreases pieces.len(),
{
    if pieces.len() == 0 {
        Seq::empty()
    } else {
        pieces[0]@ + text_of(pieces.skip(1))
    }
}

/// Splits text that is given in pieces; where it is cut does not matter.
pub fn split_pieces(pieces: &[&[u8]]) -> (r: Result<Columns, FastqError>)
    ensures
        match columns_of(text_of(pieces@)) {
            Ok(c) => r is Ok && r->Ok_0@ == c,
            Err(e) => r == Err::<Columns, FastqError>(e),
        },
{
    let mut s = FastqSplitter::new();
    let mut i: usize = 0;
    assert(pieces@.skip(0) =~= pieces@);
    while i < pieces.len()
        invariant
            i <= pieces@.len(),
            s.wf(),
            s.result(text_of(pieces@.skip(i as int))) == columns_of(text_of(pieces@)),
        decreases pieces@.len() - i,
    {
        proof {
            assert(pieces@.skip(i as int).skip(1) =~= pieces@.skip(i + 1));
            assert(pieces@.skip(i as int)[0] == pieces@[i as int]);
        }
        match s.feed(pieces[i]) {
            Ok(()) => {},
            Err(e) => {
                return Err(e);
            },
        }
        i = i + 1;
    }
    assert(pieces@.skip(pieces@.len() as int) =~= Seq::<&[u8]>::empty());
    s.finish()
}

/// Pieces make up a text in order: a piece alone is its own text, and pieces after
/// others follow on their text.
pub proof fn law_text_of(a: Seq<&[u8]>, piece: &[u8], b: Seq<&[u8]>)
    ensures
        text_of(a + seq![piece] + b) == text_of(a) + piece@ + text_of(b),
    decreases a.len(),
{
    let all = a + seq![piece] + b;
    if a.len() == 0 {
        assert(all[0] == piece);
        assert(all.skip(1) =~= b);
        assert(text_of(a) + piece@ + text_of(b) =~= piece@ + text_of(b));
    } else {
        assert(all[0] == a[0]);
        assert(all.skip(1) =~= a.skip(1) + seq![piece] + b);
        law_text_of(a.skip(1), piece, b);
        assert(a[0]@ + (text_of(a.skip(1)) + piece@ + text_of(b)) =~= text_of(a) + piece@ + text_of(b));
    }
}

} // verus!
