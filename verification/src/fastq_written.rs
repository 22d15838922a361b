//! FASTQ text as it is written, and that splitting inverts writing.
use vstd::prelude::*;
use crate::fastq::{
    ColumnsView, FastqError, Line, Progress, after_line, at_end, columns_of, newline_from, split_from, stripped,
    lemma_first_newline, lemma_newline_from,
};

verus! {

/// A line without its end, which may be a carriage return and a newline.
pub ghost struct TextLine {
    pub text: Seq<u8>,
    pub cr: bool,
}

impl TextLine {
    pub open spec fn wf(self) -> bool {
        &&& forall|i: int| 0 <= i < self.text.len() ==> self.text[i] != 10
        &&& !self.cr && self.text.len() > 0 ==> self.text[self.text.len() - 1] != 13
    }

    /// The line up to its newline.
    pub open spec fn raw(self) -> Seq<u8> {
        self.text + if self.cr {
            seq![13u8]
        } else {
            Seq::empty()
        }
    }

    pub open spec fn bytes(self) -> Seq<u8> {
        self.raw() + seq![10u8]
    }

    /// The line starts with the byte `b`.
    pub open spec fn starts_with(self, b: u8) -> bool {
        self.text.len() > 0 && self.text[0] == b
    }
}

/// A record of four lines.
pub ghost struct Record {
    pub name: Seq<u8>,
    pub seq: Seq<u8>,
    /// What the separator holds after its `+`.
    pub note: Seq<u8>,
    pub qual: Seq<u8>,
    /// Which of its lines end with a carriage return.
    pub crs: (bool, bool, bool, bool),
}

impl Record {
    pub open spec fn name_line(self) -> TextLine {
        TextLine { text: seq![64u8] + self.name, cr: self.crs.0 }
    }

    pub open spec fn seq_line(self) -> TextLine {
        TextLine { text: self.seq, cr: self.crs.1 }
    }

    pub open spec fn note_line(self) -> TextLine {
        TextLine { text: seq![43u8] + self.note, cr: self.crs.2 }
    }

    pub open spec fn qual_line(self) -> TextLine {
        TextLine { text: self.qual, cr: self.crs.3 }
    }

    pub open spec fn wf(self) -> bool {
        &&& self.name_line().wf()
        &&& self.seq_line().wf()
        &&& self.note_line().wf()
        &&& self.qual_line().wf()
        &&& self.qual.len() == self.seq.len()
    }

    pub open spec fn bytes(self) -> Seq<u8> {
        self.name_line().bytes() + (self.seq_line().bytes() + (self.note_line().bytes() + self.qual_line().bytes()))
    }
}

/// Records, one after the other.
pub open spec fn records_text(rs: Seq<Record>) -> Seq<u8>
    decreases rs.len(),
{
    if rs.len() == 0 {
        Seq::empty()
    } else {
        rs[0].bytes() + records_text(rs.skip(1))
    }
}

pub open spec fn records_wf(rs: Seq<Record>) -> bool {
    forall|i: int| 0 <= i < rs.len() ==> (#[trigger] rs[i]).wf()
}

/// The columns `c` with the fields of a record, each with a newline after it.
pub open spec fn with_record(c: ColumnsView, r: Record) -> ColumnsView {
    ColumnsView {
        names: c.names + (r.name + seq![10u8]),
        seqs: c.seqs + (r.seq + seq![10u8]),
        quals: c.quals + (r.qual + seq![10u8]),
    }
}

/// The columns `c` with the fields of some records.
pub open spec fn with_records(c: ColumnsView, rs: Seq<Record>) -> ColumnsView
    decreases rs.len(),
{
    if rs.len() == 0 {
        c
    } else {
        with_records(with_record(c, rs[0]), rs.skip(1))
    }
}

pub open spec fn no_columns() -> ColumnsView {
    ColumnsView { names: Seq::empty(), seqs: Seq::empty(), quals: Seq::empty() }
}

/// What follows the last whole record of some text.
pub ghost enum Tail {
    Nothing,
    /// A record whose last line has no newline.
    Open(Record),
    /// A line that should hold a name, and does not start with `@`.
    NoName(TextLine, Seq<u8>),
    /// The third line of a record does not start with `+`.
    NoSeparator(Record, TextLine, Seq<u8>),
    /// The quality is not as long as the sequence; a newline may follow it, and anything else.
    WrongLength(Record, TextLine, Option<Seq<u8>>),
    /// The text ends in the first, second or third line of a record.
    CutName(Seq<u8>),
    CutSeq(Record, Seq<u8>),
    CutNote(Record, Seq<u8>),
    /// The text ends before the quality.
    CutQual(Record),
}

/// No byte of `s` is a newline.
pub open spec fn one_line(s: Seq<u8>) -> bool {
    forall|i: int| 0 <= i < s.len() ==> s[i] != 10
}

impl Tail {
    pub open spec fn wf(self) -> bool {
        match self {
            Tail::Nothing => true,
            Tail::Open(r) => r.wf() && r.qual_line().raw().len() > 0,
            Tail::NoName(l, _) => l.wf() && !l.starts_with(64),
            Tail::NoSeparator(r, l, _) => r.name_line().wf() && r.seq_line().wf() && l.wf() && !l.starts_with(43),
            Tail::WrongLength(r, l, more) => {
                &&& r.name_line().wf()
                &&& r.seq_line().wf()
                &&& r.note_line().wf()
                &&& l.wf()
                &&& l.text.len() != r.seq.len()
                &&& more is None ==> l.raw().len() > 0
            },
            Tail::CutName(x) => one_line(x) && x.len() > 0,
            Tail::CutSeq(r, x) => r.name_line().wf() && one_line(x),
            Tail::CutNote(r, x) => r.name_line().wf() && r.seq_line().wf() && one_line(x),
            Tail::CutQual(r) => r.name_line().wf() && r.seq_line().wf() && r.note_line().wf(),
        }
    }

    pub open spec fn bytes(self) -> Seq<u8> {
        match self {
            Tail::Nothing => Seq::empty(),
            Tail::Open(r) => r.name_line().bytes() + (r.seq_line().bytes() + (r.note_line().bytes()
                + r.qual_line().raw())),
            Tail::NoName(l, rest) => l.bytes() + rest,
            Tail::NoSeparator(r, l, rest) => r.name_line().bytes() + (r.seq_line().bytes() + (l.bytes() + rest)),
            Tail::WrongLength(r, l, more) => r.name_line().bytes() + (r.seq_line().bytes() + (r.note_line().bytes()
                + match more {
                Some(rest) => l.bytes() + rest,
                None => l.raw(),
            })),
            Tail::CutName(x) => x,
            Tail::CutSeq(r, x) => r.name_line().bytes() + x,
            Tail::CutNote(r, x) => r.name_line().bytes() + (r.seq_line().bytes() + x),
            Tail::CutQual(r) => r.name_line().bytes() + (r.seq_line().bytes() + r.note_line().bytes()),
        }
    }

    /// What comes of text whose whole records gave the columns `c`.
    pub open spec fn outcome(self, c: ColumnsView) -> Result<ColumnsView, FastqError> {
        match self {
            Tail::Nothing => Ok(c),
            Tail::Open(r) => Ok(with_record(c, r)),
            Tail::NoName(_, _) => Err(FastqError::BadHeader),
            Tail::NoSeparator(_, _, _) => Err(FastqError::BadSeparator),
            Tail::WrongLength(_, _, _) => Err(FastqError::LengthMismatch),
            _ => Err(FastqError::Truncated),
        }
    }
}

proof fn lemma_stripped(l: TextLine)
    requires
        l.wf(),
    ensures
        stripped(l.raw()) == l.text,
        one_line(l.raw()),
{
    assert(stripped(l.raw()) =~= l.text);
}

/// Splitting takes a line in and goes on.
proof fn lemma_line(p: Progress, l: TextLine, rest: Seq<u8>)
    requires
        l.wf(),
    ensures
        split_from(p, l.bytes() + rest) == match after_line(p, l.raw()) {
            Err(e) => Err::<ColumnsView, FastqError>(e),
            Ok(q) => split_from(q, rest),
        },
        stripped(l.raw()) == l.text,
{
    reveal(split_from);
    lemma_stripped(l);
    let all = l.bytes() + rest;
    let e = l.raw().len() as int;
    assert forall|i: int| 0 <= i < e implies all[i] != 10 by {
        assert(all[i] == l.raw()[i]);
    }
    assert(all[e] == 10);
    lemma_first_newline(all, 0, e);
    assert(all.take(e) =~= l.raw());
    assert(all.skip(e + 1) =~= rest);
}

/// Text without a newline ends the text.
proof fn lemma_last_line(p: Progress, x: Seq<u8>)
    requires
        one_line(x),
    ensures
        split_from(p, x) == at_end(p, x),
{
    reveal(split_from);
    lemma_newline_from(x, 0);
}

/// Where splitting stands before a line.
spec fn before(next: Line, columns: ColumnsView, seq_len: nat) -> Progress {
    Progress { next, columns, seq_len }
}

spec fn with_name(c: ColumnsView, r: Record) -> ColumnsView {
    ColumnsView { names: c.names + (r.name + seq![10u8]), ..c }
}

spec fn with_seq(c: ColumnsView, r: Record) -> ColumnsView {
    ColumnsView { seqs: c.seqs + (r.seq + seq![10u8]), ..c }
}

spec fn with_qual(c: ColumnsView, r: Record) -> ColumnsView {
    ColumnsView { quals: c.quals + (r.qual + seq![10u8]), ..c }
}

proof fn lemma_name(c: ColumnsView, k: nat, r: Record, rest: Seq<u8>)
    requires
        r.name_line().wf(),
    ensures
        split_from(before(Line::Name, c, k), r.name_line().bytes() + rest) == split_from(
            before(Line::Sequence, with_name(c, r), 0),
            rest,
        ),
{
    lemma_line(before(Line::Name, c, k), r.name_line(), rest);
    assert(r.name_line().text.skip(1).push(10) =~= r.name + seq![10u8]);
}

proof fn lemma_seq(c: ColumnsView, r: Record, rest: Seq<u8>)
    requires
        r.seq_line().wf(),
    ensures
        split_from(before(Line::Sequence, c, 0), r.seq_line().bytes() + rest) == split_from(
            before(Line::Separator, with_seq(c, r), r.seq.len()),
            rest,
        ),
{
    lemma_line(before(Line::Sequence, c, 0), r.seq_line(), rest);
    assert(r.seq.push(10) =~= r.seq + seq![10u8]);
}

proof fn lemma_note(c: ColumnsView, k: nat, r: Record, rest: Seq<u8>)
    requires
        r.note_line().wf(),
    ensures
        split_from(before(Line::Separator, c, k), r.note_line().bytes() + rest) == split_from(
            before(Line::Quality, c, k),
            rest,
        ),
{
    lemma_line(before(Line::Separator, c, k), r.note_line(), rest);
}

proof fn lemma_qual(c: ColumnsView, r: Record, rest: Seq<u8>)
    requires
        r.qual_line().wf(),
        r.qual.len() == r.seq.len(),
    ensures
        split_from(before(Line::Quality, c, r.seq.len()), r.qual_line().bytes() + rest) == split_from(
            before(Line::Name, with_qual(c, r), r.seq.len()),
            rest,
        ),
        r.qual_line().raw().len() > 0 ==> split_from(before(Line::Quality, c, r.seq.len()), r.qual_line().raw()) == Ok::<
            ColumnsView,
            FastqError,
        >(with_qual(c, r)),
{
    lemma_line(before(Line::Quality, c, r.seq.len()), r.qual_line(), rest);
    lemma_stripped(r.qual_line());
    lemma_last_line(before(Line::Quality, c, r.seq.len()), r.qual_line().raw());
    assert(r.qual.push(10) =~= r.qual + seq![10u8]);
}

proof fn lemma_record(c: ColumnsView, k: nat, r: Record, rest: Seq<u8>)
    requires
        r.wf(),
    ensures
        split_from(before(Line::Name, c, k), r.bytes() + rest) == split_from(
            before(Line::Name, with_record(c, r), r.seq.len()),
            rest,
        ),
{
    let l1 = r.name_line().bytes();
    let l2 = r.seq_line().bytes();
    let l3 = r.note_line().bytes();
    let l4 = r.qual_line().bytes();
    let c1 = with_name(c, r);
    let c2 = with_seq(c1, r);
    assert(r.bytes() + rest =~= l1 + (l2 + (l3 + (l4 + rest))));
    lemma_name(c, k, r, l2 + (l3 + (l4 + rest)));
    lemma_seq(c1, r, l3 + (l4 + rest));
    lemma_note(c2, r.seq.len(), r, l4 + rest);
    lemma_qual(c2, r, rest);
}

proof fn lemma_tail(c: ColumnsView, k: nat, tail: Tail)
    requires
        tail.wf(),
    ensures
        split_from(before(Line::Name, c, k), tail.bytes()) == tail.outcome(c),
{
    let none = Seq::<u8>::empty();
    match tail {
        Tail::Nothing => {
            lemma_last_line(before(Line::Name, c, k), none);
        },
        Tail::Open(r) => {
            let l2 = r.seq_line().bytes();
            let l3 = r.note_line().bytes();
            let l4 = r.qual_line().raw();
            let c1 = with_name(c, r);
            let c2 = with_seq(c1, r);
            lemma_name(c, k, r, l2 + (l3 + l4));
            lemma_seq(c1, r, l3 + l4);
            lemma_note(c2, r.seq.len(), r, l4);
            lemma_qual(c2, r, none);
        },
        Tail::NoName(l, rest) => {
            lemma_line(before(Line::Name, c, k), l, rest);
        },
        Tail::NoSeparator(r, l, rest) => {
            let c1 = with_name(c, r);
            let c2 = with_seq(c1, r);
            lemma_name(c, k, r, r.seq_line().bytes() + (l.bytes() + rest));
            lemma_seq(c1, r, l.bytes() + rest);
            lemma_line(before(Line::Separator, c2, r.seq.len()), l, rest);
        },
        Tail::WrongLength(r, l, more) => {
            let c1 = with_name(c, r);
            let c2 = with_seq(c1, r);
            let x = match more {
                Some(rest) => l.bytes() + rest,
                None => l.raw(),
            };
            lemma_name(c, k, r, r.seq_line().bytes() + (r.note_line().bytes() + x));
            lemma_seq(c1, r, r.note_line().bytes() + x);
            lemma_note(c2, r.seq.len(), r, x);
            match more {
                Some(rest) => {
                    lemma_line(before(Line::Quality, c2, r.seq.len()), l, rest);
                },
                None => {
                    lemma_stripped(l);
                    lemma_last_line(before(Line::Quality, c2, r.seq.len()), l.raw());
                },
            }
        },
        Tail::CutName(x) => {
            lemma_last_line(before(Line::Name, c, k), x);
        },
        Tail::CutSeq(r, x) => {
            lemma_name(c, k, r, x);
            lemma_last_line(before(Line::Sequence, with_name(c, r), 0), x);
        },
        Tail::CutNote(r, x) => {
            let c1 = with_name(c, r);
            lemma_name(c, k, r, r.seq_line().bytes() + x);
            lemma_seq(c1, r, x);
            lemma_last_line(before(Line::Separator, with_seq(c1, r), r.seq.len()), x);
        },
        Tail::CutQual(r) => {
            let c1 = with_name(c, r);
            let c2 = with_seq(c1, r);
            let l3 = r.note_line().bytes();
            assert(l3 + none =~= l3);
            lemma_name(c, k, r, r.seq_line().bytes() + l3);
            lemma_seq(c1, r, l3);
            lemma_note(c2, r.seq.len(), r, none);
            lemma_last_line(before(Line::Quality, c2, r.seq.len()), none);
        },
    }
}

proof fn lemma_records(c: ColumnsView, k: nat, rs: Seq<Record>, tail: Tail)
    requires
        records_wf(rs),
        tail.wf(),
    ensures
        split_from(before(Line::Name, c, k), records_text(rs) + tail.bytes()) == tail.outcome(with_records(c, rs)),
    decreases rs.len(),
{
    if rs.len() == 0 {
        assert(records_text(rs) + tail.bytes() =~= tail.bytes());
        lemma_tail(c, k, tail);
    } else {
        let r = rs[0];
        let more = rs.skip(1);
        assert forall|i: int| 0 <= i < more.len() implies (#[trigger] more[i]).wf() by {
            assert(more[i] == rs[i + 1]);
        }
        let rest = records_text(more) + tail.bytes();
        assert(records_text(rs) + tail.bytes() =~= r.bytes() + rest);
        lemma_record(c, k, r, rest);
        lemma_records(with_record(c, r), r.seq.len(), more, tail);
    }
}

/// Splitting inverts writing: text of whole records splits to their names,
/// sequences and qualities, whatever the separators hold after their `+`; and the
/// first line that breaks a rule is told by the rule that it breaks.
pub proof fn law_split_inverts_writing(rs: Seq<Record>, tail: Tail)
    requires
        records_wf(rs),
        tail.wf(),
    ensures
        columns_of(records_text(rs) + tail.bytes()) == tail.outcome(with_records(no_columns(), rs)),
{
    lemma_records(no_columns(), 0, rs, tail);
}

/// The same of whole records.
pub proof fn law_records_split(rs: Seq<Record>)
    requires
        records_wf(rs),
    ensures
        columns_of(records_text(rs)) == Ok::<ColumnsView, FastqError>(with_records(no_columns(), rs)),
{
    assert(records_text(rs) + Tail::Nothing.bytes() =~= records_text(rs));
    law_split_inverts_writing(rs, Tail::Nothing);
}

/// The first line of some text that has a newline.
proof fn lemma_first_line(x: Seq<u8>, e: int) -> (l: TextLine)
    requires
        0 <= e < x.len(),
        x[e] == 10,
        forall|i: int| 0 <= i < e ==> x[i] != 10,
    ensures
        l.wf(),
        x == l.bytes() + x.skip(e + 1),
        l.raw() == x.take(e),
{
    let l = lemma_as_line(x.take(e));
    assert(x =~= l.bytes() + x.skip(e + 1));
    l
}

proof fn lemma_as_line(x: Seq<u8>) -> (l: TextLine)
    requires
        one_line(x),
    ensures
        l.wf(),
        l.raw() == x,
{
    let l = if x.len() > 0 && x.last() == 13 {
        TextLine { text: x.drop_last(), cr: true }
    } else {
        TextLine { text: x, cr: false }
    };
    assert(l.raw() =~= x);
    l
}

/// The first line of some text, or none if there is no newline.
proof fn lemma_cut_line(x: Seq<u8>) -> (r: Option<(TextLine, Seq<u8>)>)
    ensures
        match r {
            Some((l, rest)) => l.wf() && x == l.bytes() + rest,
            None => one_line(x),
        },
{
    lemma_newline_from(x, 0);
    match newline_from(x, 0) {
        Some(e) => Some((lemma_first_line(x, e), x.skip(e + 1))),
        None => None,
    }
}

proof fn lemma_led(l: TextLine, b: u8) -> (x: Seq<u8>)
    requires
        l.starts_with(b),
    ensures
        l.text == seq![b] + x,
{
    let x = l.text.skip(1);
    assert(l.text =~= seq![b] + x);
    x
}

/// The start of some text: a record and what follows it, or what there is of one.
proof fn lemma_cut_record(x: Seq<u8>) -> (r: Result<(Record, Seq<u8>), Tail>)
    ensures
        match r {
            Ok((r, rest)) => r.wf() && x == r.bytes() + rest,
            Err(tail) => tail.wf() && x == tail.bytes(),
        },
{
    let none = Seq::<u8>::empty();
    let blank = Record { name: none, seq: none, note: none, qual: none, crs: (false, false, false, false) };
    if x.len() == 0 {
        assert(x =~= none);
        Err(Tail::Nothing)
    } else {
        match lemma_cut_line(x) {
            None => Err(Tail::CutName(x)),
            Some((l1, x1)) => if !l1.starts_with(64) {
                Err(Tail::NoName(l1, x1))
            } else {
                let r1 = Record { name: lemma_led(l1, 64), crs: (l1.cr, false, false, false), ..blank };
                assert(r1.name_line() == l1);
                match lemma_cut_line(x1) {
                    None => Err(Tail::CutSeq(r1, x1)),
                    Some((l2, x2)) => {
                        let r2 = Record { seq: l2.text, crs: (l1.cr, l2.cr, false, false), ..r1 };
                        assert(r2.name_line() == l1 && r2.seq_line() == l2);
                        lemma_cut_rest(x, r2, x2)
                    },
                }
            },
        }
    }
}

/// The third and fourth line of a record.
proof fn lemma_cut_rest(x: Seq<u8>, r2: Record, x2: Seq<u8>) -> (r: Result<(Record, Seq<u8>), Tail>)
    requires
        r2.name_line().wf(),
        r2.seq_line().wf(),
        x == r2.name_line().bytes() + (r2.seq_line().bytes() + x2),
    ensures
        match r {
            Ok((r, rest)) => r.wf() && x == r.bytes() + rest,
            Err(tail) => tail.wf() && x == tail.bytes(),
        },
{
    match lemma_cut_line(x2) {
        None => Err(Tail::CutNote(r2, x2)),
        Some((l3, x3)) => if !l3.starts_with(43) {
            Err(Tail::NoSeparator(r2, l3, x3))
        } else {
            let r3 = Record { note: lemma_led(l3, 43), crs: (r2.crs.0, r2.crs.1, l3.cr, false), ..r2 };
            assert(r3.name_line() == r2.name_line() && r3.seq_line() == r2.seq_line() && r3.note_line() == l3);
            match lemma_cut_line(x3) {
                None => if x3.len() == 0 {
                    assert(l3.bytes() + x3 =~= l3.bytes());
                    Err(Tail::CutQual(r3))
                } else {
                    let l4 = lemma_as_line(x3);
                    if l4.text.len() != r3.seq.len() {
                        Err(Tail::WrongLength(r3, l4, None))
                    } else {
                        let r4 = Record { qual: l4.text, crs: (r2.crs.0, r2.crs.1, l3.cr, l4.cr), ..r3 };
                        assert(r4.name_line() == r2.name_line() && r4.seq_line() == r2.seq_line());
                        assert(r4.note_line() == l3 && r4.qual_line() == l4);
                        Err(Tail::Open(r4))
                    }
                },
                Some((l4, x4)) => if l4.text.len() != r3.seq.len() {
                    Err(Tail::WrongLength(r3, l4, Some(x4)))
                } else {
                    let r4 = Record { qual: l4.text, crs: (r2.crs.0, r2.crs.1, l3.cr, l4.cr), ..r3 };
                    assert(r4.name_line() == r2.name_line() && r4.seq_line() == r2.seq_line());
                    assert(r4.note_line() == l3 && r4.qual_line() == l4);
                    assert(x =~= r4.bytes() + x4);
                    Ok((r4, x4))
                },
            }
        },
    }
}

/// Every text is whole records and then what there is of another one. With
/// [`law_split_inverts_writing`] this says what comes of every text.
pub proof fn law_texts(x: Seq<u8>) -> (r: (Seq<Record>, Tail))
    ensures
        records_wf(r.0),
        r.1.wf(),
        x == records_text(r.0) + r.1.bytes(),
        columns_of(x) == r.1.outcome(with_records(no_columns(), r.0)),
{
    let (rs, tail) = lemma_texts(x);
    law_split_inverts_writing(rs, tail);
    (rs, tail)
}

proof fn lemma_texts(x: Seq<u8>) -> (r: (Seq<Record>, Tail))
    ensures
        records_wf(r.0),
        r.1.wf(),
        x == records_text(r.0) + r.1.bytes(),
    decreases x.len(),
{
    match lemma_cut_record(x) {
        Err(tail) => {
            assert(Seq::<u8>::empty() + tail.bytes() =~= tail.bytes());
            (Seq::empty(), tail)
        },
        Ok((r, rest)) => {
            let (more, tail) = lemma_texts(rest);
            let rs = seq![r] + more;
            assert(rs.skip(1) =~= more);
            assert(rs[0] == r);
            assert(x =~= records_text(rs) + tail.bytes());
            assert forall|i: int| 0 <= i < rs.len() implies (#[trigger] rs[i]).wf() by {
                if i > 0 {
                    assert(rs[i] == more[i - 1]);
                }
            }
            (rs, tail)
        },
    }
}

} // verus!
