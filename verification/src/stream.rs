//! The record stream: splits a document into logical lines on `\n`/`\r`
//! boundaries, skips empty lines, and classifies each remaining line.

use vstd::prelude::*;

use crate::grammar::classify_line;
use crate::record::{MappingRecord, RecordModel};
use crate::text::{find_term, find_term_from, lemma_find_term_from};

verus! {

/// The first logical line of `s` (without its terminator) and the remainder
/// after the terminator; without a terminator the whole of `s` is the line.
pub open spec fn spec_split_line(s: Seq<u8>) -> (Seq<u8>, Seq<u8>) {
    match find_term_from(s, 0) {
        None => (s, Seq::empty()),
        Some(i) => (s.subrange(0, i), s.subrange(i + 1, s.len() as int)),
    }
}

/// Splitting a non-empty buffer strictly shrinks the remainder.
pub proof fn lemma_split_line_len(s: Seq<u8>)
    requires
        s.len() > 0,
    ensures
        spec_split_line(s).1.len() < s.len(),
        spec_split_line(s).0.len() <= s.len(),
{
    lemma_find_term_from(s, 0);
}

/// The first non-empty line of `s` and the rest of the buffer after it,
/// or `None` when only terminators remain.
pub open spec fn spec_next_line(s: Seq<u8>) -> Option<(Seq<u8>, Seq<u8>)>
    decreases s.len(),
    via spec_next_line_decreases
{
    if s.len() == 0 {
        None
    } else {
        let (l, r) = spec_split_line(s);
        if l.len() > 0 {
            Some((l, r))
        } else {
            spec_next_line(r)
        }
    }
}

#[via_fn]
proof fn spec_next_line_decreases(s: Seq<u8>) {
    if s.len() > 0 {
        lemma_split_line_len(s);
    }
}

/// Taking the first non-empty line strictly shrinks the rest.
pub proof fn lemma_next_line_len(s: Seq<u8>)
    ensures
        match spec_next_line(s) {
            Some((l, r)) => r.len() < s.len() && l.len() > 0,
            None => true,
        },
    decreases s.len(),
{
    if s.len() > 0 {
        lemma_split_line_len(s);
        let (l, r) = spec_split_line(s);
        if l.len() == 0 {
            lemma_next_line_len(r);
        }
    }
}

/// The whole sequence of classification outcomes of a document, one per
/// non-empty line, in document order: the classified record, or the line's
/// own bytes where it is not valid UTF-8 or matches no record shape.
pub open spec fn spec_stream(s: Seq<u8>) -> Seq<Result<RecordModel, Seq<u8>>>
    decreases s.len(),
    via spec_stream_decreases
{
    match spec_next_line(s) {
        None => Seq::empty(),
        Some((l, r)) => {
            let head = match classify_line(l) {
                Some(m) => Ok::<RecordModel, Seq<u8>>(m),
                None => Err::<RecordModel, Seq<u8>>(l),
            };
            seq![head] + spec_stream(r)
        },
    }
}

#[via_fn]
proof fn spec_stream_decreases(s: Seq<u8>) {
    lemma_next_line_len(s);
}

/// A document every non-empty line of which is valid UTF-8 and matches
/// some record shape.
pub open spec fn well_formed(s: Seq<u8>) -> bool
    decreases s.len(),
    via well_formed_decreases
{
    match spec_next_line(s) {
        None => true,
        Some((l, r)) => classify_line(l) is Some && well_formed(r),
    }
}

#[via_fn]
proof fn well_formed_decreases(s: Seq<u8>) {
    lemma_next_line_len(s);
}

/// Round trip over a whole document: classifying every non-empty line of a
/// well-formed document yields no unparsable line.
pub proof fn lemma_round_trip(s: Seq<u8>)
    requires
        well_formed(s),
    ensures
        forall|i: int| 0 <= i < spec_stream(s).len() ==> spec_stream(s)[i] is Ok,
    decreases s.len(),
{
    lemma_next_line_len(s);
    match spec_next_line(s) {
        None => {
        },
        Some((l, r)) => {
            lemma_round_trip(r);
            assert(forall|i: int|
                0 < i < spec_stream(s).len() ==> spec_stream(s)[i] == spec_stream(r)[i - 1]);
        },
    }
}

/// A mapping file held as one immutable byte buffer.
pub struct ProguardMapping<'s> {
    source: &'s [u8],
}

impl<'s> View for ProguardMapping<'s> {
    type V = Seq<u8>;

    closed spec fn view(&self) -> Seq<u8> {
        self.source@
    }
}

impl<'s> ProguardMapping<'s> {
    /// Creates a new mapping over a borrowed buffer.
    pub fn new(source: &'s [u8]) -> (r: Self)
        ensures
            r@ == source@,
    {
        Self { source }
    }

    /// Returns the backing slice.
    #[allow(dead_code)]
    pub(crate) fn into_source(self) -> (r: &'s [u8])
        ensures
            r@ == self@,
    {
        self.source
    }

    /// The backing slice, for the crate's own readers of the raw bytes.
    pub(crate) fn source_slice(&self) -> (r: &'s [u8])
        ensures
            r@ == self@,
    {
        self.source
    }

    /// Creates an iterator over the records of the document.
    pub fn iter(&self) -> (it: MappingRecordIter<'s>)
        ensures
            it@ == self@,
    {
        MappingRecordIter { slice: self.source }
    }
}

/// An iterator yielding one classification outcome per non-empty line.
///
/// Restartable by taking a fresh iterator from the same mapping; not
/// resumable mid-stream.
pub struct MappingRecordIter<'s> {
    slice: &'s [u8],
}

impl<'s> View for MappingRecordIter<'s> {
    type V = Seq<u8>;

    closed spec fn view(&self) -> Seq<u8> {
        self.slice@
    }
}

impl<'s> MappingRecordIter<'s> {
    /// Yields the classification of the next non-empty line: the parsed
    /// record, or the line's own bytes where it is not valid UTF-8 or
    /// matches no record shape; `None` once the buffer is exhausted.
    pub fn next(&mut self) -> (r: Option<Result<MappingRecord<'s>, &'s [u8]>>)
        ensures
            match spec_next_line(old(self)@) {
                None => r is None && final(self)@ == Seq::<u8>::empty(),
                Some((l, rest)) => final(self)@ == rest && match r {
                    Some(Ok(rec)) => classify_line(l) == Some(rec@),
                    Some(Err(e)) => classify_line(l) is None && e@ == l,
                    None => false,
                },
            },
    {
        let ghost orig = self.slice@;
        loop
            invariant
                old(self)@ == orig,
                spec_next_line(self.slice@) == spec_next_line(orig),
            decreases self.slice@.len(),
        {
            let s = self.slice;
            let n = s.len();
            if n == 0 {
                assert(s@ =~= Seq::<u8>::empty());
                return None;
            }
            let line_end: usize;
            let rest_start: usize;
            match find_term(s, 0) {
                Some(i) => {
                    line_end = i;
                    rest_start = i + 1;
                },
                None => {
                    line_end = n;
                    rest_start = n;
                },
            }
            let line = &s[0..line_end];
            let rest = &s[rest_start..n];
            proof {
                if find_term_from(s@, 0) is None {
                    assert(line@ =~= s@);
                    assert(rest@ =~= Seq::<u8>::empty());
                }
                assert(spec_split_line(s@) == (line@, rest@));
            }
            self.slice = rest;
            if line.len() > 0 {
                return Some(
                    match MappingRecord::try_parse(line) {
                        Some(m) => Ok(m),
                        None => Err(line),
                    },
                );
            }
        }
    }
}

} // verus!
