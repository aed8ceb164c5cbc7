//! The lookup engine: locates a class by its obfuscated alias and the byte
//! span of its body, and resolves field and method records inside that span.

use vstd::prelude::*;

use crate::grammar::{classify_spec, parse_mapping};
use crate::record::{MappingRecord, MethodModel, RecordModel};
use crate::stream::{spec_next_line, spec_split_line};
use crate::text::{
    append_bytes, ascii_chars, bytes_eq, bytes_to_string, lossy_text_of, find_byte_from, find_from, find_term,
    find_term_from, is_ascii_bytes, is_digit, lemma_find_from, lemma_find_term_from,
};
use vstd::string::StringSliceAdditionalSpecFns;
use crate::LineMapping;

verus! {

/// The index of the terminator that ends the line starting at `i`, or the
/// document's length if the line is the last one.
pub open spec fn line_end_from(s: Seq<u8>, i: int) -> int {
    match find_term_from(s, i) {
        None => s.len() as int,
        Some(j) => j,
    }
}

/// The start of the line after the one starting at `i`.
pub open spec fn next_line_start(s: Seq<u8>, i: int) -> int {
    let e = line_end_from(s, i);
    if e < s.len() {
        e + 1
    } else {
        e
    }
}

/// The content of the line starting at `i`, without its terminator.
pub open spec fn line_at(s: Seq<u8>, i: int) -> Seq<u8> {
    s.subrange(i, line_end_from(s, i))
}

pub proof fn lemma_next_line_start(s: Seq<u8>, i: int)
    requires
        0 <= i <= s.len(),
    ensures
        i <= line_end_from(s, i) <= s.len(),
        i < s.len() ==> i < next_line_start(s, i) <= s.len(),
        i == s.len() ==> next_line_start(s, i) == i,
{
    lemma_find_term_from(s, i);
}

/// Whether the line classifies as a class declaration.
pub open spec fn is_class_line(l: Seq<u8>) -> bool {
    classify_spec(l) matches Some(RecordModel::Class { .. })
}

/// The obfuscated alias a class-declaration line defines.
pub open spec fn class_alias_of(l: Seq<u8>) -> Seq<u8> {
    match classify_spec(l) {
        Some(RecordModel::Class { obfuscated, .. }) => obfuscated,
        _ => Seq::empty(),
    }
}

/// The original name a class-declaration line defines.
pub open spec fn class_original_of(l: Seq<u8>) -> Seq<u8> {
    match classify_spec(l) {
        Some(RecordModel::Class { original, .. }) => original,
        _ => Seq::empty(),
    }
}

/// The start offset of the first class-declaration line at or after line
/// start `i` whose alias is `alias`, scanning in document order.
pub open spec fn spec_find_class_at(s: Seq<u8>, alias: Seq<u8>, i: int) -> Option<int>
    decreases s.len() - i,
    via spec_find_class_at_decreases
{
    if !(0 <= i < s.len()) {
        None
    } else {
        let l = line_at(s, i);
        if is_class_line(l) && class_alias_of(l) == alias {
            Some(i)
        } else {
            spec_find_class_at(s, alias, next_line_start(s, i))
        }
    }
}

#[via_fn]
proof fn spec_find_class_at_decreases(s: Seq<u8>, alias: Seq<u8>, i: int) {
    if 0 <= i < s.len() {
        lemma_next_line_start(s, i);
    }
}

/// The start offset of the first class-declaration line at or after line
/// start `i`, whatever its alias.
pub open spec fn spec_next_class_at(s: Seq<u8>, i: int) -> Option<int>
    decreases s.len() - i,
    via spec_next_class_at_decreases
{
    if !(0 <= i < s.len()) {
        None
    } else {
        if is_class_line(line_at(s, i)) {
            Some(i)
        } else {
            spec_next_class_at(s, next_line_start(s, i))
        }
    }
}

#[via_fn]
proof fn spec_next_class_at_decreases(s: Seq<u8>, i: int) {
    if 0 <= i < s.len() {
        lemma_next_line_start(s, i);
    }
}

/// Where a class body starting at line start `b` ends: at the start of the
/// next class-declaration line, or at the end of the document.
pub open spec fn spec_span_end(s: Seq<u8>, b: int) -> int {
    match spec_next_class_at(s, b) {
        None => s.len() as int,
        Some(k) => k,
    }
}

/// Model of a located class: its names and the bytes of its body span.
pub struct ClassModel {
    /// The original name of the class.
    pub class_name: Seq<u8>,
    /// The obfuscated alias of the class.
    pub alias: Seq<u8>,
    /// The bytes between the declaration line and the next one.
    pub buf: Seq<u8>,
}

/// What looking a class up by its alias yields: the first declaration in
/// document order whose alias matches, with its body span.
pub open spec fn spec_find_class(s: Seq<u8>, alias: Seq<u8>) -> Option<ClassModel> {
    match spec_find_class_at(s, alias, 0) {
        None => None,
        Some(i) => {
            let l = line_at(s, i);
            let b = next_line_start(s, i);
            Some(
                ClassModel {
                    class_name: class_original_of(l),
                    alias: class_alias_of(l),
                    buf: s.subrange(b, spec_span_end(s, b)),
                },
            )
        },
    }
}

/// Whether a method-shaped line opens with a line-range prefix: its member
/// text begins with a digit, so a leading `<int>:<int>:` range was read,
/// whatever its value.
pub open spec fn method_line_with_range(l: Seq<u8>) -> bool {
    &&& classify_spec(l) matches Some(RecordModel::Method(_))
    &&& l.len() > 4
    &&& is_digit(l[4])
}

/// Whether some method-shaped line of the buffer carries a leading
/// line-range prefix, a zero-valued one included.
pub open spec fn stream_has_line_info(s: Seq<u8>) -> bool
    decreases s.len(),
    via stream_has_line_info_decreases
{
    match spec_next_line(s) {
        None => false,
        Some((l, r)) => method_line_with_range(l) || stream_has_line_info(r),
    }
}

#[via_fn]
proof fn stream_has_line_info_decreases(s: Seq<u8>) {
    crate::stream::lemma_next_line_len(s);
}

/// The bytes behind a mapping view: borrowed from the caller, or owned.
enum Backing<'a> {
    Borrowed(&'a [u8]),
    Owned(Vec<u8>),
}

/// A view over a whole mapping text document.
pub struct MappingView<'a> {
    backing: Backing<'a>,
}

impl<'a> View for MappingView<'a> {
    type V = Seq<u8>;

    closed spec fn view(&self) -> Seq<u8> {
        match self.backing {
            Backing::Borrowed(b) => b@,
            Backing::Owned(v) => v@,
        }
    }
}

/// Class mapping information located in a document: the two names and the
/// body span holding the class's member lines.
pub struct Class<'a> {
    alias: &'a [u8],
    class_name: &'a [u8],
    buf: &'a [u8],
}

impl<'a> View for Class<'a> {
    type V = ClassModel;

    closed spec fn view(&self) -> ClassModel {
        ClassModel { class_name: self.class_name@, alias: self.alias@, buf: self.buf@ }
    }
}

impl<'a> MappingView<'a> {
    /// Creates a mapping view from a borrowed byte slice.
    pub fn from_slice(buffer: &'a [u8]) -> (r: MappingView<'a>)
        ensures
            r@ == buffer@,
    {
        MappingView { backing: Backing::Borrowed(buffer) }
    }

    /// Creates a mapping view from an owned vector.
    pub fn from_vec(buffer: Vec<u8>) -> (r: MappingView<'a>)
        ensures
            r@ == buffer@,
    {
        MappingView { backing: Backing::Owned(buffer) }
    }

    /// The backing bytes, for the crate's own readers of the raw bytes.
    pub(crate) fn source_slice(&self) -> (r: &[u8])
        ensures
            r@ == self@,
    {
        match &self.backing {
            Backing::Borrowed(b) => b,
            Backing::Owned(v) => v.as_slice(),
        }
    }

    /// Returns `true` if the mapping file contains line information.
    pub fn has_line_info(&self) -> (r: bool)
        ensures
            r == stream_has_line_info(self@),
    {
        let mut rem: &[u8] = self.source_slice();
        loop
            invariant
                stream_has_line_info(self@) == stream_has_line_info(rem@),
            decreases rem@.len(),
        {
            let n = rem.len();
            if n == 0 {
                return false;
            }
            let line_end: usize;
            let rest_start: usize;
            match find_term(rem, 0) {
                Some(i) => {
                    line_end = i;
                    rest_start = i + 1;
                },
                None => {
                    line_end = n;
                    rest_start = n;
                },
            }
            let line = &rem[0..line_end];
            let rest = &rem[rest_start..n];
            proof {
                if find_term_from(rem@, 0) is None {
                    assert(line@ =~= rem@);
                    assert(rest@ =~= Seq::<u8>::empty());
                }
                assert(spec_split_line(rem@) == (line@, rest@));
            }
            if line.len() > 0 {
                match parse_mapping(line) {
                    Some(MappingRecord::Method { .. }) => {
                        if line.len() > 4 && 48 <= line[4] && line[4] <= 57 {
                            return true;
                        }
                    },
                    _ => {},
                }
            }
            rem = rest;
        }
    }

    /// Locates a class by an obfuscated alias: the first class-declaration
    /// line in document order whose alias matches, together with the byte
    /// span of its body (until the next class declaration, or the end of the
    /// document).
    #[verifier::rlimit(50)]
    pub fn find_class(&'a self, alias: &str) -> (r: Option<Class<'a>>)
        ensures
            match r {
                Some(cls) => spec_find_class(self@, alias.spec_bytes()) == Some(cls@),
                None => spec_find_class(self@, alias.spec_bytes()) is None,
            },
    {
        let abytes = alias.as_bytes();
        let s = self.source_slice();
        let n = s.len();
        let ghost aseq = alias.spec_bytes();
        let mut pos: usize = 0;
        loop
            invariant
                pos <= n,
                n == s@.len(),
                s@ == self@,
                abytes@ == aseq,
                aseq == alias.spec_bytes(),
                spec_find_class_at(s@, aseq, 0) == spec_find_class_at(s@, aseq, pos as int),
            decreases n - pos,
        {
            if pos >= n {
                return None;
            }
            let line_end: usize;
            let nxt: usize;
            match find_term(s, pos) {
                Some(j) => {
                    line_end = j;
                    nxt = j + 1;
                },
                None => {
                    line_end = n;
                    nxt = n;
                },
            }
            let line = &s[pos..line_end];
            proof {
                assert(line_at(s@, pos as int) == line@);
                assert(next_line_start(s@, pos as int) == nxt as int);
            }
            match parse_mapping(line) {
                Some(MappingRecord::Class { original, obfuscated }) => {
                    proof {
                        assert(is_class_line(line@));
                        assert(class_alias_of(line@) == obfuscated@);
                        assert(class_original_of(line@) == original@);
                    }
                    if bytes_eq(obfuscated, abytes) {
                        proof {
                            assert(spec_find_class_at(s@, aseq, pos as int) == Some(pos as int));
                        }
                        let end = find_next_class(s, nxt);
                        let cls = Class {
                            alias: obfuscated,
                            class_name: original,
                            buf: &s[nxt..end],
                        };
                        proof {
                            assert(cls@.buf == s@.subrange(
                                next_line_start(s@, pos as int),
                                spec_span_end(s@, next_line_start(s@, pos as int)),
                            ));
                            assert(spec_find_class(s@, aseq) == Some(cls@));
                        }
                        return Some(cls);
                    }
                    proof {
                        assert(class_alias_of(line@) != aseq);
                        assert(spec_find_class_at(s@, aseq, pos as int) == spec_find_class_at(
                            s@,
                            aseq,
                            nxt as int,
                        ));
                    }
                },
                _ => {
                    proof {
                        assert(!(is_class_line(line@) && class_alias_of(line@) == aseq));
                        assert(spec_find_class_at(s@, aseq, pos as int) == spec_find_class_at(
                            s@,
                            aseq,
                            nxt as int,
                        ));
                    }
                },
            }
            pos = nxt;
        }
    }
}

/// Model of a located field: its type and its two names.
pub struct FieldModel {
    /// The type of the field.
    pub ty: Seq<u8>,
    /// The original name of the field.
    pub name: Seq<u8>,
    /// The obfuscated alias of the field.
    pub alias: Seq<u8>,
}

/// The first field record in the span whose obfuscated alias matches.
pub open spec fn spec_find_field(s: Seq<u8>, alias: Seq<u8>) -> Option<FieldModel>
    decreases s.len(),
    via spec_find_field_decreases
{
    match spec_next_line(s) {
        None => None,
        Some((l, r)) => match classify_spec(l) {
            Some(RecordModel::Field { ty, original, obfuscated }) => if obfuscated == alias {
                Some(FieldModel { ty, name: original, alias: obfuscated })
            } else {
                spec_find_field(r, alias)
            },
            _ => spec_find_field(r, alias),
        },
    }
}

#[via_fn]
proof fn spec_find_field_decreases(s: Seq<u8>, alias: Seq<u8>) {
    crate::stream::lemma_next_line_len(s);
}

/// Field mapping information located inside a class span.
pub struct FieldInfo<'a> {
    ty: &'a [u8],
    alias: &'a [u8],
    name: &'a [u8],
}

impl<'a> View for FieldInfo<'a> {
    type V = FieldModel;

    closed spec fn view(&self) -> FieldModel {
        FieldModel { ty: self.ty@, name: self.name@, alias: self.alias@ }
    }
}

impl<'a> Class<'a> {
    /// Looks up a field by an alias: the first field record in the class's
    /// span whose obfuscated alias matches.
    pub fn get_field(&self, alias: &str) -> (r: Option<FieldInfo<'a>>)
        ensures
            match r {
                Some(fi) => spec_find_field(self@.buf, alias.spec_bytes()) == Some(fi@),
                None => spec_find_field(self@.buf, alias.spec_bytes()) is None,
            },
    {
        let abytes = alias.as_bytes();
        let ghost aseq = alias.spec_bytes();
        let mut rem: &[u8] = self.buf;
        loop
            invariant
                abytes@ == aseq,
                aseq == alias.spec_bytes(),
                spec_find_field(self@.buf, aseq) == spec_find_field(rem@, aseq),
            decreases rem@.len(),
        {
            let n = rem.len();
            if n == 0 {
                return None;
            }
            let line_end: usize;
            let rest_start: usize;
            match find_term(rem, 0) {
                Some(i) => {
                    line_end = i;
                    rest_start = i + 1;
                },
                None => {
                    line_end = n;
                    rest_start = n;
                },
            }
            let line = &rem[0..line_end];
            let rest = &rem[rest_start..n];
            proof {
                if find_term_from(rem@, 0) is None {
                    assert(line@ =~= rem@);
                    assert(rest@ =~= Seq::<u8>::empty());
                }
                assert(spec_split_line(rem@) == (line@, rest@));
            }
            if line.len() > 0 {
                match parse_mapping(line) {
                    Some(MappingRecord::Field { ty, original, obfuscated }) => {
                        if bytes_eq(obfuscated, abytes) {
                            return Some(FieldInfo { ty, name: original, alias: obfuscated });
                        }
                    },
                    _ => {},
                }
            }
            rem = rest;
        }
    }
}

/// The start of a method's obfuscated range, or 0 when unknown.
pub open spec fn spec_first_line(m: MethodModel) -> usize {
    match m.line_mapping {
        Some(lm) => lm.startline,
        None => 0,
    }
}

/// Whether a candidate survives the line filter: the query is absent, the
/// candidate has no line mapping, or the queried line falls within the
/// obfuscated range, inclusive on both ends.
pub open spec fn spec_matches_line(m: MethodModel, q: Option<usize>) -> bool {
    match q {
        None => true,
        Some(qv) => match m.line_mapping {
            None => true,
            Some(lm) => lm.startline <= qv && qv <= lm.endline,
        },
    }
}

/// The ranking metric: the distance between the queried line (0 if absent)
/// and the candidate's range start. The range's start value serves on both
/// ends of the comparison; see the notes on `last_line`.
pub open spec fn spec_line_key(m: MethodModel, q: Option<usize>) -> int {
    let qv: int = match q {
        Some(v) => v as int,
        None => 0,
    };
    let f = spec_first_line(m) as int;
    if f >= qv {
        f - qv
    } else {
        qv - f
    }
}

/// All method records in the span whose alias matches the query and which
/// survive the line filter, in document order.
pub open spec fn spec_method_candidates(s: Seq<u8>, alias: Seq<u8>, q: Option<usize>) -> Seq<
    MethodModel,
>
    decreases s.len(),
    via spec_method_candidates_decreases
{
    match spec_next_line(s) {
        None => Seq::empty(),
        Some((l, r)) => {
            let tail = spec_method_candidates(r, alias, q);
            match classify_spec(l) {
                Some(RecordModel::Method(m)) => if m.obfuscated == alias && spec_matches_line(
                    m,
                    q,
                ) {
                    seq![m] + tail
                } else {
                    tail
                },
                _ => tail,
            }
        },
    }
}

#[via_fn]
proof fn spec_method_candidates_decreases(s: Seq<u8>, alias: Seq<u8>, q: Option<usize>) {
    crate::stream::lemma_next_line_len(s);
}

/// Stable insertion of a candidate: it goes after every element whose key is
/// at most its own, so equal keys keep document order.
pub open spec fn insert_ranked(s: Seq<MethodModel>, x: MethodModel, q: Option<usize>) -> Seq<
    MethodModel,
>
    decreases s.len(),
{
    if s.len() == 0 {
        seq![x]
    } else if spec_line_key(x, q) >= spec_line_key(s.last(), q) {
        s.push(x)
    } else {
        insert_ranked(s.drop_last(), x, q).push(s.last())
    }
}

/// The candidates ordered by ascending distance to the queried line, ties
/// keeping document order: a stable insertion sort.
pub open spec fn rank_methods(s: Seq<MethodModel>, q: Option<usize>) -> Seq<MethodModel>
    decreases s.len(),
{
    if s.len() == 0 {
        s
    } else {
        insert_ranked(rank_methods(s.drop_last(), q), s.last(), q)
    }
}

/// What looking methods up yields: the alias's surviving candidates, ranked.
pub open spec fn spec_get_methods(s: Seq<u8>, alias: Seq<u8>, q: Option<usize>) -> Seq<
    MethodModel,
> {
    rank_methods(spec_method_candidates(s, alias, q), q)
}

/// Method mapping information located inside a class span.
#[derive(Clone, Copy)]
pub struct MethodInfo<'a> {
    ty: &'a [u8],
    original: &'a [u8],
    obfuscated: &'a [u8],
    arguments: &'a [u8],
    original_class: Option<&'a [u8]>,
    line_mapping: Option<LineMapping>,
}

impl<'a> View for MethodInfo<'a> {
    type V = MethodModel;

    closed spec fn view(&self) -> MethodModel {
        MethodModel {
            ty: self.ty@,
            original: self.original@,
            obfuscated: self.obfuscated@,
            arguments: self.arguments@,
            original_class: match self.original_class {
                Some(c) => Some(c@),
                None => None,
            },
            line_mapping: self.line_mapping,
        }
    }
}

/// The models of a sequence of located methods, in the same order.
pub open spec fn views_of(s: Seq<MethodInfo>) -> Seq<MethodModel> {
    Seq::new(s.len(), |i: int| s[i]@)
}

impl<'a> MethodInfo<'a> {
    /// Returns the first line of the method's obfuscated range (or 0 if not
    /// known).
    pub fn first_line(&self) -> (r: usize)
        ensures
            r == spec_first_line(self@),
    {
        match self.line_mapping {
            Some(lm) => lm.startline,
            None => 0,
        }
    }

    /// Returns the last line of the method's obfuscated range (or 0 if not
    /// known). This reads the range's start value, exactly as `first_line`
    /// does: the ranking metric measures distance to the range start on both
    /// ends.
    pub fn last_line(&self) -> (r: usize)
        ensures
            r == spec_first_line(self@),
    {
        match self.line_mapping {
            Some(lm) => lm.startline,
            None => 0,
        }
    }

    /// The distance between the queried line (0 if absent) and the start of
    /// this method's range.
    fn line_diff(&self, lineno: Option<usize>) -> (r: usize)
        ensures
            r as int == spec_line_key(self@, lineno),
    {
        let q: usize = match lineno {
            Some(v) => v,
            None => 0,
        };
        let f = self.first_line();
        if f >= q {
            f - q
        } else {
            q - f
        }
    }

    /// Whether this method survives the line filter for the given query.
    fn matches_line(&self, lineno: Option<usize>) -> (r: bool)
        ensures
            r == spec_matches_line(self@, lineno),
    {
        match lineno {
            None => true,
            Some(q) => match self.line_mapping {
                None => true,
                Some(lm) => lm.startline <= q && q <= lm.endline,
            },
        }
    }
}

/// Stable insertion keeps every element whose key exceeds the new one to its
/// right; with none to its left exceeding it, the insertion point is pinned.
proof fn lemma_insert_ranked_at(s: Seq<MethodModel>, x: MethodModel, q: Option<usize>, j: int)
    requires
        0 <= j <= s.len(),
        forall|idx: int| j <= idx < s.len() ==> spec_line_key(#[trigger] s[idx], q) > spec_line_key(
            x,
            q,
        ),
        j > 0 ==> spec_line_key(s[j - 1], q) <= spec_line_key(x, q),
    ensures
        insert_ranked(s, x, q) == s.insert(j, x),
    decreases s.len(),
{
    if j == s.len() {
        if s.len() == 0 {
            assert(insert_ranked(s, x, q) =~= s.insert(0, x));
        } else {
            assert(spec_line_key(x, q) >= spec_line_key(s.last(), q));
            assert(s.push(x) =~= s.insert(j, x));
        }
    } else {
        assert(spec_line_key(s[s.len() - 1], q) > spec_line_key(x, q));
        let t = s.drop_last();
        assert(forall|idx: int| j <= idx < t.len() ==> #[trigger] t[idx] == s[idx]);
        if j > 0 {
            assert(t[j - 1] == s[j - 1]);
        }
        lemma_insert_ranked_at(t, x, q, j);
        assert(insert_ranked(s, x, q) == insert_ranked(t, x, q).push(s.last()));
        assert(t.insert(j, x).push(s.last()) =~= s.insert(j, x));
    }
}

/// Inserts a candidate into an already ranked vector, after every element
/// whose key is at most its own.
fn insert_sorted<'a>(out: &mut Vec<MethodInfo<'a>>, x: MethodInfo<'a>, lineno: Option<usize>)
    ensures
        views_of(final(out)@) == insert_ranked(views_of(old(out)@), x@, lineno),
{
    let k = x.line_diff(lineno);
    let mut j: usize = out.len();
    while j > 0 && out[j - 1].line_diff(lineno) > k
        invariant
            j <= out@.len(),
            out@ == old(out)@,
            k as int == spec_line_key(x@, lineno),
            forall|idx: int|
                j <= idx < out@.len() ==> spec_line_key(#[trigger] views_of(out@)[idx], lineno)
                    > spec_line_key(x@, lineno),
        decreases j,
    {
        j = j - 1;
    }
    proof {
        if j > 0 {
            assert(spec_line_key(views_of(out@)[j - 1], lineno) <= spec_line_key(x@, lineno));
        }
        lemma_insert_ranked_at(views_of(out@), x@, lineno, j as int);
    }
    out.insert(j, x);
    proof {
        assert(views_of(final(out)@) =~= views_of(old(out)@).insert(j as int, x@));
    }
}

/// Sorts the collected candidates by the ranking metric, stably.
fn rank_sort<'a>(v: Vec<MethodInfo<'a>>, lineno: Option<usize>) -> (r: Vec<MethodInfo<'a>>)
    ensures
        views_of(r@) == rank_methods(views_of(v@), lineno),
{
    let mut out: Vec<MethodInfo<'a>> = Vec::new();
    let mut i: usize = 0;
    while i < v.len()
        invariant
            i <= v@.len(),
            views_of(out@) == rank_methods(views_of(v@.take(i as int)), lineno),
        decreases v@.len() - i,
    {
        let x = v[i];
        insert_sorted(&mut out, x, lineno);
        proof {
            let pre = views_of(v@.take(i as int));
            let cur = views_of(v@.take(i as int + 1));
            assert(cur.drop_last() =~= pre);
            assert(cur.last() == v@[i as int]@);
            assert(rank_methods(cur, lineno) == insert_ranked(
                rank_methods(pre, lineno),
                v@[i as int]@,
                lineno,
            ));
        }
        i = i + 1;
    }
    proof {
        assert(v@.take(v@.len() as int) =~= v@);
    }
    out
}

impl<'a> Class<'a> {
    /// Looks up all matching methods for a given alias: every method record
    /// in the class's span whose alias matches and which survives the line
    /// filter, ordered by ascending distance between the queried line and
    /// the record's range start, ties keeping document order.
    pub fn get_methods(&self, alias: &str, lineno: Option<usize>) -> (r: Vec<MethodInfo<'a>>)
        ensures
            views_of(r@) == spec_get_methods(self@.buf, alias.spec_bytes(), lineno),
    {
        let abytes = alias.as_bytes();
        let ghost aseq = alias.spec_bytes();
        let mut rem: &[u8] = self.buf;
        let mut rv: Vec<MethodInfo<'a>> = Vec::new();
        while rem.len() > 0
            invariant
                abytes@ == aseq,
                aseq == alias.spec_bytes(),
                spec_method_candidates(self@.buf, aseq, lineno) == views_of(rv@)
                    + spec_method_candidates(rem@, aseq, lineno),
            decreases rem@.len(),
        {
            let n = rem.len();
            let line_end: usize;
            let rest_start: usize;
            match find_term(rem, 0) {
                Some(i) => {
                    line_end = i;
                    rest_start = i + 1;
                },
                None => {
                    line_end = n;
                    rest_start = n;
                },
            }
            let line = &rem[0..line_end];
            let rest = &rem[rest_start..n];
            proof {
                if find_term_from(rem@, 0) is None {
                    assert(line@ =~= rem@);
                    assert(rest@ =~= Seq::<u8>::empty());
                }
                assert(spec_split_line(rem@) == (line@, rest@));
            }
            if line.len() > 0 {
                match parse_mapping(line) {
                    Some(
                        MappingRecord::Method {
                            ty,
                            original,
                            obfuscated,
                            arguments,
                            original_class,
                            line_mapping,
                        },
                    ) => {
                        let m = MethodInfo {
                            ty,
                            original,
                            obfuscated,
                            arguments,
                            original_class,
                            line_mapping,
                        };
                        let ghost pre = views_of(rv@);
                        if bytes_eq(obfuscated, abytes) && m.matches_line(lineno) {
                            rv.push(m);
                            proof {
                                assert(views_of(rv@) =~= pre.push(m@));
                                assert(pre + (seq![m@] + spec_method_candidates(
                                    rest@,
                                    aseq,
                                    lineno,
                                )) =~= pre.push(m@) + spec_method_candidates(rest@, aseq, lineno));
                            }
                        }
                    },
                    _ => {},
                }
            }
            rem = rest;
        }
        proof {
            assert(views_of(rv@) + spec_method_candidates(rem@, aseq, lineno) =~= views_of(rv@));
        }
        rank_sort(rv, lineno)
    }
}

/// The comma-separated pieces of a non-empty argument list, empty pieces
/// included.
pub open spec fn split_commas(s: Seq<u8>) -> Seq<Seq<u8>>
    decreases s.len(),
    via split_commas_decreases
{
    match find_from(s, 0, 44) {
        None => seq![s],
        Some(i) => seq![s.subrange(0, i)] + split_commas(s.subrange(i + 1, s.len() as int)),
    }
}

#[via_fn]
proof fn split_commas_decreases(s: Seq<u8>) {
    lemma_find_from(s, 0, 44);
}

/// The argument terms of a method: one per comma-separated piece, and none
/// at all for an empty argument list.
pub open spec fn spec_args(s: Seq<u8>) -> Seq<Seq<u8>> {
    if s.len() == 0 {
        Seq::empty()
    } else {
        split_commas(s)
    }
}

/// The raw argument text with a space inserted after each comma, as the
/// rendered signature shows it.
pub open spec fn expand_commas(s: Seq<u8>) -> Seq<u8>
    decreases s.len(),
{
    if s.len() == 0 {
        Seq::empty()
    } else {
        let p = expand_commas(s.drop_last());
        if s.last() == 44 {
            p + seq![44u8, 32u8]
        } else {
            p + seq![s.last()]
        }
    }
}

/// The rendered signature of a method: its return type, its name, and its
/// argument list in parentheses, commas followed by a space.
pub open spec fn method_text(m: MethodModel) -> Seq<u8> {
    m.ty + seq![32u8] + m.original + seq![40u8] + expand_commas(m.arguments) + seq![41u8]
}

/// The rendered form of a field: its type and its original name.
pub open spec fn field_text(f: FieldModel) -> Seq<u8> {
    f.ty + seq![32u8] + f.name
}

/// The not-yet-yielded argument terms of a method.
pub struct Args<'a> {
    rest: &'a [u8],
    done: bool,
}

impl<'a> View for Args<'a> {
    type V = Seq<Seq<u8>>;

    closed spec fn view(&self) -> Seq<Seq<u8>> {
        if self.done {
            Seq::empty()
        } else {
            split_commas(self.rest@)
        }
    }
}

impl<'a> Args<'a> {
    /// Yields the next argument term, one per comma-separated piece.
    pub fn next(&mut self) -> (r: Option<&'a [u8]>)
        ensures
            match r {
                None => old(self)@.len() == 0 && final(self)@ == old(self)@,
                Some(piece) => old(self)@.len() > 0 && piece@ == old(self)@[0] && final(self)@
                    == old(self)@.drop_first(),
            },
    {
        if self.done {
            return None;
        }
        let n = self.rest.len();
        match find_byte_from(self.rest, 0, 44) {
            Some(i) => {
                let piece = &self.rest[0..i];
                let tail = &self.rest[i + 1..n];
                proof {
                    assert((seq![piece@] + split_commas(tail@)).drop_first() =~= split_commas(
                        tail@,
                    ));
                }
                self.rest = tail;
                Some(piece)
            },
            None => {
                let piece = self.rest;
                proof {
                    assert(split_commas(piece@) == seq![piece@]);
                    assert(seq![piece@].drop_first() =~= Seq::<Seq<u8>>::empty());
                }
                self.done = true;
                Some(piece)
            },
        }
    }
}

impl<'a> Class<'a> {
    /// Returns the original name of the class.
    pub fn class_name(&self) -> (r: String)
        ensures
            r@ == lossy_text_of(self@.class_name),
            is_ascii_bytes(self@.class_name) ==> r@ == ascii_chars(self@.class_name),
    {
        bytes_to_string(self.class_name)
    }

    /// Returns the obfuscated alias of the class.
    pub fn alias(&self) -> (r: String)
        ensures
            r@ == lossy_text_of(self@.alias),
            is_ascii_bytes(self@.alias) ==> r@ == ascii_chars(self@.alias),
    {
        bytes_to_string(self.alias)
    }
}

impl<'a> FieldInfo<'a> {
    /// Returns the original name of the field.
    pub fn name(&self) -> (r: String)
        ensures
            r@ == lossy_text_of(self@.name),
            is_ascii_bytes(self@.name) ==> r@ == ascii_chars(self@.name),
    {
        bytes_to_string(self.name)
    }

    /// Returns the obfuscated alias of the field.
    pub fn alias(&self) -> (r: String)
        ensures
            r@ == lossy_text_of(self@.alias),
            is_ascii_bytes(self@.alias) ==> r@ == ascii_chars(self@.alias),
    {
        bytes_to_string(self.alias)
    }

    /// Returns the type of the field.
    pub fn field_type(&self) -> (r: String)
        ensures
            r@ == lossy_text_of(self@.ty),
            is_ascii_bytes(self@.ty) ==> r@ == ascii_chars(self@.ty),
    {
        bytes_to_string(self.ty)
    }

    /// Renders the field as `type name`.
    pub fn to_text(&self) -> (r: String)
        ensures
            r@ == lossy_text_of(field_text(self@)),
            is_ascii_bytes(field_text(self@)) ==> r@ == ascii_chars(field_text(self@)),
    {
        let mut buf: Vec<u8> = Vec::new();
        append_bytes(&mut buf, self.ty);
        buf.push(32);
        append_bytes(&mut buf, self.name);
        proof {
            assert(buf@ =~= field_text(self@));
        }
        bytes_to_string(buf.as_slice())
    }
}

impl<'a> MethodInfo<'a> {
    /// Returns the original (unqualified) name of the method.
    pub fn name(&self) -> (r: String)
        ensures
            r@ == lossy_text_of(self@.original),
            is_ascii_bytes(self@.original) ==> r@ == ascii_chars(self@.original),
    {
        bytes_to_string(self.original)
    }

    /// Returns the obfuscated alias of the method.
    pub fn alias(&self) -> (r: String)
        ensures
            r@ == lossy_text_of(self@.obfuscated),
            is_ascii_bytes(self@.obfuscated) ==> r@ == ascii_chars(self@.obfuscated),
    {
        bytes_to_string(self.obfuscated)
    }

    /// Returns the type of the return value.
    pub fn return_value(&self) -> (r: String)
        ensures
            r@ == lossy_text_of(self@.ty),
            is_ascii_bytes(self@.ty) ==> r@ == ascii_chars(self@.ty),
    {
        bytes_to_string(self.ty)
    }

    /// An iterator over the argument terms of the method: one per
    /// comma-separated piece, none for an empty argument list.
    pub fn args(&self) -> (a: Args<'a>)
        ensures
            a@ == spec_args(self@.arguments),
    {
        Args { rest: self.arguments, done: self.arguments.len() == 0 }
    }

    /// Renders the method as `returntype name(arguments)`, with a space
    /// after each comma.
    pub fn to_text(&self) -> (r: String)
        ensures
            r@ == lossy_text_of(method_text(self@)),
            is_ascii_bytes(method_text(self@)) ==> r@ == ascii_chars(method_text(self@)),
    {
        let mut buf: Vec<u8> = Vec::new();
        append_bytes(&mut buf, self.ty);
        buf.push(32);
        append_bytes(&mut buf, self.original);
        buf.push(40);
        proof {
            assert(buf@ =~= self@.ty + seq![32u8] + self@.original + seq![40u8]);
        }
        let args = self.arguments;
        let ghost base = buf@;
        let mut i: usize = 0;
        while i < args.len()
            invariant
                base == self@.ty + seq![32u8] + self@.original + seq![40u8],
                args@ == self@.arguments,
                i <= args@.len(),
                buf@ == base + expand_commas(args@.subrange(0, i as int)),
            decreases args@.len() - i,
        {
            let b = args[i];
            let ghost pre = buf@;
            buf.push(b);
            if b == 44 {
                buf.push(32);
            }
            proof {
                let old_part = args@.subrange(0, i as int);
                let new_part = args@.subrange(0, i as int + 1);
                assert(new_part.drop_last() =~= old_part);
                assert(new_part.last() == b);
                if b == 44 {
                    assert(buf@ =~= base + (expand_commas(old_part) + seq![44u8, 32u8]));
                } else {
                    assert(buf@ =~= base + (expand_commas(old_part) + seq![b]));
                }
            }
            i = i + 1;
        }
        buf.push(41);
        proof {
            assert(args@.subrange(0, args@.len() as int) =~= args@);
            assert(buf@ =~= method_text(self@));
        }
        bytes_to_string(buf.as_slice())
    }
}

/// The start offset of the first class-declaration line at or after `from`.
fn find_next_class(s: &[u8], from: usize) -> (end: usize)
    requires
        from <= s@.len(),
    ensures
        from <= end <= s@.len(),
        end == spec_span_end(s@, from as int),
{
    let n = s.len();
    let mut pos: usize = from;
    loop
        invariant
            from <= pos <= n,
            n == s@.len(),
            spec_next_class_at(s@, from as int) == spec_next_class_at(s@, pos as int),
        decreases n - pos,
    {
        if pos >= n {
            return n;
        }
        let line_end: usize;
        let nxt: usize;
        match find_term(s, pos) {
            Some(j) => {
                line_end = j;
                nxt = j + 1;
            },
            None => {
                line_end = n;
                nxt = n;
            },
        }
        let line = &s[pos..line_end];
        proof {
            assert(line_at(s@, pos as int) == line@);
            assert(next_line_start(s@, pos as int) == nxt as int);
        }
        match parse_mapping(line) {
            Some(MappingRecord::Class { .. }) => {
                return pos;
            },
            _ => {},
        }
        pos = nxt;
    }
}

} // verus!
