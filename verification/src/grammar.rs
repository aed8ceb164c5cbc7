//! The line grammar: classifies one text line of a mapping file as a header,
//! a class mapping, a field mapping or a method mapping, or signals that the
//! line matches no known record shape.
//!
//! The spec functions in this module are the grammar's definition; the
//! executable parser is proved to return exactly what they classify.

use vstd::prelude::*;

use crate::LineMapping;
use crate::encoding::{utf8_valid, utf8_valid_from};
use crate::record::{MappingRecord, MethodModel, RecordModel};
use crate::text::{
    find_byte_from, find_byte_last, find_from, find_last, is_digit, parse_num, parse_usize,
    trim_slice, trim_spec,
};

verus! {

/// The mandatory separator token between an original name and its alias.
pub open spec fn arrow_bytes() -> Seq<u8> {
    seq![45u8, 62u8]
}

/// Whether the line carries the four-space member indentation.
pub open spec fn starts_with_indent(line: Seq<u8>) -> bool {
    line.len() >= 4 && line[0] == 32 && line[1] == 32 && line[2] == 32 && line[3] == 32
}

/// Classification as the line parser applies it: a line that is not valid
/// UTF-8 matches no record shape; a valid one is classified by the grammar.
pub open spec fn classify_line(line: Seq<u8>) -> Option<RecordModel> {
    if utf8_valid_from(line, 0) {
        classify_spec(line)
    } else {
        None
    }
}

/// Classifies one line of text: a `#` line is a header; an unindented line
/// is a class-mapping candidate; a four-space-indented line is a member
/// candidate.
pub open spec fn classify_spec(line: Seq<u8>) -> Option<RecordModel> {
    if line.len() > 0 && line[0] == 35 {
        Some(classify_header(line.subrange(1, line.len() as int)))
    } else if !starts_with_indent(line) {
        classify_class(line)
    } else {
        classify_member(line.subrange(4, line.len() as int))
    }
}

/// A header splits once on the first `:`; key and value are trimmed.
pub open spec fn classify_header(rest: Seq<u8>) -> RecordModel {
    match find_from(rest, 0, 58) {
        None => RecordModel::Header { key: trim_spec(rest), value: None },
        Some(i) => RecordModel::Header {
            key: trim_spec(rest.subrange(0, i)),
            value: Some(trim_spec(rest.subrange(i + 1, rest.len() as int))),
        },
    }
}

/// A class line is `original -> obfuscated:`: three space-separated tokens,
/// the second exactly `->`, the line's last character `:`, and the names
/// non-empty once the trailing `:` is removed.
pub open spec fn classify_class(line: Seq<u8>) -> Option<RecordModel> {
    match find_from(line, 0, 32) {
        None => None,
        Some(i1) => match find_from(line, i1 + 1, 32) {
            None => None,
            Some(i2) => {
                let tok1 = line.subrange(0, i1);
                let tok2 = line.subrange(i1 + 1, i2);
                let tok3 = line.subrange(i2 + 1, line.len() as int);
                if tok1.len() > 0 && tok2 == arrow_bytes() && line.last() == 58 && tok3.len()
                    >= 2 {
                    Some(
                        RecordModel::Class {
                            original: tok1,
                            obfuscated: tok3.subrange(0, tok3.len() - 1),
                        },
                    )
                } else {
                    None
                }
            },
        },
    }
}

/// A member line, after the indentation is stripped: an optional leading
/// `<int>:<int>:` range, then the space-separated tokens.
pub open spec fn classify_member(rest: Seq<u8>) -> Option<RecordModel> {
    if rest.len() > 0 && is_digit(rest[0]) {
        match find_from(rest, 0, 58) {
            None => None,
            Some(c1) => match parse_num(rest.subrange(0, c1)) {
                None => None,
                Some(sl) => match find_from(rest, c1 + 1, 58) {
                    None => None,
                    Some(c2) => match parse_num(rest.subrange(c1 + 1, c2)) {
                        None => None,
                        Some(el) => classify_member_body(
                            rest.subrange(c2 + 1, rest.len() as int),
                            sl,
                            el,
                        ),
                    },
                },
            },
        }
    } else {
        classify_member_body(rest, 0, 0)
    }
}

/// The member tokens: `type name-part -> obfuscated`, all non-empty, the
/// third exactly `->`; `obfuscated` is the whole remainder of the line.
pub open spec fn classify_member_body(text: Seq<u8>, sl: usize, el: usize) -> Option<
    RecordModel,
> {
    match find_from(text, 0, 32) {
        None => None,
        Some(i1) => match find_from(text, i1 + 1, 32) {
            None => None,
            Some(i2) => match find_from(text, i2 + 1, 32) {
                None => None,
                Some(i3) => {
                    let ty = text.subrange(0, i1);
                    let np = text.subrange(i1 + 1, i2);
                    let ar = text.subrange(i2 + 1, i3);
                    let obf = text.subrange(i3 + 1, text.len() as int);
                    if ty.len() > 0 && np.len() > 0 && ar == arrow_bytes() && obf.len() > 0 {
                        classify_name_part(np, ty, obf, sl, el)
                    } else {
                        None
                    }
                },
            },
        },
    }
}

/// The name part splits on `:` into at most three pieces; the second and
/// third, when present, must read as the original-side line range.
pub open spec fn classify_name_part(
    np: Seq<u8>,
    ty: Seq<u8>,
    obf: Seq<u8>,
    sl: usize,
    el: usize,
) -> Option<RecordModel> {
    match find_from(np, 0, 58) {
        None => finish_member(np, ty, obf, sl, el, None, None),
        Some(c1) => {
            let p1 = np.subrange(0, c1);
            match find_from(np, c1 + 1, 58) {
                None => match parse_num(np.subrange(c1 + 1, np.len() as int)) {
                    None => None,
                    Some(osl) => finish_member(p1, ty, obf, sl, el, Some(osl), None),
                },
                Some(c2) => match parse_num(np.subrange(c1 + 1, c2)) {
                    None => None,
                    Some(osl) => match parse_num(np.subrange(c2 + 1, np.len() as int)) {
                        None => None,
                        Some(oel) => finish_member(p1, ty, obf, sl, el, Some(osl), Some(oel)),
                    },
                },
            }
        },
    }
}

/// Without a `(` the member is a field, and any gathered line range is
/// discarded; with one, the text up to `(` is the qualified name, the text
/// between the parentheses is the raw argument list, and the name splits on
/// its last `.` into the inlined frame's class and the method name. The line
/// mapping materialises exactly when the leading range's start is positive.
pub open spec fn finish_member(
    p1: Seq<u8>,
    ty: Seq<u8>,
    obf: Seq<u8>,
    sl: usize,
    el: usize,
    osl: Option<usize>,
    oel: Option<usize>,
) -> Option<RecordModel> {
    match find_from(p1, 0, 40) {
        None => Some(RecordModel::Field { ty, original: p1, obfuscated: obf }),
        Some(k) => {
            let args_part = p1.subrange(k + 1, p1.len() as int);
            if args_part.len() > 0 && args_part.last() == 41 {
                let arguments = args_part.subrange(0, args_part.len() - 1);
                let qualified = p1.subrange(0, k);
                let lm = if sl > 0 {
                    Some(
                        LineMapping {
                            startline: sl,
                            endline: el,
                            original_startline: osl,
                            original_endline: oel,
                        },
                    )
                } else {
                    Option::<LineMapping>::None
                };
                match find_last(qualified, 46) {
                    None => Some(
                        RecordModel::Method(
                            MethodModel {
                                ty,
                                original: qualified,
                                obfuscated: obf,
                                arguments,
                                original_class: None,
                                line_mapping: lm,
                            },
                        ),
                    ),
                    Some(d) => Some(
                        RecordModel::Method(
                            MethodModel {
                                ty,
                                original: qualified.subrange(d + 1, qualified.len() as int),
                                obfuscated: obf,
                                arguments,
                                original_class: Some(qualified.subrange(0, d)),
                                line_mapping: lm,
                            },
                        ),
                    ),
                }
            } else {
                None
            }
        },
    }
}

/// Whether `t` is exactly the `->` token.
fn is_arrow(t: &[u8]) -> (r: bool)
    ensures
        r == (t@ == arrow_bytes()),
{
    if t.len() == 2 && t[0] == 45 && t[1] == 62 {
        assert(t@ =~= arrow_bytes());
        true
    } else {
        assert(t@ != arrow_bytes());
        false
    }
}

/// Parses a single line from a mapping file.
///
/// Returns `None` if the line could not be parsed.
pub(crate) fn parse_mapping<'s>(line: &'s [u8]) -> (r: Option<MappingRecord<'s>>)
    ensures
        match r {
            Some(rec) => classify_spec(line@) == Some(rec@),
            None => classify_spec(line@) is None,
        },
{
    if line.len() > 0 && line[0] == 35 {
        Some(parse_header(&line[1..line.len()]))
    } else if !(line.len() >= 4 && line[0] == 32 && line[1] == 32 && line[2] == 32 && line[3]
        == 32) {
        parse_class(line)
    } else {
        parse_member(&line[4..line.len()])
    }
}

/// The header branch of the grammar.
fn parse_header<'s>(rest: &'s [u8]) -> (r: MappingRecord<'s>)
    ensures
        r@ == classify_header(rest@),
{
    let n = rest.len();
    match find_byte_from(rest, 0, 58) {
        None => MappingRecord::Header { key: trim_slice(rest), value: None },
        Some(i) => MappingRecord::Header {
            key: trim_slice(&rest[0..i]),
            value: Some(trim_slice(&rest[i + 1..n])),
        },
    }
}

/// The class-line branch of the grammar.
fn parse_class<'s>(line: &'s [u8]) -> (r: Option<MappingRecord<'s>>)
    ensures
        match r {
            Some(rec) => classify_class(line@) == Some(rec@),
            None => classify_class(line@) is None,
        },
{
    let n = line.len();
    let i1 = match find_byte_from(line, 0, 32) {
        Some(i) => i,
        None => {
            return None;
        },
    };
    let i2 = match find_byte_from(line, i1 + 1, 32) {
        Some(i) => i,
        None => {
            return None;
        },
    };
    let tok1 = &line[0..i1];
    let tok2 = &line[i1 + 1..i2];
    let tok3 = &line[i2 + 1..n];
    if tok1.len() > 0 && is_arrow(tok2) && line[n - 1] == 58 && tok3.len() >= 2 {
        Some(MappingRecord::Class { original: tok1, obfuscated: &tok3[0..tok3.len() - 1] })
    } else {
        None
    }
}

/// The member branch: reads the optional leading line range and hands the
/// remainder on.
fn parse_member<'s>(rest: &'s [u8]) -> (r: Option<MappingRecord<'s>>)
    ensures
        match r {
            Some(rec) => classify_member(rest@) == Some(rec@),
            None => classify_member(rest@) is None,
        },
{
    let n = rest.len();
    if n > 0 && rest[0] >= 48 && rest[0] <= 57 {
        let c1 = match find_byte_from(rest, 0, 58) {
            Some(i) => i,
            None => {
                return None;
            },
        };
        let sl = match parse_usize(&rest[0..c1]) {
            Some(v) => v,
            None => {
                return None;
            },
        };
        let c2 = match find_byte_from(rest, c1 + 1, 58) {
            Some(i) => i,
            None => {
                return None;
            },
        };
        let el = match parse_usize(&rest[c1 + 1..c2]) {
            Some(v) => v,
            None => {
                return None;
            },
        };
        parse_member_body(&rest[c2 + 1..n], sl, el)
    } else {
        parse_member_body(rest, 0, 0)
    }
}

/// Splits the member tokens and checks the `->` separator.
fn parse_member_body<'s>(text: &'s [u8], sl: usize, el: usize) -> (r: Option<MappingRecord<'s>>)
    ensures
        match r {
            Some(rec) => classify_member_body(text@, sl, el) == Some(rec@),
            None => classify_member_body(text@, sl, el) is None,
        },
{
    let n = text.len();
    let i1 = match find_byte_from(text, 0, 32) {
        Some(i) => i,
        None => {
            return None;
        },
    };
    let i2 = match find_byte_from(text, i1 + 1, 32) {
        Some(i) => i,
        None => {
            return None;
        },
    };
    let i3 = match find_byte_from(text, i2 + 1, 32) {
        Some(i) => i,
        None => {
            return None;
        },
    };
    let ty = &text[0..i1];
    let np = &text[i1 + 1..i2];
    let ar = &text[i2 + 1..i3];
    let obf = &text[i3 + 1..n];
    if ty.len() > 0 && np.len() > 0 && is_arrow(ar) && obf.len() > 0 {
        parse_name_part(np, ty, obf, sl, el)
    } else {
        None
    }
}

/// Splits the trailing original-side range off the name part.
fn parse_name_part<'s>(
    np: &'s [u8],
    ty: &'s [u8],
    obf: &'s [u8],
    sl: usize,
    el: usize,
) -> (r: Option<MappingRecord<'s>>)
    ensures
        match r {
            Some(rec) => classify_name_part(np@, ty@, obf@, sl, el) == Some(rec@),
            None => classify_name_part(np@, ty@, obf@, sl, el) is None,
        },
{
    let n = np.len();
    let c1 = match find_byte_from(np, 0, 58) {
        Some(i) => i,
        None => {
            return finish_member_parse(np, ty, obf, sl, el, None, None);
        },
    };
    let p1 = &np[0..c1];
    match find_byte_from(np, c1 + 1, 58) {
        None => {
            let osl = match parse_usize(&np[c1 + 1..n]) {
                Some(v) => v,
                None => {
                    return None;
                },
            };
            finish_member_parse(p1, ty, obf, sl, el, Some(osl), None)
        },
        Some(c2) => {
            let osl = match parse_usize(&np[c1 + 1..c2]) {
                Some(v) => v,
                None => {
                    return None;
                },
            };
            let oel = match parse_usize(&np[c2 + 1..n]) {
                Some(v) => v,
                None => {
                    return None;
                },
            };
            finish_member_parse(p1, ty, obf, sl, el, Some(osl), Some(oel))
        },
    }
}

/// Emits the field or method record from the split name part.
fn finish_member_parse<'s>(
    p1: &'s [u8],
    ty: &'s [u8],
    obf: &'s [u8],
    sl: usize,
    el: usize,
    osl: Option<usize>,
    oel: Option<usize>,
) -> (r: Option<MappingRecord<'s>>)
    ensures
        match r {
            Some(rec) => finish_member(p1@, ty@, obf@, sl, el, osl, oel) == Some(rec@),
            None => finish_member(p1@, ty@, obf@, sl, el, osl, oel) is None,
        },
{
    let n = p1.len();
    let k = match find_byte_from(p1, 0, 40) {
        Some(i) => i,
        None => {
            return Some(MappingRecord::Field { ty, original: p1, obfuscated: obf });
        },
    };
    let args_part = &p1[k + 1..n];
    if args_part.len() > 0 && args_part[args_part.len() - 1] == 41 {
        let arguments = &args_part[0..args_part.len() - 1];
        let qualified = &p1[0..k];
        let qualified_n = qualified.len();
        let lm = if sl > 0 {
            Some(
                LineMapping {
                    startline: sl,
                    endline: el,
                    original_startline: osl,
                    original_endline: oel,
                },
            )
        } else {
            None
        };
        match find_byte_last(qualified, 46) {
            None => Some(
                MappingRecord::Method {
                    ty,
                    original: qualified,
                    obfuscated: obf,
                    arguments,
                    original_class: None,
                    line_mapping: lm,
                },
            ),
            Some(d) => Some(
                MappingRecord::Method {
                    ty,
                    original: &qualified[d + 1..qualified_n],
                    obfuscated: obf,
                    arguments,
                    original_class: Some(&qualified[0..d]),
                    line_mapping: lm,
                },
            ),
        }
    } else {
        None
    }
}

impl<'s> MappingRecord<'s> {
    /// Parses a line from a mapping file: a line that is not valid UTF-8 is
    /// unparsable; otherwise the result is exactly what the grammar
    /// classifies the line as, and `None` exactly when the line matches no
    /// record shape.
    pub fn try_parse(line: &'s [u8]) -> (r: Option<MappingRecord<'s>>)
        ensures
            match r {
                Some(rec) => classify_line(line@) == Some(rec@),
                None => classify_line(line@) is None,
            },
    {
        if utf8_valid(line) {
            parse_mapping(line)
        } else {
            None
        }
    }
}

} // verus!
