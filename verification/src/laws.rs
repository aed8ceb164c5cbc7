//! The laws of the grammar and of the resolver, stated over the spec
//! functions that the executable functions' contracts use.

use vstd::prelude::*;

use crate::grammar::{
    arrow_bytes, classify_class, classify_member, classify_member_body, classify_name_part,
    classify_spec, finish_member, starts_with_indent,
};
use crate::lookup::{
    insert_ranked, rank_methods, spec_find_class, spec_get_methods, spec_line_key,
    spec_matches_line, spec_method_candidates, ClassModel,
};
use crate::stream::spec_next_line;
use crate::record::{MethodModel, RecordModel};
use crate::text::{
    digits_val, find_from, is_digit, lemma_find_from_is, lemma_find_from_none,
    lemma_find_last_none, parse_num,
};
use crate::LineMapping;

verus! {

/// Classifying a well-formed class-declaration line `original -> alias:`
/// yields exactly its two names; the line is the serialisation of the
/// record it classifies to.
pub proof fn lemma_class_line_classifies(o: Seq<u8>, a: Seq<u8>)
    requires
        o.len() > 0,
        a.len() > 0,
        forall|i: int| 0 <= i < o.len() ==> o[i] != 32,
        forall|i: int| 0 <= i < a.len() ==> a[i] != 32,
        o[0] != 35,
    ensures
        classify_spec(o + seq![32u8] + arrow_bytes() + seq![32u8] + a + seq![58u8]) == Some(
            RecordModel::Class { original: o, obfuscated: a },
        ),
{
    let line = o + seq![32u8] + arrow_bytes() + seq![32u8] + a + seq![58u8];
    let ol = o.len() as int;
    let n = line.len() as int;
    assert(arrow_bytes() == seq![45u8, 62u8]);
    assert(n == ol + 5 + a.len());
    assert(forall|k: int| 0 <= k < ol ==> line[k] == o[k]);
    assert(line[ol] == 32);
    assert(line[ol + 1] == 45);
    assert(line[ol + 2] == 62);
    assert(line[ol + 3] == 32);
    assert(forall|k: int| 0 <= k < a.len() ==> line[ol + 4 + k] == a[k]);
    assert(line[n - 1] == 58);
    lemma_find_from_is(line, 0, 32, ol);
    lemma_find_from_is(line, ol + 1, 32, ol + 3);
    assert(!starts_with_indent(line));
    let tok1 = line.subrange(0, ol);
    let tok2 = line.subrange(ol + 1, ol + 3);
    let tok3 = line.subrange(ol + 4, n);
    assert(tok1 =~= o);
    assert(tok2 =~= arrow_bytes());
    assert(tok3 =~= a + seq![58u8]);
    assert(line.last() == 58);
    assert(tok3.subrange(0, tok3.len() - 1) =~= a);
    assert(classify_class(line) == Some(RecordModel::Class { original: o, obfuscated: a }));
}

/// The name part of a well-formed method token, as the laws below build it.
pub open spec fn method_name_part(nm: Seq<u8>, args: Seq<u8>) -> Seq<u8> {
    nm + seq![40u8] + args + seq![41u8]
}

/// The member tokens of a method line after any leading range:
/// `type name(args) -> alias`.
pub open spec fn method_tokens(ty: Seq<u8>, nm: Seq<u8>, args: Seq<u8>, alias: Seq<u8>) -> Seq<
    u8,
> {
    ty + seq![32u8] + method_name_part(nm, args) + seq![32u8] + arrow_bytes() + seq![32u8] + alias
}

/// The same tokens behind a leading `S:E:` range.
pub open spec fn prefixed_method_tokens(
    sd: Seq<u8>,
    ed: Seq<u8>,
    ty: Seq<u8>,
    nm: Seq<u8>,
    args: Seq<u8>,
    alias: Seq<u8>,
) -> Seq<u8> {
    sd + seq![58u8] + ed + seq![58u8] + method_tokens(ty, nm, args, alias)
}

/// The four-space indentation that marks a member line.
pub open spec fn member_indent() -> Seq<u8> {
    seq![32u8, 32u8, 32u8, 32u8]
}

/// Conditions under which a name makes a clean method token: non-empty,
/// no space, no colon, no parenthesis, no dot.
pub open spec fn clean_name(nm: Seq<u8>) -> bool {
    nm.len() > 0 && forall|i: int|
        0 <= i < nm.len() ==> nm[i] != 32 && nm[i] != 58 && nm[i] != 40 && nm[i] != 46
}

/// Conditions on an argument text: no space, no colon.
pub open spec fn clean_args(args: Seq<u8>) -> bool {
    forall|i: int| 0 <= i < args.len() ==> args[i] != 32 && args[i] != 58
}

/// Conditions on a type token: non-empty, no space, not digit-led.
pub open spec fn clean_ty(ty: Seq<u8>) -> bool {
    ty.len() > 0 && !is_digit(ty[0]) && forall|i: int| 0 <= i < ty.len() ==> ty[i] != 32
}

/// Splitting the member tokens of a clean line hands the name part on:
/// `type np -> alias`, with `np` free of spaces.
proof fn lemma_member_tokens(ty: Seq<u8>, np: Seq<u8>, alias: Seq<u8>, sl: usize, el: usize)
    requires
        clean_ty(ty),
        np.len() > 0,
        forall|i: int| 0 <= i < np.len() ==> np[i] != 32,
        alias.len() > 0,
    ensures
        classify_member_body(
            ty + seq![32u8] + np + seq![32u8] + arrow_bytes() + seq![32u8] + alias,
            sl,
            el,
        ) == classify_name_part(np, ty, alias, sl, el),
{
    let text = ty + seq![32u8] + np + seq![32u8] + arrow_bytes() + seq![32u8] + alias;
    let tl = ty.len() as int;
    let npl = np.len() as int;
    let n = text.len() as int;
    assert(n == tl + 1 + npl + 4 + alias.len());
    assert(forall|k: int| 0 <= k < tl ==> text[k] == ty[k]);
    assert(text[tl] == 32);
    assert(forall|k: int| 0 <= k < npl ==> text[tl + 1 + k] == np[k]);
    let i2 = tl + 1 + npl;
    assert(text[i2] == 32);
    assert(text[i2 + 1] == 45);
    assert(text[i2 + 2] == 62);
    assert(text[i2 + 3] == 32);
    assert(forall|k: int| 0 <= k < alias.len() ==> text[i2 + 4 + k] == alias[k]);
    lemma_find_from_is(text, 0, 32, tl);
    lemma_find_from_is(text, tl + 1, 32, i2);
    lemma_find_from_is(text, i2 + 1, 32, i2 + 3);
    assert(text.subrange(0, tl) =~= ty);
    assert(text.subrange(tl + 1, i2) =~= np);
    assert(text.subrange(i2 + 1, i2 + 3) =~= arrow_bytes());
    assert(text.subrange(i2 + 4, n) =~= alias);
}

/// A clean name part `name(args)` finishes as the method record; the line
/// mapping materialises exactly when the leading range's start is positive,
/// discarding any gathered original-side range otherwise.
proof fn lemma_finish_method(
    ty: Seq<u8>,
    nm: Seq<u8>,
    args: Seq<u8>,
    alias: Seq<u8>,
    sl: usize,
    el: usize,
    osl: Option<usize>,
    oel: Option<usize>,
)
    requires
        clean_name(nm),
        clean_args(args),
    ensures
        finish_member(method_name_part(nm, args), ty, alias, sl, el, osl, oel) == Some(
            RecordModel::Method(
                MethodModel {
                    ty,
                    original: nm,
                    obfuscated: alias,
                    arguments: args,
                    original_class: None,
                    line_mapping: if sl > 0 {
                        Some(
                            LineMapping {
                                startline: sl,
                                endline: el,
                                original_startline: osl,
                                original_endline: oel,
                            },
                        )
                    } else {
                        None
                    },
                },
            ),
        ),
{
    let np = method_name_part(nm, args);
    let npl = np.len() as int;
    let nml = nm.len() as int;
    assert(npl == nm.len() + args.len() + 2);
    assert(forall|k: int| 0 <= k < nml ==> np[k] == nm[k]);
    assert(np[nml] == 40);
    assert(forall|k: int| 0 <= k < args.len() ==> np[nml + 1 + k] == args[k]);
    assert(np[npl - 1] == 41);
    // the first parenthesis sits right after the name
    lemma_find_from_is(np, 0, 40, nml);
    let args_part = np.subrange(nml + 1, npl);
    assert(args_part =~= args + seq![41u8]);
    assert(args_part.len() > 0 && args_part.last() == 41);
    assert(args_part.subrange(0, args_part.len() - 1) =~= args);
    let qualified = np.subrange(0, nml);
    assert(qualified =~= nm);
    lemma_find_last_none(nm, 46);
}

/// The member tokens of a clean method line classify to the method record
/// with the given gathered range values.
proof fn lemma_method_body_classifies(
    ty: Seq<u8>,
    nm: Seq<u8>,
    args: Seq<u8>,
    alias: Seq<u8>,
    sl: usize,
    el: usize,
)
    requires
        clean_ty(ty),
        clean_name(nm),
        clean_args(args),
        alias.len() > 0,
    ensures
        classify_member_body(method_tokens(ty, nm, args, alias), sl, el) == Some(
            RecordModel::Method(
                MethodModel {
                    ty,
                    original: nm,
                    obfuscated: alias,
                    arguments: args,
                    original_class: None,
                    line_mapping: if sl > 0 {
                        Some(
                            LineMapping {
                                startline: sl,
                                endline: el,
                                original_startline: None,
                                original_endline: None,
                            },
                        )
                    } else {
                        None
                    },
                },
            ),
        ),
{
    let np = method_name_part(nm, args);
    let npl = np.len() as int;
    let nml = nm.len() as int;
    assert(npl == nm.len() + args.len() + 2);
    assert(forall|k: int| 0 <= k < nml ==> np[k] == nm[k]);
    assert(np[nml] == 40);
    assert(forall|k: int| 0 <= k < args.len() ==> np[nml + 1 + k] == args[k]);
    assert(np[npl - 1] == 41);
    assert(forall|k: int| 0 <= k < npl ==> np[k] != 32 && np[k] != 58);
    lemma_member_tokens(ty, np, alias, sl, el);
    // the name part holds no colon, so no trailing range is split off
    lemma_find_from_none(np, 0, 58);
    lemma_finish_method(ty, nm, args, alias, sl, el, None, None);
}

/// A qualified name part: the inlined frame's original class, a dot, then
/// the method name and arguments.
pub open spec fn qualified_name_part(cls: Seq<u8>, nm: Seq<u8>, args: Seq<u8>) -> Seq<u8> {
    cls + seq![46u8] + method_name_part(nm, args)
}

/// Conditions on an inlined frame's class token: non-empty, free of
/// spaces, colons and parentheses; dots are what qualify it.
pub open spec fn clean_class(cls: Seq<u8>) -> bool {
    cls.len() > 0 && forall|i: int|
        0 <= i < cls.len() ==> cls[i] != 32 && cls[i] != 58 && cls[i] != 40
}

/// A clean qualified name part finishes as the method record of the name's
/// last segment, with everything before the last dot as the inlined
/// frame's original class.
#[verifier::rlimit(100)]
proof fn lemma_finish_qualified(
    ty: Seq<u8>,
    cls: Seq<u8>,
    nm: Seq<u8>,
    args: Seq<u8>,
    alias: Seq<u8>,
    sl: usize,
    el: usize,
    osl: Option<usize>,
    oel: Option<usize>,
)
    requires
        clean_class(cls),
        clean_name(nm),
        clean_args(args),
    ensures
        finish_member(qualified_name_part(cls, nm, args), ty, alias, sl, el, osl, oel) == Some(
            RecordModel::Method(
                MethodModel {
                    ty,
                    original: nm,
                    obfuscated: alias,
                    arguments: args,
                    original_class: Some(cls),
                    line_mapping: if sl > 0 {
                        Some(
                            LineMapping {
                                startline: sl,
                                endline: el,
                                original_startline: osl,
                                original_endline: oel,
                            },
                        )
                    } else {
                        None
                    },
                },
            ),
        ),
{
    let p1 = qualified_name_part(cls, nm, args);
    let cl = cls.len() as int;
    let nml = nm.len() as int;
    let p1l = p1.len() as int;
    assert(p1l == cl + 1 + nml + 1 + args.len() + 1);
    assert(forall|k: int| 0 <= k < cl ==> p1[k] == cls[k]);
    assert(p1[cl] == 46);
    assert(forall|k: int| 0 <= k < nml ==> p1[cl + 1 + k] == nm[k]);
    assert(p1[cl + 1 + nml] == 40);
    assert(forall|k: int| 0 <= k < args.len() ==> p1[cl + 1 + nml + 1 + k] == args[k]);
    assert(p1[p1l - 1] == 41);
    // the first parenthesis sits right after the qualified name
    lemma_find_from_is(p1, 0, 40, cl + 1 + nml);
    let args_part = p1.subrange(cl + nml + 2, p1l);
    assert(args_part =~= args + seq![41u8]);
    assert(args_part.len() > 0 && args_part.last() == 41);
    assert(args_part.subrange(0, args_part.len() - 1) =~= args);
    let qualified = p1.subrange(0, cl + 1 + nml);
    assert(qualified =~= cls + seq![46u8] + nm);
    // the last dot ends the class segment: the name holds none
    assert(qualified[cl] == 46);
    assert(forall|j: int| cl < j < qualified.len() ==> qualified[j] == nm[j - cl - 1]);
    crate::text::lemma_find_last_is(qualified, 46, cl);
    assert(qualified.subrange(cl + 1, qualified.len() as int) =~= nm);
    assert(qualified.subrange(0, cl) =~= cls);
}

/// The member tokens of an inlined-frame method line: a leading range, a
/// foreign-class-qualified name with a trailing original-side range, and
/// the alias.
pub open spec fn inlined_method_tokens(
    sd: Seq<u8>,
    ed: Seq<u8>,
    ty: Seq<u8>,
    cls: Seq<u8>,
    nm: Seq<u8>,
    args: Seq<u8>,
    osd: Seq<u8>,
    oed: Seq<u8>,
    alias: Seq<u8>,
) -> Seq<u8> {
    sd + seq![58u8] + ed + seq![58u8] + (ty + seq![32u8] + (qualified_name_part(cls, nm, args)
        + seq![58u8] + osd + seq![58u8] + oed) + seq![32u8] + arrow_bytes() + seq![32u8] + alias)
}

/// Inlined-frame detection: a method line with a leading range, a
/// dot-qualified original name and a trailing original-side range
/// classifies to the method record of the name's last segment, carrying
/// the foreign class and all four range values.
#[verifier::rlimit(100)]
pub proof fn lemma_inlined_method_classifies(
    sd: Seq<u8>,
    ed: Seq<u8>,
    ty: Seq<u8>,
    cls: Seq<u8>,
    nm: Seq<u8>,
    args: Seq<u8>,
    osd: Seq<u8>,
    oed: Seq<u8>,
    alias: Seq<u8>,
)
    requires
        parse_num(sd) is Some,
        parse_num(ed) is Some,
        digits_val(sd) > 0,
        parse_num(osd) is Some,
        parse_num(oed) is Some,
        clean_ty(ty),
        clean_class(cls),
        clean_name(nm),
        clean_args(args),
        alias.len() > 0,
    ensures
        classify_spec(
            member_indent() + inlined_method_tokens(sd, ed, ty, cls, nm, args, osd, oed, alias),
        ) == Some(
            RecordModel::Method(
                MethodModel {
                    ty,
                    original: nm,
                    obfuscated: alias,
                    arguments: args,
                    original_class: Some(cls),
                    line_mapping: Some(
                        LineMapping {
                            startline: parse_num(sd).unwrap(),
                            endline: parse_num(ed).unwrap(),
                            original_startline: Some(parse_num(osd).unwrap()),
                            original_endline: Some(parse_num(oed).unwrap()),
                        },
                    ),
                },
            ),
        ),
{
    let qnp = qualified_name_part(cls, nm, args);
    let np = qnp + seq![58u8] + osd + seq![58u8] + oed;
    let body = ty + seq![32u8] + np + seq![32u8] + arrow_bytes() + seq![32u8] + alias;
    let rest = inlined_method_tokens(sd, ed, ty, cls, nm, args, osd, oed, alias);
    let sl = parse_num(sd).unwrap();
    let el = parse_num(ed).unwrap();
    let ql = qnp.len() as int;
    let npl = np.len() as int;
    let osdl = osd.len() as int;
    let oedl = oed.len() as int;
    let sdl = sd.len() as int;
    let edl = ed.len() as int;

    // the name-part bytes, segment by segment
    assert(ql == cls.len() + 1 + nm.len() + 1 + args.len() + 1);
    assert(npl == ql + 1 + osdl + 1 + oedl);
    assert(forall|k: int| 0 <= k < ql ==> np[k] == qnp[k]);
    let cl = cls.len() as int;
    let nml = nm.len() as int;
    assert(forall|k: int| 0 <= k < cl ==> qnp[k] == cls[k]);
    assert(qnp[cl] == 46);
    assert(forall|k: int| 0 <= k < nml ==> qnp[cl + 1 + k] == nm[k]);
    assert(qnp[cl + 1 + nml] == 40);
    assert(forall|k: int| 0 <= k < args.len() ==> qnp[cl + 1 + nml + 1 + k] == args[k]);
    assert(qnp[ql - 1] == 41);
    assert(forall|k: int| 0 <= k < ql ==> qnp[k] != 32 && qnp[k] != 58);
    assert(np[ql] == 58);
    assert(forall|k: int| 0 <= k < osdl ==> np[ql + 1 + k] == osd[k]);
    assert(forall|k: int| 0 <= k < osdl ==> is_digit(osd[k]));
    assert(np[ql + 1 + osdl] == 58);
    assert(forall|k: int| 0 <= k < oedl ==> np[ql + 1 + osdl + 1 + k] == oed[k]);
    assert(forall|k: int| 0 <= k < oedl ==> is_digit(oed[k]));
    assert(forall|k: int| 0 <= k < npl ==> np[k] != 32);

    // the leading range splits off first
    assert(forall|k: int| 0 <= k < sdl ==> rest[k] == sd[k]);
    assert(forall|k: int| 0 <= k < sdl ==> is_digit(sd[k]));
    assert(rest[sdl] == 58);
    assert(forall|k: int| 0 <= k < edl ==> rest[sdl + 1 + k] == ed[k]);
    assert(forall|k: int| 0 <= k < edl ==> is_digit(ed[k]));
    assert(rest[sdl + 1 + edl] == 58);
    lemma_find_from_is(rest, 0, 58, sdl);
    lemma_find_from_is(rest, sdl + 1, 58, sdl + 1 + edl);
    assert(rest.subrange(0, sdl) =~= sd);
    assert(rest.subrange(sdl + 1, sdl + 1 + edl) =~= ed);
    assert(rest.subrange(sdl + 1 + edl + 1, rest.len() as int) =~= body);
    assert(rest.len() > 0 && is_digit(rest[0]));

    // then the four tokens, the name-part colons, and the qualified finish
    lemma_member_tokens(ty, np, alias, sl, el);
    lemma_find_from_is(np, 0, 58, ql);
    lemma_find_from_is(np, ql + 1, 58, ql + 1 + osdl);
    assert(np.subrange(0, ql) =~= qnp);
    assert(np.subrange(ql + 1, ql + 1 + osdl) =~= osd);
    assert(np.subrange(ql + 1 + osdl + 1, npl) =~= oed);
    lemma_finish_qualified(ty, cls, nm, args, alias, sl, el, Some(parse_num(osd).unwrap()), Some(
        parse_num(oed).unwrap(),
    ));
    assert(classify_member(rest) == classify_member_body(body, sl, el));

    // and the member indentation routes the line here
    let line = member_indent() + rest;
    assert(line[0] == 32 && line[1] == 32 && line[2] == 32 && line[3] == 32);
    assert(starts_with_indent(line));
    assert(line[0] != 35);
    assert(line.subrange(4, line.len() as int) =~= rest);
}

/// A name part carrying a trailing `:os:oe` range.
pub open spec fn suffixed_name_part(
    nm: Seq<u8>,
    args: Seq<u8>,
    osd: Seq<u8>,
    oed: Seq<u8>,
) -> Seq<u8> {
    method_name_part(nm, args) + seq![58u8] + osd + seq![58u8] + oed
}

/// The member tokens of a method line with a trailing original-side range
/// and no leading one.
pub open spec fn suffixed_method_tokens(
    ty: Seq<u8>,
    nm: Seq<u8>,
    args: Seq<u8>,
    osd: Seq<u8>,
    oed: Seq<u8>,
    alias: Seq<u8>,
) -> Seq<u8> {
    ty + seq![32u8] + suffixed_name_part(nm, args, osd, oed) + seq![32u8] + arrow_bytes()
        + seq![32u8] + alias
}

/// A method line with only a trailing `:os:oe` range and no leading prefix
/// parses the range and discards it: the record carries no line mapping.
#[verifier::rlimit(100)]
pub proof fn lemma_method_suffix_discarded(
    ty: Seq<u8>,
    nm: Seq<u8>,
    args: Seq<u8>,
    osd: Seq<u8>,
    oed: Seq<u8>,
    alias: Seq<u8>,
)
    requires
        clean_ty(ty),
        clean_name(nm),
        clean_args(args),
        parse_num(osd) is Some,
        parse_num(oed) is Some,
        alias.len() > 0,
    ensures
        classify_spec(member_indent() + suffixed_method_tokens(ty, nm, args, osd, oed, alias))
            == Some(
            RecordModel::Method(
                MethodModel {
                    ty,
                    original: nm,
                    obfuscated: alias,
                    arguments: args,
                    original_class: None,
                    line_mapping: None,
                },
            ),
        ),
{
    let mnp = method_name_part(nm, args);
    let np = suffixed_name_part(nm, args, osd, oed);
    let mnpl = mnp.len() as int;
    let npl = np.len() as int;
    let osdl = osd.len() as int;
    let oedl = oed.len() as int;
    assert(mnpl == nm.len() + args.len() + 2);
    assert(npl == mnpl + 1 + osdl + 1 + oedl);
    assert(forall|k: int| 0 <= k < mnpl ==> np[k] == mnp[k]);
    assert(forall|k: int| 0 <= k < nm.len() ==> mnp[k] == nm[k]);
    assert(mnp[nm.len() as int] == 40);
    assert(forall|k: int| 0 <= k < args.len() ==> mnp[nm.len() + 1 + k] == args[k]);
    assert(mnp[mnpl - 1] == 41);
    assert(forall|k: int| 0 <= k < mnpl ==> mnp[k] != 32 && mnp[k] != 58);
    assert(np[mnpl] == 58);
    assert(forall|k: int| 0 <= k < osdl ==> np[mnpl + 1 + k] == osd[k]);
    assert(forall|k: int| 0 <= k < osdl ==> is_digit(osd[k]));
    assert(np[mnpl + 1 + osdl] == 58);
    assert(forall|k: int| 0 <= k < oedl ==> np[mnpl + 1 + osdl + 1 + k] == oed[k]);
    assert(forall|k: int| 0 <= k < oedl ==> is_digit(oed[k]));
    assert(forall|k: int| 0 <= k < npl ==> np[k] != 32);
    lemma_member_tokens(ty, np, alias, 0, 0);
    // the name part splits at its colons into the name and the two numbers
    lemma_find_from_is(np, 0, 58, mnpl);
    lemma_find_from_is(np, mnpl + 1, 58, mnpl + 1 + osdl);
    assert(np.subrange(0, mnpl) =~= mnp);
    assert(np.subrange(mnpl + 1, mnpl + 1 + osdl) =~= osd);
    assert(np.subrange(mnpl + 1 + osdl + 1, npl) =~= oed);
    lemma_finish_method(ty, nm, args, alias, 0, 0, Some(parse_num(osd).unwrap()), Some(
        parse_num(oed).unwrap(),
    ));
    let body = suffixed_method_tokens(ty, nm, args, osd, oed, alias);
    let line = member_indent() + body;
    assert(line[0] == 32 && line[1] == 32 && line[2] == 32 && line[3] == 32);
    assert(starts_with_indent(line));
    assert(line[0] != 35);
    assert(line.subrange(4, line.len() as int) =~= body);
    assert(body[0] == ty[0]);
    assert(!is_digit(body[0]));
}

/// The member text with a leading range classifies to the method record
/// carrying that range.
#[verifier::rlimit(100)]
proof fn lemma_member_with_prefix(
    sd: Seq<u8>,
    ed: Seq<u8>,
    ty: Seq<u8>,
    nm: Seq<u8>,
    args: Seq<u8>,
    alias: Seq<u8>,
)
    requires
        parse_num(sd) is Some,
        parse_num(ed) is Some,
        clean_ty(ty),
        clean_name(nm),
        clean_args(args),
        alias.len() > 0,
    ensures
        classify_member(prefixed_method_tokens(sd, ed, ty, nm, args, alias)) == Some(
            RecordModel::Method(
                MethodModel {
                    ty,
                    original: nm,
                    obfuscated: alias,
                    arguments: args,
                    original_class: None,
                    line_mapping: if parse_num(sd).unwrap() > 0 {
                        Some(
                            LineMapping {
                                startline: parse_num(sd).unwrap(),
                                endline: parse_num(ed).unwrap(),
                                original_startline: None,
                                original_endline: None,
                            },
                        )
                    } else {
                        None
                    },
                },
            ),
        ),
{
    let body = method_tokens(ty, nm, args, alias);
    let rest = prefixed_method_tokens(sd, ed, ty, nm, args, alias);
    let sdl = sd.len() as int;
    let edl = ed.len() as int;
    let rl = rest.len() as int;
    assert(forall|k: int| 0 <= k < sdl ==> rest[k] == sd[k]);
    assert(forall|k: int| 0 <= k < sdl ==> is_digit(sd[k]));
    assert(rest[sdl] == 58);
    assert(forall|k: int| 0 <= k < edl ==> rest[sdl + 1 + k] == ed[k]);
    assert(forall|k: int| 0 <= k < edl ==> is_digit(ed[k]));
    assert(rest[sdl + 1 + edl] == 58);
    lemma_find_from_is(rest, 0, 58, sdl);
    lemma_find_from_is(rest, sdl + 1, 58, sdl + 1 + edl);
    assert(rest.subrange(0, sdl) =~= sd);
    assert(rest.subrange(sdl + 1, sdl + 1 + edl) =~= ed);
    assert(rest.subrange(sdl + 1 + edl + 1, rl) =~= body);
    assert(rest.len() > 0 && is_digit(rest[0]));
    lemma_method_body_classifies(ty, nm, args, alias, parse_num(sd).unwrap(), parse_num(
        ed,
    ).unwrap());
}

/// For all method lines with a leading `S:E:` range, the produced line
/// mapping holds exactly those two values; omitting the prefix yields no
/// line mapping at all.
pub proof fn lemma_method_prefix_gates_mapping(
    sd: Seq<u8>,
    ed: Seq<u8>,
    ty: Seq<u8>,
    nm: Seq<u8>,
    args: Seq<u8>,
    alias: Seq<u8>,
)
    requires
        parse_num(sd) is Some,
        parse_num(ed) is Some,
        digits_val(sd) > 0,
        clean_ty(ty),
        clean_name(nm),
        clean_args(args),
        alias.len() > 0,
    ensures
        classify_spec(member_indent() + prefixed_method_tokens(sd, ed, ty, nm, args, alias))
            == Some(
            RecordModel::Method(
                MethodModel {
                    ty,
                    original: nm,
                    obfuscated: alias,
                    arguments: args,
                    original_class: None,
                    line_mapping: Some(
                        LineMapping {
                            startline: parse_num(sd).unwrap(),
                            endline: parse_num(ed).unwrap(),
                            original_startline: None,
                            original_endline: None,
                        },
                    ),
                },
            ),
        ),
        classify_spec(member_indent() + method_tokens(ty, nm, args, alias)) == Some(
            RecordModel::Method(
                MethodModel {
                    ty,
                    original: nm,
                    obfuscated: alias,
                    arguments: args,
                    original_class: None,
                    line_mapping: None,
                },
            ),
        ),
{
    assert(digits_val(sd) > 0 ==> parse_num(sd).unwrap() > 0);

    let p = prefixed_method_tokens(sd, ed, ty, nm, args, alias);
    let line1 = member_indent() + p;
    assert(line1[0] == 32 && line1[1] == 32 && line1[2] == 32 && line1[3] == 32);
    assert(starts_with_indent(line1));
    assert(line1[0] != 35);
    assert(line1.subrange(4, line1.len() as int) =~= p);
    lemma_member_with_prefix(sd, ed, ty, nm, args, alias);

    let body = method_tokens(ty, nm, args, alias);
    let line2 = member_indent() + body;
    assert(line2[0] == 32 && line2[1] == 32 && line2[2] == 32 && line2[3] == 32);
    assert(starts_with_indent(line2));
    assert(line2[0] != 35);
    assert(line2.subrange(4, line2.len() as int) =~= body);
    assert(body[0] == ty[0]);
    assert(!is_digit(body[0]));
    lemma_method_body_classifies(ty, nm, args, alias, 0, 0);
}

#[verifier::rlimit(100)]
pub proof fn lemma_field_line_discards_range(
    ty: Seq<u8>,
    nm: Seq<u8>,
    d1: Seq<u8>,
    d2: Seq<u8>,
    alias: Seq<u8>,
)
    requires
        clean_ty(ty),
        clean_name(nm),
        parse_num(d1) is Some,
        parse_num(d2) is Some,
        alias.len() > 0,
    ensures
        classify_spec(
            seq![32u8, 32u8, 32u8, 32u8] + ty + seq![32u8] + nm + seq![58u8] + d1 + seq![58u8]
                + d2 + seq![32u8] + arrow_bytes() + seq![32u8] + alias,
        ) == Some(RecordModel::Field { ty, original: nm, obfuscated: alias }),
{
    let indent = seq![32u8, 32u8, 32u8, 32u8];
    let np = nm + seq![58u8] + d1 + seq![58u8] + d2;
    let body = ty + seq![32u8] + np + seq![32u8] + arrow_bytes() + seq![32u8] + alias;
    let line = indent + ty + seq![32u8] + nm + seq![58u8] + d1 + seq![58u8] + d2 + seq![32u8]
        + arrow_bytes() + seq![32u8] + alias;
    let n = line.len() as int;
    let rest = line.subrange(4, n);
    assert(rest =~= body);
    let tl = ty.len() as int;
    let npl = np.len() as int;
    let nml = nm.len() as int;
    let d1l = d1.len() as int;
    let d2l = d2.len() as int;
    assert(npl == nml + 1 + d1l + 1 + d2l);
    assert(forall|k: int| 0 <= k < tl ==> body[k] == ty[k]);
    assert(body[tl] == 32);
    assert(forall|k: int| 0 <= k < npl ==> body[tl + 1 + k] == np[k]);
    assert(forall|k: int| 0 <= k < nml ==> np[k] == nm[k]);
    assert(np[nml] == 58);
    assert(forall|k: int| 0 <= k < d1l ==> np[nml + 1 + k] == d1[k]);
    assert(forall|k: int| 0 <= k < d1l ==> is_digit(d1[k]));
    assert(np[nml + 1 + d1l] == 58);
    assert(forall|k: int| 0 <= k < d2l ==> np[nml + 1 + d1l + 1 + k] == d2[k]);
    assert(forall|k: int| 0 <= k < d2l ==> is_digit(d2[k]));
    assert(forall|k: int| 0 <= k < npl ==> np[k] != 32);
    let i2 = tl + 1 + npl;
    assert(body[i2] == 32);
    assert(body[i2 + 1] == 45);
    assert(body[i2 + 2] == 62);
    assert(body[i2 + 3] == 32);
    lemma_find_from_is(body, 0, 32, tl);
    lemma_find_from_is(body, tl + 1, 32, i2);
    lemma_find_from_is(body, i2 + 1, 32, i2 + 3);
    assert(body.subrange(0, tl) =~= ty);
    assert(body.subrange(tl + 1, i2) =~= np);
    assert(body.subrange(i2 + 1, i2 + 3) =~= arrow_bytes());
    assert(body.subrange(i2 + 4, body.len() as int) =~= alias);
    // the name part splits on its colons into the name and the two numbers
    lemma_find_from_is(np, 0, 58, nml);
    lemma_find_from_is(np, nml + 1, 58, nml + 1 + d1l);
    assert(np.subrange(0, nml) =~= nm);
    assert(np.subrange(nml + 1, nml + 1 + d1l) =~= d1);
    assert(np.subrange(nml + 1 + d1l + 1, npl) =~= d2);
    // the name holds no parenthesis, so the member is a field
    lemma_find_from_none(nm, 0, 40);
    assert(rest[0] == ty[0] && !is_digit(rest[0]));
    assert(starts_with_indent(line));
    assert(classify_spec(line) == classify_member(rest));
}

/// A class-shaped line lacking the trailing `:` classifies as unparsable.
pub proof fn lemma_class_line_needs_colon(line: Seq<u8>)
    requires
        line.len() > 0 ==> line[0] != 35,
        !starts_with_indent(line),
        line.len() == 0 || line[line.len() - 1] != 58,
    ensures
        classify_spec(line) is None,
{
    if line.len() > 0 {
        assert(line.last() != 58);
    }
}

/// A member line missing the literal `->` token classifies as unparsable.
pub proof fn lemma_member_line_needs_arrow(line: Seq<u8>)
    requires
        starts_with_indent(line),
        forall|i: int| 0 <= i < line.len() - 1 ==> !(line[i] == 45 && #[trigger] line[i + 1] == 62),
    ensures
        classify_spec(line) is None,
{
    let rest = line.subrange(4, line.len() as int);
    assert forall|i: int| 0 <= i < rest.len() - 1 implies !(rest[i] == 45 && #[trigger] rest[i
        + 1] == 62) by {
        assert(rest[i] == line[i + 4]);
        assert(rest[i + 1] == line[i + 5]);
        assert(!(line[i + 4] == 45 && line[i + 4 + 1] == 62));
    }
    lemma_member_no_arrow(rest);
}

/// The four-token member split is unparsable outright when its third
/// space-token is not the literal `->`, whatever the other tokens hold.
pub proof fn lemma_member_third_token_not_arrow(
    text: Seq<u8>,
    sl: usize,
    el: usize,
    i1: int,
    i2: int,
    i3: int,
)
    requires
        find_from(text, 0, 32) == Some(i1),
        find_from(text, i1 + 1, 32) == Some(i2),
        find_from(text, i2 + 1, 32) == Some(i3),
        text.subrange(i2 + 1, i3) != arrow_bytes(),
    ensures
        classify_member_body(text, sl, el) is None,
{
}

/// No four-token member split can produce the `->` separator when the text
/// holds no adjacent `-` `>` pair.
proof fn lemma_member_no_arrow(rest: Seq<u8>)
    requires
        forall|i: int| 0 <= i < rest.len() - 1 ==> !(rest[i] == 45 && #[trigger] rest[i + 1] == 62),
    ensures
        classify_member(rest) is None,
{
    if rest.len() > 0 && is_digit(rest[0]) {
        if let Some(c1) = find_from(rest, 0, 58) {
            crate::text::lemma_find_from(rest, 0, 58);
            if parse_num(rest.subrange(0, c1)) is Some {
                if let Some(c2) = find_from(rest, c1 + 1, 58) {
                    crate::text::lemma_find_from(rest, c1 + 1, 58);
                    if parse_num(rest.subrange(c1 + 1, c2)) is Some {
                        let text = rest.subrange(c2 + 1, rest.len() as int);
                        assert forall|i: int|
                            0 <= i < text.len() - 1 implies !(text[i] == 45 && #[trigger] text[i
                            + 1] == 62) by {
                            assert(text[i] == rest[i + c2 + 1]);
                            assert(text[i + 1] == rest[i + c2 + 2]);
                            assert(!(rest[i + c2 + 1] == 45 && rest[i + c2 + 1 + 1] == 62));
                        }
                        lemma_body_no_arrow(text, parse_num(rest.subrange(0, c1)).unwrap(),
                            parse_num(rest.subrange(c1 + 1, c2)).unwrap());
                    }
                }
            }
        }
    } else {
        lemma_body_no_arrow(rest, 0, 0);
    }
}

/// The four-token split demands that its third token be exactly `->`, which
/// requires an adjacent `-` `>` pair in the text.
proof fn lemma_body_no_arrow(text: Seq<u8>, sl: usize, el: usize)
    requires
        forall|i: int| 0 <= i < text.len() - 1 ==> !(text[i] == 45 && #[trigger] text[i + 1] == 62),
    ensures
        classify_member_body(text, sl, el) is None,
{
    if let Some(i1) = find_from(text, 0, 32) {
        crate::text::lemma_find_from(text, 0, 32);
        if let Some(i2) = find_from(text, i1 + 1, 32) {
            crate::text::lemma_find_from(text, i1 + 1, 32);
            if let Some(i3) = find_from(text, i2 + 1, 32) {
                crate::text::lemma_find_from(text, i2 + 1, 32);
                let ar = text.subrange(i2 + 1, i3);
                if ar == arrow_bytes() {
                    assert(ar.len() == 2);
                    assert(text[i2 + 1] == ar[0] && ar[0] == 45);
                    assert(text[i2 + 2] == ar[1] && ar[1] == 62);
                    assert(false);
                }
            }
        }
    }
}

/// The line filter as a predicate over candidate models.
pub open spec fn line_filter(q: Option<usize>) -> spec_fn(MethodModel) -> bool {
    |m: MethodModel| spec_matches_line(m, q)
}

/// Querying with a line yields exactly the unqueried candidates that
/// survive the line filter, in document order.
pub proof fn lemma_candidates_filter(span: Seq<u8>, alias: Seq<u8>, q: usize)
    ensures
        spec_method_candidates(span, alias, Some(q)) == spec_method_candidates(
            span,
            alias,
            None,
        ).filter(line_filter(Some(q))),
    decreases span.len(),
{
    reveal(Seq::filter);
    crate::stream::lemma_next_line_len(span);
    let pred = line_filter(Some(q));
    match spec_next_line(span) {
        None => {
            assert(Seq::<MethodModel>::empty().filter(pred) =~= Seq::<MethodModel>::empty());
        },
        Some((l, r)) => {
            lemma_candidates_filter(r, alias, q);
            let tail_all = spec_method_candidates(r, alias, None);
            match classify_spec(l) {
                Some(RecordModel::Method(m)) => {
                    if m.obfuscated == alias {
                        assert(spec_matches_line(m, None));
                        Seq::filter_distributes_over_add(seq![m], tail_all, pred);
                        assert(seq![m].drop_last() =~= Seq::<MethodModel>::empty());
                        assert(seq![m].last() == m);
                        assert(Seq::<MethodModel>::empty().filter(pred)
                            =~= Seq::<MethodModel>::empty());
                        if spec_matches_line(m, Some(q)) {
                            assert(seq![m].filter(pred) =~= seq![m]);
                        } else {
                            assert(seq![m].filter(pred) =~= Seq::<MethodModel>::empty());
                            assert(Seq::<MethodModel>::empty() + tail_all.filter(pred)
                                =~= tail_all.filter(pred));
                        }
                    }
                },
                _ => {
                },
            }
        },
    }
}

/// With every candidate ranged and the queried line inside exactly one
/// range, the filter keeps that one candidate alone, and ranking a single
/// candidate returns it alone.
pub proof fn lemma_query_hits_one_range(cands: Seq<MethodModel>, q: usize, hit: int)
    requires
        0 <= hit < cands.len(),
        spec_matches_line(cands[hit], Some(q)),
        forall|i: int|
            0 <= i < cands.len() && i != hit ==> !spec_matches_line(
                #[trigger] cands[i],
                Some(q),
            ),
    ensures
        cands.filter(line_filter(Some(q))) == seq![cands[hit]],
        rank_methods(cands.filter(line_filter(Some(q))), Some(q)) == seq![cands[hit]],
    decreases cands.len(),
{
    reveal(Seq::filter);
    let pred = line_filter(Some(q));
    if hit == cands.len() - 1 {
        let t = cands.drop_last();
        assert(forall|i: int| 0 <= i < t.len() ==> !pred(#[trigger] t[i]));
        t.lemma_all_neg_filter_empty(pred);
        assert(cands.filter(pred) =~= seq![cands[hit]]);
    } else {
        let t = cands.drop_last();
        assert(forall|i: int| 0 <= i < t.len() && i != hit ==> t[i] == cands[i]);
        lemma_query_hits_one_range(t, q, hit);
        assert(!pred(cands.last()));
        assert(cands.filter(pred) == t.filter(pred));
        assert(t[hit] == cands[hit]);
    }
    let single = seq![cands[hit]];
    assert(single.last() == cands[hit]);
    assert(single.drop_last() =~= Seq::<MethodModel>::empty());
    assert(rank_methods(Seq::<MethodModel>::empty(), Some(q)) == Seq::<MethodModel>::empty());
    assert(insert_ranked(Seq::<MethodModel>::empty(), cands[hit], Some(q)) == seq![
        cands[hit],
    ]);
    assert(rank_methods(single, Some(q)) =~= single);
}

/// Ranking keeps a sequence of equally distant candidates exactly as it is:
/// ties preserve document order.
pub proof fn lemma_rank_keeps_order_of_ties(s: Seq<MethodModel>, q: Option<usize>, k: int)
    requires
        forall|i: int| 0 <= i < s.len() ==> spec_line_key(#[trigger] s[i], q) == k,
    ensures
        rank_methods(s, q) == s,
    decreases s.len(),
{
    if s.len() > 0 {
        let t = s.drop_last();
        assert(forall|i: int| 0 <= i < t.len() ==> t[i] == s[i]);
        lemma_rank_keeps_order_of_ties(t, q, k);
        if t.len() > 0 {
            assert(spec_line_key(s.last(), q) >= spec_line_key(t.last(), q));
            assert(t.push(s.last()) =~= s);
        } else {
            assert(seq![s.last()] =~= s);
        }
    }
}

/// With the queried line in no range, the filter keeps exactly the
/// candidates lacking any range, and ranking leaves them in document order:
/// their distances are all the queried line itself.
pub proof fn lemma_query_outside_ranges(cands: Seq<MethodModel>, q: usize)
    requires
        forall|i: int|
            0 <= i < cands.len() && (#[trigger] cands[i]).line_mapping is Some
                ==> !spec_matches_line(cands[i], Some(q)),
    ensures
        cands.filter(line_filter(Some(q))) == cands.filter(
            |m: MethodModel| m.line_mapping is None,
        ),
        rank_methods(cands.filter(line_filter(Some(q))), Some(q)) == cands.filter(
            line_filter(Some(q)),
        ),
    decreases cands.len(),
{
    reveal(Seq::filter);
    let pred = line_filter(Some(q));
    let rangeless = |m: MethodModel| m.line_mapping is None;
    if cands.len() > 0 {
        let t = cands.drop_last();
        assert(forall|i: int| 0 <= i < t.len() ==> t[i] == cands[i]);
        lemma_query_outside_ranges(t, q);
        assert(pred(cands.last()) == rangeless(cands.last()));
    } else {
        assert(cands.filter(pred) == cands.filter(rangeless));
    }
    let kept = cands.filter(pred);
    assert(kept == cands.filter(rangeless));
    assert forall|i: int|
        0 <= i < kept.len() implies spec_line_key(#[trigger] kept[i], Some(q)) == q as int by {
        cands.lemma_filter_pred(rangeless, i);
        assert(kept[i].line_mapping is None);
    }
    lemma_rank_keeps_order_of_ties(kept, Some(q), q as int);
}

/// Lookup idempotence: against the same document, the same alias resolves
/// to the same class, with no hidden state to differ between calls.
pub proof fn lemma_find_class_idempotent(
    doc: Seq<u8>,
    alias: Seq<u8>,
    r1: Option<ClassModel>,
    r2: Option<ClassModel>,
)
    requires
        r1 == spec_find_class(doc, alias),
        r2 == spec_find_class(doc, alias),
    ensures
        r1 == r2,
{
}

/// Lookup idempotence for methods: the same span, alias and queried line
/// always resolve to the same ranked candidates.
pub proof fn lemma_get_methods_idempotent(
    span: Seq<u8>,
    alias: Seq<u8>,
    q: Option<usize>,
    r1: Seq<MethodModel>,
    r2: Seq<MethodModel>,
)
    requires
        r1 == spec_get_methods(span, alias, q),
        r2 == spec_get_methods(span, alias, q),
    ensures
        r1 == r2,
{
}

} // verus!
