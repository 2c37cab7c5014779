//! The emission normal form reparses to the declaration it came from: for any
//! well-formed declaration, parsing its emission returns exactly that
//! declaration. Together with the sort's fixed point this gives idempotence:
//! canonicalizing a canonical declaration returns it byte for byte.

use vstd::prelude::*;
use crate::ast::{FieldG, RecordG};
use crate::scan::{
    is_ws, is_ident_start, is_ident_char, skip_ws, ident_end, scan_close, line_end,
    lemma_skip_ws, B_HASH, B_LBRACKET, B_RBRACKET, B_LPAREN, B_RPAREN, B_LBRACE, B_RBRACE, B_LT,
    B_GT, B_COMMA, B_COLON, B_SLASH, B_LF, B_SPACE,
};
use crate::parse::{kw_struct, kw_enum, kw_union, kw_pub, spec_ident, spec_attrs, spec_vis,
    ty_end, trim_end, spec_field, spec_fields, spec_record_tail, spec_parse_record};

verus! {

/// Whitespace skipping stops exactly at the end of a whitespace run.
pub proof fn lemma_skip_ws_run(s: Seq<u8>, i: int, e: int)
    requires
        0 <= i <= e <= s.len(),
        forall|k: int| i <= k < e ==> is_ws(#[trigger] s[k]),
        e < s.len() ==> !is_ws(s[e]),
    ensures
        skip_ws(s, i) == e,
    decreases e - i,
{
    if i < e {
        lemma_skip_ws_run(s, i + 1, e);
    }
}

/// An identifier scan stops exactly at the end of an identifier-character run.
pub proof fn lemma_ident_end_run(s: Seq<u8>, i: int, e: int)
    requires
        0 <= i <= e <= s.len(),
        forall|k: int| i <= k < e ==> is_ident_char(#[trigger] s[k]),
        e < s.len() ==> !is_ident_char(s[e]),
    ensures
        ident_end(s, i) == e,
    decreases e - i,
{
    if i < e {
        lemma_ident_end_run(s, i + 1, e);
    }
}

/// A line scan stops exactly at the first line feed.
pub proof fn lemma_line_end_run(s: Seq<u8>, i: int, e: int)
    requires
        0 <= i <= e < s.len(),
        forall|k: int| i <= k < e ==> s[k] != B_LF,
        s[e] == B_LF,
    ensures
        line_end(s, i) == e,
    decreases e - i,
{
    if i < e {
        lemma_line_end_run(s, i + 1, e);
    }
}

/// A delimiter scan that succeeds on a sequence succeeds the same way wherever
/// that sequence is embedded.
pub proof fn lemma_scan_close_embed(
    a: Seq<u8>,
    s: Seq<u8>,
    o: int,
    i: int,
    open: u8,
    close: u8,
    depth: int,
)
    requires
        0 <= o,
        o + a.len() <= s.len(),
        s.subrange(o, o + a.len()) == a,
        0 <= i <= a.len(),
        scan_close(a, i, open, close, depth) is Some,
    ensures
        scan_close(s, o + i, open, close, depth) == Option::Some(
            o + scan_close(a, i, open, close, depth)->0,
        ),
    decreases a.len() - i,
{
    if i < a.len() {
        assert(s[o + i] == a[i]);
        if a[i] == open {
            lemma_scan_close_embed(a, s, o, i + 1, open, close, depth + 1);
        } else if a[i] == close {
            if depth > 1 {
                lemma_scan_close_embed(a, s, o, i + 1, open, close, depth - 1);
            }
        } else {
            lemma_scan_close_embed(a, s, o, i + 1, open, close, depth);
        }
    }
}

/// A type scan that succeeds on a sequence succeeds the same way wherever that
/// sequence is embedded.
pub proof fn lemma_ty_end_embed(a: Seq<u8>, s: Seq<u8>, o: int, i: int, depth: int)
    requires
        0 <= o,
        o + a.len() <= s.len(),
        s.subrange(o, o + a.len()) == a,
        0 <= i <= a.len(),
        ty_end(a, i, depth) is Some,
    ensures
        ty_end(s, o + i, depth) == Option::Some(o + ty_end(a, i, depth)->0),
    decreases a.len() - i,
{
    if i < a.len() {
        assert(s[o + i] == a[i]);
        if depth <= 0 && (a[i] == B_COMMA || a[i] == B_RBRACE) {
        } else if a[i] == B_LPAREN || a[i] == B_LBRACKET || a[i] == B_LBRACE || a[i] == B_LT {
            lemma_ty_end_embed(a, s, o, i + 1, depth + 1);
        } else if a[i] == B_RPAREN || a[i] == B_RBRACKET || a[i] == B_RBRACE || a[i] == B_GT {
            if depth > 0 {
                lemma_ty_end_embed(a, s, o, i + 1, depth - 1);
            }
        } else {
            lemma_ty_end_embed(a, s, o, i + 1, depth);
        }
    }
}

/// A nonempty run of identifier characters opened by an identifier-start byte.
pub open spec fn is_ident_seq(w: Seq<u8>) -> bool {
    w.len() > 0 && is_ident_start(w[0]) && forall|k: int|
        0 <= k < w.len() ==> is_ident_char(#[trigger] w[k])
}

/// An attribute in the shape the parser captures: a bracketed attribute whose
/// brackets balance exactly at its end, or a doc comment that spans one line.
pub open spec fn wf_attr(a: Seq<u8>) -> bool {
    ||| (a.len() >= 3 && a[0] == B_HASH && a[1] == B_LBRACKET && scan_close(
        a,
        2,
        B_LBRACKET,
        B_RBRACKET,
        1,
    ) == Option::Some(a.len() as int))
    ||| (a.len() >= 3 && a[0] == B_SLASH && a[1] == B_SLASH && a[2] == B_SLASH && forall|k: int|
        0 <= k < a.len() ==> s_at(a, k) != B_LF)
}

/// The byte of `a` at `k`; a named form so it can carry a quantifier trigger.
pub open spec fn s_at(a: Seq<u8>, k: int) -> u8 {
    a[k]
}

/// A visibility in the shape the parser captures: nothing, `pub` alone, or
/// `pub` followed by a parenthesized restriction that closes at its end.
pub open spec fn wf_vis(v: Seq<u8>) -> bool {
    ||| v.len() == 0
    ||| v == kw_pub()
    ||| (v.len() > 3 && v.subrange(0, 3) == kw_pub() && !is_ident_char(v[3]) && {
        let p = skip_ws(v, 3);
        p < v.len() && v[p] == B_LPAREN && scan_close(v, p + 1, B_LPAREN, B_RPAREN, 1)
            == Option::Some(v.len() as int)
    })
}

/// A generic-parameter list in the shape the parser captures: nothing, or an
/// angle-bracketed span that closes at its end.
pub open spec fn wf_generics(g: Seq<u8>) -> bool {
    ||| g.len() == 0
    ||| (g.len() >= 2 && g[0] == B_LT && scan_close(g, 1, B_LT, B_GT, 1) == Option::Some(
        g.len() as int,
    ))
}

/// A field type in the shape the parser captures: nonempty, no whitespace at
/// either end, and scanned to exactly its own length when a comma follows.
pub open spec fn wf_ty(ty: Seq<u8>) -> bool {
    &&& ty.len() > 0
    &&& !is_ws(ty[0])
    &&& !is_ws(ty[ty.len() - 1])
    &&& ty_end(ty.push(B_COMMA), 0, 0) == Option::Some(ty.len() as int)
}

pub open spec fn wf_attrs(attrs: Seq<Seq<u8>>) -> bool {
    forall|k: int| 0 <= k < attrs.len() ==> wf_attr(#[trigger] attrs[k])
}

pub open spec fn wf_field(f: FieldG) -> bool {
    wf_attrs(f.attrs) && is_ident_seq(f.name) && wf_ty(f.ty)
}

/// A record whose parts are each in the shape the parser captures.
pub open spec fn wf_record(r: RecordG) -> bool {
    &&& wf_attrs(r.attrs)
    &&& wf_vis(r.vis)
    &&& is_ident_seq(r.name)
    &&& wf_generics(r.generics)
    &&& forall|k: int| 0 <= k < r.fields.len() ==> wf_field(#[trigger] r.fields[k])
}

/// Attribute lines starting (after whitespace) at `b` reparse to exactly the
/// attributes they were emitted from, and reading resumes at the first
/// non-whitespace byte after them.
pub proof fn lemma_attrs_reparse(s: Seq<u8>, i: int, attrs: Seq<Seq<u8>>, ind: Seq<u8>, b: int)
    requires
        0 <= i <= b,
        b + crate::emit::emit_lines(attrs, ind).len() <= s.len(),
        forall|k: int| i <= k < b ==> is_ws(#[trigger] s[k]),
        forall|k: int| 0 <= k < ind.len() ==> is_ws(#[trigger] ind[k]),
        s.subrange(b, b + crate::emit::emit_lines(attrs, ind).len()) == crate::emit::emit_lines(
            attrs,
            ind,
        ),
        wf_attrs(attrs),
        ({
            let stop = skip_ws(s, b + crate::emit::emit_lines(attrs, ind).len());
            stop < s.len() ==> (s[stop] != B_HASH && s[stop] != B_SLASH)
        }),
    ensures
        spec_attrs(s, i) == Result::<(Seq<Seq<u8>>, int), int>::Ok(
            (attrs, skip_ws(s, b + crate::emit::emit_lines(attrs, ind).len())),
        ),
    decreases attrs.len(),
{
    let block = crate::emit::emit_lines(attrs, ind);
    lemma_skip_ws(s, b + block.len());
    let stop = skip_ws(s, b + block.len());
    if attrs.len() == 0 {
        assert(block.len() == 0);
        lemma_skip_ws_chain(s, i, b);
        assert(spec_attrs(s, i) == Result::<(Seq<Seq<u8>>, int), int>::Ok((attrs, stop))) by {
            let j = skip_ws(s, i);
            assert(j == stop);
            if j < s.len() {
                assert(s[j] != B_HASH && s[j] != B_SLASH);
            }
            assert(attrs =~= Seq::<Seq<u8>>::empty());
        }
    } else {
        let a = attrs[0];
        let rest = attrs.drop_first();
        let rest_block = crate::emit::emit_lines(rest, ind);
        assert(block =~= ind + a + seq![B_LF] + rest_block);
        let j = b + ind.len();
        assert forall|k: int| 0 <= k < a.len() implies s[j + k] == a[k] by {
            assert(block[ind.len() + k] == a[k]);
            assert(s[b + (ind.len() + k)] == block[ind.len() + k]);
        }
        assert(s.subrange(j, j + a.len()) =~= a);
        assert(is_ws(a[0]) == false) by {
            assert(a[0] == B_HASH || a[0] == B_SLASH);
        }
        assert(skip_ws(s, i) == j) by {
            assert forall|k: int| i <= k < j implies is_ws(#[trigger] s[k]) by {
                if b <= k {
                    assert(s[k] == block[k - b]);
                    assert(block[k - b] == ind[k - b]);
                }
            }
            assert(s[j] == a[0]);
            lemma_skip_ws_run(s, i, j);
        }
        let e = j + a.len();
        assert(s[e] == B_LF) by {
            assert(block[ind.len() + a.len() as int] == B_LF);
        }
        // the tail of the block follows the line feed
        assert forall|k: int| i_in_rest(k, rest_block.len() as int) implies s[e + 1 + k]
            == rest_block[k] by {
            assert(block[ind.len() + a.len() + 1 + k] == rest_block[k]);
        }
        assert(s.subrange(e + 1, e + 1 + rest_block.len()) =~= rest_block);
        lemma_attrs_reparse(s, e, rest, ind, e + 1);
        assert(spec_attrs(s, e) == Result::<(Seq<Seq<u8>>, int), int>::Ok(
            (rest, skip_ws(s, e + 1 + rest_block.len())),
        ));
        assert(skip_ws(s, e + 1 + rest_block.len()) == stop);
        if a[0] == B_HASH {
            assert(wf_attr(a));
            assert(a[1] == B_LBRACKET);
            assert(s[j] == B_HASH && s[j + 1] == B_LBRACKET);
            lemma_scan_close_embed(a, s, j, 2, B_LBRACKET, B_RBRACKET, 1);
            assert(scan_close(s, j + 2, B_LBRACKET, B_RBRACKET, 1) == Option::Some(e));
            assert(spec_attrs(s, i) == Result::<(Seq<Seq<u8>>, int), int>::Ok(
                (seq![s.subrange(j, e)] + rest, stop),
            ));
            assert(seq![s.subrange(j, e)] + rest =~= attrs);
        } else {
            assert(a[0] == B_SLASH && a[1] == B_SLASH && a[2] == B_SLASH);
            assert(s[j] == B_SLASH && s[j + 1] == B_SLASH && s[j + 2] == B_SLASH);
            assert(line_end(s, j + 3) == e) by {
                assert forall|k: int| j + 3 <= k < e implies s[k] != B_LF by {
                    assert(s[k] == a[k - j]);
                    assert(s_at(a, k - j) != B_LF);
                }
                lemma_line_end_run(s, j + 3, e);
            }
            assert(spec_attrs(s, i) == Result::<(Seq<Seq<u8>>, int), int>::Ok(
                (seq![s.subrange(j, e)] + rest, stop),
            ));
            assert(seq![s.subrange(j, e)] + rest =~= attrs);
        }
    }
}

/// Index guard for a quantifier over the tail block.
pub open spec fn i_in_rest(k: int, n: int) -> bool {
    0 <= k < n
}

/// Where a parse begins only whitespace matters: two starting points with the
/// same first non-whitespace byte read the same attributes.
pub proof fn lemma_spec_attrs_ws_invariant(s: Seq<u8>, i1: int, i2: int)
    requires
        0 <= i1 <= s.len(),
        0 <= i2 <= s.len(),
        skip_ws(s, i1) == skip_ws(s, i2),
    ensures
        spec_attrs(s, i1) == spec_attrs(s, i2),
{
}

/// Where a parse begins only whitespace matters: two starting points with the
/// same first non-whitespace byte read the same field.
pub proof fn lemma_spec_field_ws_invariant(s: Seq<u8>, i1: int, i2: int)
    requires
        0 <= i1 <= s.len(),
        0 <= i2 <= s.len(),
        skip_ws(s, i1) == skip_ws(s, i2),
    ensures
        spec_field(s, i1) == spec_field(s, i2),
{
    lemma_spec_attrs_ws_invariant(s, i1, i2);
}

/// One emitted field line (attributes included) reparses to exactly the field
/// it was emitted from, ending at its trailing comma.
pub proof fn lemma_field_reparse(s: Seq<u8>, i: int, f: FieldG, b: int)
    requires
        0 <= i <= b,
        b + crate::emit::emit_field(f).len() <= s.len(),
        forall|k: int| i <= k < b ==> is_ws(#[trigger] s[k]),
        s.subrange(b, b + crate::emit::emit_field(f).len()) == crate::emit::emit_field(f),
        wf_field(f),
    ensures
        spec_field(s, i) == Result::<(FieldG, int), int>::Ok(
            (f, b + crate::emit::emit_field(f).len() - 2),
        ),
{
    let ef = crate::emit::emit_field(f);
    let la = crate::emit::emit_lines(f.attrs, crate::emit::indent4());
    let name = f.name;
    let ty = f.ty;
    assert(ef =~= la + crate::emit::indent4() + name + crate::emit::colon_sp() + ty
        + crate::emit::comma_nl());
    let sb = s.subrange(b, b + ef.len());
    assert((la + crate::emit::indent4()).len() == la.len() + 4);
    assert((la + crate::emit::indent4() + name).len() == la.len() + 4 + name.len());
    assert((la + crate::emit::indent4() + name + crate::emit::colon_sp()).len() == la.len() + 4
        + name.len() + 2);
    assert((la + crate::emit::indent4() + name + crate::emit::colon_sp() + ty).len() == la.len()
        + 4 + name.len() + 2 + ty.len());
    assert forall|k: int| 0 <= k < ef.len() implies s[b + k] == ef[k] by {
        assert(sb[k] == s[b + k]);
    }
    // the attribute block sits first
    assert forall|k: int| 0 <= k < la.len() implies s[b + k] == la[k] by {
        assert(ef[k] == la[k]);
    }
    assert(s.subrange(b, b + la.len()) =~= la);
    let pn = b + la.len() + 4;
    assert(ef[la.len() + 4 as int] == name[0]);
    assert(s[pn] == name[0]);
    assert(is_ident_start(name[0]));
    assert(skip_ws(s, b + la.len()) == pn) by {
        assert forall|k: int| b + la.len() <= k < pn implies is_ws(#[trigger] s[k]) by {
            assert(ef[k - b] == crate::emit::indent4()[k - b - la.len()]);
        }
        lemma_skip_ws_run(s, b + la.len(), pn);
    }
    lemma_attrs_reparse(s, i, f.attrs, crate::emit::indent4(), b);
    assert(spec_attrs(s, i) == Result::<(Seq<Seq<u8>>, int), int>::Ok((f.attrs, pn)));
    // the name runs to its colon
    let ne = pn + name.len();
    assert forall|k: int| 0 <= k < name.len() implies s[pn + k] == name[k] by {
        assert(ef[la.len() + 4 + k] == name[k]);
        assert(s[b + (la.len() + 4 + k)] == ef[la.len() + 4 + k]);
    }
    assert(ef[la.len() + 4 + name.len() as int] == crate::emit::colon_sp()[0]);
    assert(ef[la.len() + 4 + name.len() + 1 as int] == crate::emit::colon_sp()[1]);
    assert(s[ne] == B_COLON && s[ne + 1] == B_SPACE);
    assert(spec_ident(s, pn) == Option::Some((name, ne))) by {
        assert forall|k: int| pn + 1 <= k < ne implies is_ident_char(#[trigger] s[k]) by {
            assert(s[k] == name[k - pn]);
        }
        assert(!is_ident_char(B_COLON));
        lemma_ident_end_run(s, pn + 1, ne);
        assert(s.subrange(pn, ne) =~= name);
    }
    assert(skip_ws(s, ne) == ne) by {
        lemma_skip_ws_run(s, ne, ne);
    }
    let t0 = ne + 2;
    assert(skip_ws(s, ne + 1) == t0) by {
        assert(ef[la.len() + 4 + name.len() + 2 as int] == ty[0]);
        assert(s[b + (la.len() + 4 + name.len() + 2)] == ef[la.len() + 4 + name.len() + 2 as int]);
        assert(s[t0] == ty[0]);
        lemma_skip_ws_run(s, ne + 1, t0);
    }
    // the type runs to its comma
    let e = t0 + ty.len();
    assert forall|k: int| 0 <= k < ty.len() + 1 implies s[t0 + k] == ty.push(B_COMMA)[k] by {
        if k < ty.len() {
            assert(ef[la.len() + 4 + name.len() + 2 + k] == ty[k]);
        } else {
            assert(ef[la.len() + 4 + name.len() + 2 + k] == crate::emit::comma_nl()[0]);
        }
        assert(s[b + (la.len() + 4 + name.len() + 2 + k)] == ef[la.len() + 4 + name.len() + 2
            + k]);
    }
    assert(s.subrange(t0, t0 + ty.len() + 1) =~= ty.push(B_COMMA));
    lemma_ty_end_embed(ty.push(B_COMMA), s, t0, 0, 0);
    assert(ty_end(s, t0, 0) == Option::Some(e));
    assert(trim_end(s, t0, e) == e) by {
        assert(s[t0 + (ty.len() - 1)] == ty.push(B_COMMA)[ty.len() - 1]);
        assert(ty.push(B_COMMA)[ty.len() - 1] == ty[ty.len() - 1]);
        assert(s[e - 1] == ty[ty.len() - 1]);
    }
    assert(s.subrange(t0, e) =~= ty);
    assert(spec_field(s, i) == Result::<(FieldG, int), int>::Ok(
        (FieldG { attrs: f.attrs, name, ty }, e),
    ));
    assert(FieldG { attrs: f.attrs, name, ty } == f);
    assert(e == b + ef.len() - 2);
}

/// An emitted field list reparses to exactly the fields it was emitted from,
/// ending just past the record's closing brace.
pub proof fn lemma_fields_reparse(s: Seq<u8>, i: int, fields: Seq<FieldG>, b: int)
    requires
        0 <= i <= b,
        b + crate::emit::emit_fields(fields).len() < s.len(),
        forall|k: int| i <= k < b ==> is_ws(#[trigger] s[k]),
        s.subrange(b, b + crate::emit::emit_fields(fields).len()) == crate::emit::emit_fields(
            fields,
        ),
        s[b + crate::emit::emit_fields(fields).len()] == B_RBRACE,
        forall|k: int| 0 <= k < fields.len() ==> wf_field(#[trigger] fields[k]),
    ensures
        spec_fields(s, i) == Result::<(Seq<FieldG>, int), int>::Ok(
            (fields, b + crate::emit::emit_fields(fields).len() + 1),
        ),
    decreases fields.len(),
{
    let block = crate::emit::emit_fields(fields);
    if fields.len() == 0 {
        assert(block.len() == 0);
        assert(skip_ws(s, i) == b) by {
            lemma_skip_ws_run(s, i, b);
        }
        assert(fields =~= Seq::<FieldG>::empty());
    } else {
        let f = fields[0];
        let rest = fields.drop_first();
        let ef = crate::emit::emit_field(f);
        let rest_block = crate::emit::emit_fields(rest);
        assert(block =~= ef + rest_block);
        assert forall|k: int| 0 <= k < block.len() implies s[b + k] == block[k] by {
            assert(s.subrange(b, b + block.len())[k] == s[b + k]);
        }
        assert(s.subrange(b, b + ef.len()) =~= ef);
        lemma_field_reparse(s, b, f, b);
        let e = b + ef.len() - 2;
        // the first non-whitespace byte cannot be the closing brace
        let la = crate::emit::emit_lines(f.attrs, crate::emit::indent4());
        assert(ef =~= la + crate::emit::indent4() + f.name + crate::emit::colon_sp() + f.ty
            + crate::emit::comma_nl());
        let first = if f.attrs.len() == 0 {
            f.name[0]
        } else {
            f.attrs[0][0]
        };
        assert(s[b + 4] == first && !is_ws(first) && first != B_RBRACE) by {
            if f.attrs.len() == 0 {
                assert(la.len() == 0);
                assert(ef[4] == f.name[0]);
            } else {
                assert(la =~= crate::emit::indent4() + f.attrs[0] + seq![B_LF]
                    + crate::emit::emit_lines(rest_attrs(f.attrs), crate::emit::indent4()));
                assert(ef[4] == f.attrs[0][0]);
                assert(f.attrs[0][0] == B_HASH || f.attrs[0][0] == B_SLASH);
            }
        }
        let j = b + 4;
        assert forall|k: int| i <= k < j implies is_ws(#[trigger] s[k]) by {
            if b <= k {
                assert(s[k] == ef[k - b]);
                if f.attrs.len() == 0 {
                    assert(ef[k - b] == crate::emit::indent4()[k - b]);
                } else {
                    assert(ef[k - b] == crate::emit::indent4()[k - b]);
                }
            }
        }
        assert(skip_ws(s, i) == j) by {
            lemma_skip_ws_run(s, i, j);
        }
        assert(s[j] != B_RBRACE);
        assert(skip_ws(s, j) == j) by {
            lemma_skip_ws_run(s, j, j);
        }
        assert(skip_ws(s, b) == j) by {
            lemma_skip_ws_run(s, b, j);
        }
        lemma_spec_field_ws_invariant(s, j, b);
        assert(spec_field(s, j) == Result::<(FieldG, int), int>::Ok((f, e)));
        assert(s[e] == B_COMMA && s[e + 1] == B_LF) by {
            assert(ef[ef.len() - 2] == crate::emit::comma_nl()[0]);
            assert(ef[ef.len() - 1] == crate::emit::comma_nl()[1]);
        }
        assert forall|k: int| 0 <= k < rest_block.len() implies s[b + ef.len() + k]
            == rest_block[k] by {
            assert(block[ef.len() + k] == rest_block[k]);
            assert(s[b + (ef.len() + k)] == block[ef.len() + k]);
        }
        assert(s.subrange(b + ef.len(), b + ef.len() + rest_block.len()) =~= rest_block);
        assert forall|k: int| 0 <= k < rest.len() implies wf_field(#[trigger] rest[k]) by {
            assert(rest[k] == fields[k + 1]);
        }
        lemma_fields_reparse(s, e + 1, rest, b + ef.len());
        assert(spec_fields(s, i) == Result::<(Seq<FieldG>, int), int>::Ok(
            (seq![f] + rest, b + block.len() + 1),
        ));
        assert(seq![f] + rest =~= fields);
    }
}

/// The attributes of a field after its first one.
pub open spec fn rest_attrs(attrs: Seq<Seq<u8>>) -> Seq<Seq<u8>> {
    attrs.drop_first()
}

/// Everything a whitespace skip passed over is whitespace.
pub proof fn lemma_skip_ws_all(s: Seq<u8>, i: int)
    requires
        0 <= i <= s.len(),
    ensures
        forall|k: int| i <= k < skip_ws(s, i) ==> is_ws(#[trigger] s[k]),
    decreases s.len() - i,
{
    if i < s.len() && is_ws(s[i]) {
        lemma_skip_ws_all(s, i + 1);
    }
}


/// A subrange of a prefix is the same subrange of the whole.
proof fn lemma_sub_transfer(s: Seq<u8>, p: Seq<u8>, lo: int, hi: int)
    requires
        s.len() >= p.len(),
        s.subrange(0, p.len() as int) == p,
        0 <= lo <= hi <= p.len(),
    ensures
        s.subrange(lo, hi) == p.subrange(lo, hi),
{
    assert(s.subrange(lo, hi) =~= p.subrange(lo, hi));
}

/// Splitting a concatenation recovers both halves.
proof fn lemma_concat_split(x: Seq<u8>, y: Seq<u8>)
    ensures
        (x + y).subrange(0, x.len() as int) == x,
        (x + y).subrange(x.len() as int, (x + y).len() as int) == y,
{
    assert((x + y).subrange(0, x.len() as int) =~= x);
    assert((x + y).subrange(x.len() as int, (x + y).len() as int) =~= y);
}

/// A nonempty emitted visibility reparses to exactly itself when a space and
/// the `struct` keyword follow it.
proof fn lemma_vis_reparse(s: Seq<u8>, pv: int, v: Seq<u8>)
    requires
        wf_vis(v),
        v.len() > 0,
        0 <= pv,
        pv + v.len() + 1 < s.len(),
        s.subrange(pv, pv + v.len()) == v,
        s[pv + v.len()] == 32u8,
        s[pv + v.len() + 1] == 115u8,
        skip_ws(s, pv) == pv,
    ensures
        spec_vis(s, pv) == (v, pv + v.len()),
{
    assert forall|k: int| 0 <= k < v.len() implies s[pv + k] == v[k] by {
        assert(s.subrange(pv, pv + v.len())[k] == s[pv + k]);
    }
    if v == kw_pub() {
        assert(spec_ident(s, pv) == Option::Some((kw_pub(), pv + 3))) by {
            assert(s[pv] == v[0] && s[pv + 1] == v[1] && s[pv + 2] == v[2]);
            assert(!is_ident_char(32u8));
            lemma_ident_end_run(s, pv + 1, pv + 3);
            assert(s.subrange(pv, pv + 3) =~= kw_pub());
        }
        assert(skip_ws(s, pv + 3) == pv + 4) by {
            lemma_skip_ws_run(s, pv + 3, pv + 4);
        }
        assert(s[pv + 4] == 115u8 && 115u8 != B_LPAREN);
    } else {
        assert(v.len() > 3 && v.subrange(0, 3) == kw_pub() && !is_ident_char(v[3]));
        let p = skip_ws(v, 3);
        lemma_skip_ws(v, 3);
        lemma_skip_ws_all(v, 3);
        assert(v[p] == B_LPAREN);
        assert(spec_ident(s, pv) == Option::Some((kw_pub(), pv + 3))) by {
            assert(v[0] == kw_pub()[0] && v[1] == kw_pub()[1] && v[2] == kw_pub()[2]) by {
                assert(v.subrange(0, 3)[0] == v[0]);
                assert(v.subrange(0, 3)[1] == v[1]);
                assert(v.subrange(0, 3)[2] == v[2]);
            }
            assert(is_ident_start(v[0]));
            lemma_ident_end_run(s, pv + 1, pv + 3);
            assert(s.subrange(pv, pv + 3) =~= kw_pub());
        }
        assert(skip_ws(s, pv + 3) == pv + p) by {
            assert forall|k: int| pv + 3 <= k < pv + p implies is_ws(#[trigger] s[k]) by {
                assert(s[pv + (k - pv)] == v[k - pv]);
            }
            assert(s[pv + p] == v[p]);
            lemma_skip_ws_run(s, pv + 3, pv + p);
        }
        assert(s[pv + p] == B_LPAREN);
        lemma_scan_close_embed(v, s, pv, p + 1, B_LPAREN, B_RPAREN, 1);
        assert(scan_close(s, pv + p + 1, B_LPAREN, B_RPAREN, 1) == Option::Some(pv + v.len()));
    }
}

/// The visibility as it stands in an emission: followed by one space when it
/// is present at all.
pub open spec fn vis_part(v: Seq<u8>) -> Seq<u8> {
    if v.len() > 0 {
        v + seq![32u8]
    } else {
        Seq::<u8>::empty()
    }
}

/// Where each part of an emitted record begins.
pub open spec fn o_pv(r: RecordG) -> int {
    crate::emit::emit_lines(r.attrs, Seq::<u8>::empty()).len() as int
}

pub open spec fn o_pk(r: RecordG) -> int {
    o_pv(r) + vis_part(r.vis).len()
}

pub open spec fn o_pn(r: RecordG) -> int {
    o_pk(r) + 7
}

pub open spec fn o_pg(r: RecordG) -> int {
    o_pn(r) + r.name.len()
}

pub open spec fn o_ph(r: RecordG) -> int {
    o_pg(r) + r.generics.len()
}

pub open spec fn o_pf(r: RecordG) -> int {
    o_ph(r) + 3
}

pub open spec fn o_pz(r: RecordG) -> int {
    o_pf(r) + crate::emit::emit_fields(r.fields).len()
}

/// Each part of an emitted record sits at its offset.
#[verifier::rlimit(60)]
proof fn lemma_record_layout(r: RecordG)
    ensures
        crate::emit::emit_record(r).len() == o_pz(r) + 1,
        crate::emit::emit_record(r).subrange(0, o_pv(r)) == crate::emit::emit_lines(
            r.attrs,
            Seq::<u8>::empty(),
        ),
        crate::emit::emit_record(r).subrange(o_pv(r), o_pk(r)) == vis_part(r.vis),
        crate::emit::emit_record(r).subrange(o_pk(r), o_pn(r) - 1) == kw_struct(),
        crate::emit::emit_record(r)[o_pn(r) - 1] == 32u8,
        crate::emit::emit_record(r).subrange(o_pn(r), o_pg(r)) == r.name,
        crate::emit::emit_record(r).subrange(o_pg(r), o_ph(r)) == r.generics,
        crate::emit::emit_record(r)[o_ph(r)] == 32u8,
        crate::emit::emit_record(r)[o_ph(r) + 1] == B_LBRACE,
        crate::emit::emit_record(r)[o_ph(r) + 2] == B_LF,
        crate::emit::emit_record(r).subrange(o_pf(r), o_pz(r)) == crate::emit::emit_fields(
            r.fields,
        ),
        crate::emit::emit_record(r)[o_pz(r)] == 125u8,
{
    let s = crate::emit::emit_record(r);
    let a = crate::emit::emit_lines(r.attrs, Seq::<u8>::empty());
    let vp = vis_part(r.vis);
    let fblock = crate::emit::emit_fields(r.fields);
    let s2 = a + vp;
    let s3 = s2 + kw_struct();
    let s4 = s3 + seq![32u8];
    let s5 = s4 + r.name;
    let s6 = s5 + r.generics;
    let s7 = s6 + crate::emit::sp_lbrace_nl();
    let s8 = s7 + fblock;
    assert(s == s8 + seq![125u8]);
    let pv = o_pv(r);
    let pk = o_pk(r);
    let pn = o_pn(r);
    let pg = o_pg(r);
    let ph = o_ph(r);
    let pf = o_pf(r);
    let pz = o_pz(r);
    // carve the emission into its parts
    lemma_concat_split(s8, seq![125u8]);
    lemma_concat_split(s7, fblock);
    lemma_concat_split(s6, crate::emit::sp_lbrace_nl());
    lemma_concat_split(s5, r.generics);
    lemma_concat_split(s4, r.name);
    lemma_concat_split(s3, seq![32u8]);
    lemma_concat_split(s2, kw_struct());
    lemma_concat_split(a, vp);
    assert(s.subrange(0, pz) == s8);
    lemma_sub_transfer(s, s8, 0, pf);
    assert(s.subrange(0, pf) == s7);
    lemma_sub_transfer(s, s7, 0, ph);
    assert(s.subrange(0, ph) == s6);
    lemma_sub_transfer(s, s6, 0, pg);
    assert(s.subrange(0, pg) == s5);
    lemma_sub_transfer(s, s5, 0, pn);
    assert(s.subrange(0, pn) == s4);
    lemma_sub_transfer(s, s4, 0, pn - 1);
    assert(s.subrange(0, pn - 1) == s3);
    lemma_sub_transfer(s, s3, 0, pk);
    assert(s.subrange(0, pk) == s2);
    lemma_sub_transfer(s, s2, 0, pv);
    assert(s.subrange(0, pv) == a);
    lemma_sub_transfer(s, s8, pf, pz);
    assert(s.subrange(pf, pz) == fblock);
    lemma_sub_transfer(s, s7, ph, pf);
    assert(s.subrange(ph, pf) == crate::emit::sp_lbrace_nl());
    lemma_sub_transfer(s, s6, pg, ph);
    assert(s.subrange(pg, ph) == r.generics);
    lemma_sub_transfer(s, s5, pn, pg);
    assert(s.subrange(pn, pg) == r.name);
    lemma_sub_transfer(s, s4, pn - 1, pn);
    assert(s.subrange(pn - 1, pn) == seq![32u8]);
    lemma_sub_transfer(s, s3, pk, pn - 1);
    assert(s.subrange(pk, pn - 1) == kw_struct());
    lemma_sub_transfer(s, s2, pv, pk);
    assert(s.subrange(pv, pk) == vp);
    // the single bytes the scanners look at
    assert((s8 + seq![125u8])[pz] == 125u8);
    assert(s.subrange(ph, pf)[0] == s[ph]);
    assert(s.subrange(ph, pf)[1] == s[ph + 1]);
    assert(s.subrange(ph, pf)[2] == s[ph + 2]);
    assert(s.subrange(pn - 1, pn)[0] == s[pn - 1]);
}

/// Parsing the emission of a well-formed record returns exactly that record:
/// emission loses nothing and invents nothing.
#[verifier::rlimit(100)]
proof fn lemma_record_head(r: RecordG)
    requires
        wf_record(r),
    ensures
        spec_attrs(crate::emit::emit_record(r), 0) == Result::<(Seq<Seq<u8>>, int), int>::Ok(
            (r.attrs, o_pv(r)),
        ),
        spec_vis(crate::emit::emit_record(r), o_pv(r)) == (r.vis, head_i2(r)),
        skip_ws(crate::emit::emit_record(r), head_i2(r)) == o_pk(r),
        spec_ident(crate::emit::emit_record(r), o_pk(r)) == Option::Some(
            (kw_struct(), o_pk(r) + 6),
        ),
        skip_ws(crate::emit::emit_record(r), o_pk(r) + 6) == o_pn(r),
        spec_ident(crate::emit::emit_record(r), o_pn(r)) == Option::Some((r.name, o_pg(r))),
        r.generics.len() > 0 ==> skip_ws(crate::emit::emit_record(r), o_pg(r)) == o_pg(r)
            && crate::emit::emit_record(r)[o_pg(r)] == B_LT && scan_close(
            crate::emit::emit_record(r),
            o_pg(r) + 1,
            B_LT,
            B_GT,
            1,
        ) == Option::Some(o_ph(r)) && crate::emit::emit_record(r).subrange(o_pg(r), o_ph(r))
            == r.generics,
        r.generics.len() == 0 ==> skip_ws(crate::emit::emit_record(r), o_pg(r)) == o_pg(r) + 1,
        skip_ws(crate::emit::emit_record(r), o_ph(r)) == o_ph(r) + 1,
        crate::emit::emit_record(r)[o_ph(r) + 1] == B_LBRACE,
{
    let s = crate::emit::emit_record(r);
    let a = crate::emit::emit_lines(r.attrs, Seq::<u8>::empty());
    let vp = vis_part(r.vis);
    let fblock = crate::emit::emit_fields(r.fields);
    let pv = o_pv(r);
    let pk = o_pk(r);
    let pn = o_pn(r);
    let pg = o_pg(r);
    let ph = o_ph(r);
    let pf = o_pf(r);
    let pz = o_pz(r);
    lemma_record_layout(r);
    assert forall|k: int| 0 <= k < 6 implies s[pk + k] == kw_struct()[k] by {
        assert(s.subrange(pk, pn - 1)[k] == s[pk + k]);
    }
    assert forall|k: int| 0 <= k < r.name.len() implies s[pn + k] == r.name[k] by {
        assert(s.subrange(pn, pg)[k] == s[pn + k]);
    }
    // the attributes reparse and reading resumes at the visibility
    let head = if r.vis.len() > 0 {
        r.vis[0]
    } else {
        kw_struct()[0]
    };
    assert(s[pv] == head) by {
        if r.vis.len() > 0 {
            assert(s.subrange(pv, pk)[0] == s[pv]);
            assert(vp[0] == r.vis[0]);
        } else {
            assert(s[pk + 0] == kw_struct()[0]);
        }
    }
    assert(head == 112u8 || head == 115u8) by {
        if r.vis.len() > 0 {
            if r.vis == kw_pub() {
            } else {
                assert(r.vis.subrange(0, 3) == kw_pub());
                assert(r.vis.subrange(0, 3)[0] == r.vis[0]);
            }
        }
    }
    assert(skip_ws(s, pv) == pv) by {
        lemma_skip_ws_run(s, pv, pv);
    }
    lemma_attrs_reparse(s, 0, r.attrs, Seq::<u8>::empty(), 0);
    assert(spec_attrs(s, 0) == Result::<(Seq<Seq<u8>>, int), int>::Ok((r.attrs, pv)));
    // the `struct` keyword
    assert(spec_ident(s, pk) == Option::Some((kw_struct(), pk + 6))) by {
        assert forall|k: int| pk + 1 <= k < pk + 6 implies is_ident_char(#[trigger] s[k]) by {
            assert(s[pk + (k - pk)] == kw_struct()[k - pk]);
        }
        assert(s[pk + 6] == 32u8);
        assert(!is_ident_char(32u8));
        lemma_ident_end_run(s, pk + 1, pk + 6);
        assert(s.subrange(pk, pk + 6) =~= kw_struct());
    }
    // the visibility
    assert(spec_vis(s, pv) == (r.vis, if r.vis.len() > 0 {
        pk - 1
    } else {
        pv
    })) by {
        if r.vis.len() > 0 {
            assert forall|k: int| 0 <= k < r.vis.len() implies s[pv + k] == r.vis[k] by {
                assert(s.subrange(pv, pk)[k] == s[pv + k]);
                assert(vp[k] == r.vis[k]);
            }
            assert(s.subrange(pv, pv + r.vis.len()) =~= r.vis);
            assert(s[pv + r.vis.len()] == 32u8) by {
                assert(s.subrange(pv, pk)[vp.len() - 1] == s[pk - 1]);
                assert(vp[vp.len() - 1] == 32u8);
            }
            assert(s[pv + r.vis.len() + 1] == 115u8) by {
                assert(s[pk + 0] == kw_struct()[0]);
            }
            lemma_vis_reparse(s, pv, r.vis);
        } else {
            assert(kw_struct() != kw_pub()) by {
                assert(kw_struct().len() == 6 && kw_pub().len() == 3);
            }
        }
    }
    let i2: int = if r.vis.len() > 0 {
        pk - 1
    } else {
        pv
    };
    assert(skip_ws(s, i2) == pk) by {
        assert(s[pk + 0] == kw_struct()[0]);
        if r.vis.len() > 0 {
            assert(s[pk - 1] == 32u8);
        }
        lemma_skip_ws_run(s, i2, pk);
    }
    assert(kw_struct() != kw_enum() && kw_struct() != kw_union()) by {
        assert(kw_struct().len() == 6 && kw_enum().len() == 4 && kw_union().len() == 5);
    }
    // the record's name
    assert(skip_ws(s, pk + 6) == pn) by {
        assert(s[pn] == r.name[0]);
        lemma_skip_ws_run(s, pk + 6, pn);
    }
    assert(pg < s.len() && !is_ident_char(s[pg])) by {
        if r.generics.len() > 0 {
            assert(s.subrange(pg, ph)[0] == s[pg]);
            assert(r.generics[0] == B_LT);
        } else {
            assert(s[pg] == 32u8);
        }
    }
    assert(spec_ident(s, pn) == Option::Some((r.name, pg))) by {
        assert forall|k: int| pn + 1 <= k < pg implies is_ident_char(#[trigger] s[k]) by {
            assert(s[pn + (k - pn)] == r.name[k - pn]);
        }
        lemma_ident_end_run(s, pn + 1, pg);
        assert(s.subrange(pn, pg) =~= r.name);
    }
    if r.generics.len() > 0 {
        assert(s[pg] == B_LT) by {
            assert(s.subrange(pg, ph)[0] == s[pg]);
        }
        assert(skip_ws(s, pg) == pg) by {
            lemma_skip_ws_run(s, pg, pg);
        }
        lemma_scan_close_embed(r.generics, s, pg, 1, B_LT, B_GT, 1);
        assert(scan_close(s, pg + 1, B_LT, B_GT, 1) == Option::Some(ph));
    } else {
        assert(skip_ws(s, pg) == pg + 1) by {
            lemma_skip_ws_run(s, pg, pg + 1);
        }
        assert(s[pg + 1] == B_LBRACE && B_LBRACE != B_LT);
    }
    // the opening brace of the field block
    assert(skip_ws(s, ph) == ph + 1) by {
        lemma_skip_ws_run(s, ph, ph + 1);
    }
}

/// Where the visibility hands reading back to the keyword.
pub open spec fn head_i2(r: RecordG) -> int {
    if r.vis.len() > 0 {
        o_pk(r) - 1
    } else {
        o_pv(r)
    }
}

/// Where reading stands when the record tail (the brace block) begins.
pub open spec fn tail_i(r: RecordG) -> int {
    if r.generics.len() > 0 {
        o_ph(r)
    } else {
        o_pg(r)
    }
}

/// The brace-delimited field block of an emitted record reparses to exactly
/// the record.
#[verifier::rlimit(60)]
proof fn lemma_record_block(r: RecordG)
    requires
        wf_record(r),
    ensures
        spec_record_tail(
            crate::emit::emit_record(r),
            r.attrs,
            r.vis,
            r.name,
            o_pn(r),
            r.generics,
            tail_i(r),
        ) == Result::<RecordG, (crate::error::ErrorKind, int)>::Ok(r),
{
    let s = crate::emit::emit_record(r);
    let pn = o_pn(r);
    let pg = o_pg(r);
    let ph = o_ph(r);
    let pf = o_pf(r);
    let pz = o_pz(r);
    lemma_record_layout(r);
    assert(skip_ws(s, tail_i(r)) == ph + 1) by {
        lemma_skip_ws_run(s, tail_i(r), ph + 1);
    }
    lemma_fields_reparse(s, ph + 2, r.fields, pf);
    assert(spec_fields(s, ph + 2) == Result::<(Seq<FieldG>, int), int>::Ok((r.fields, pz + 1)));
    assert(skip_ws(s, pz + 1) == s.len());
    assert(RecordG {
        attrs: r.attrs,
        vis: r.vis,
        name: r.name,
        generics: r.generics,
        fields: r.fields,
    } == r);
}

/// Parsing the emission of a well-formed record returns exactly that record:
/// emission loses nothing and invents nothing.
#[verifier::rlimit(100)]
pub proof fn lemma_parse_emit_record(r: RecordG)
    requires
        wf_record(r),
    ensures
        spec_parse_record(crate::emit::emit_record(r)) == Result::<RecordG, (
            crate::error::ErrorKind,
            int,
        )>::Ok(r),
{
    let s = crate::emit::emit_record(r);
    lemma_record_layout(r);
    lemma_record_head(r);
    lemma_record_block(r);
    assert(kw_struct() != kw_enum() && kw_struct() != kw_union() && kw_struct() != kw_pub()) by {
        assert(kw_struct().len() == 6 && kw_enum().len() == 4 && kw_union().len() == 5
            && kw_pub().len() == 3);
    }
    if r.generics.len() == 0 {
        assert(r.generics =~= Seq::<u8>::empty());
    }
}

/// Skipping whitespace from anywhere inside a whitespace run ends at the same
/// place.
pub proof fn lemma_skip_ws_chain(s: Seq<u8>, i: int, b: int)
    requires
        0 <= i <= b <= s.len(),
        forall|k: int| i <= k < b ==> is_ws(#[trigger] s[k]),
    ensures
        skip_ws(s, i) == skip_ws(s, b),
    decreases b - i,
{
    if i < b {
        lemma_skip_ws_chain(s, i + 1, b);
    }
}


/// A delimiter scan that succeeds succeeds the same way on the span it read.
proof fn lemma_scan_close_extract(s: Seq<u8>, lo: int, i: int, open: u8, close: u8, depth: int)
    requires
        0 <= lo <= i,
        open != close,
        scan_close(s, i, open, close, depth) is Some,
        i <= s.len(),
    ensures
        scan_close(
            s.subrange(lo, scan_close(s, i, open, close, depth)->0),
            i - lo,
            open,
            close,
            depth,
        ) == Option::Some(scan_close(s, i, open, close, depth)->0 - lo),
    decreases s.len() - i,
{
    let e = scan_close(s, i, open, close, depth)->0;
    crate::scan::lemma_scan_close(s, i, open, close, depth);
    let a = s.subrange(lo, e);
    assert(i < e);
    assert(a[i - lo] == s[i]);
    if s[i] == open {
        lemma_scan_close_extract(s, lo, i + 1, open, close, depth + 1);
        assert(s.subrange(lo, scan_close(s, i + 1, open, close, depth + 1)->0) == a);
    } else if s[i] == close {
        if depth > 1 {
            lemma_scan_close_extract(s, lo, i + 1, open, close, depth - 1);
            assert(s.subrange(lo, scan_close(s, i + 1, open, close, depth - 1)->0) == a);
        }
    } else {
        lemma_scan_close_extract(s, lo, i + 1, open, close, depth);
        assert(s.subrange(lo, scan_close(s, i + 1, open, close, depth)->0) == a);
    }
}

/// Everything a line scan passed over is no line feed.
proof fn lemma_line_end_all(s: Seq<u8>, i: int)
    requires
        0 <= i <= s.len(),
    ensures
        forall|k: int| i <= k < line_end(s, i) ==> s[k] != B_LF,
    decreases s.len() - i,
{
    if i < s.len() && s[i] != B_LF {
        lemma_line_end_all(s, i + 1);
    }
}

/// Everything an identifier scan passed over continues an identifier, and the
/// byte it stopped at does not.
proof fn lemma_ident_end_all(s: Seq<u8>, i: int)
    requires
        0 <= i <= s.len(),
    ensures
        forall|k: int| i <= k < ident_end(s, i) ==> is_ident_char(#[trigger] s[k]),
        ident_end(s, i) < s.len() ==> !is_ident_char(s[ident_end(s, i)]),
    decreases s.len() - i,
{
    if i < s.len() && is_ident_char(s[i]) {
        lemma_ident_end_all(s, i + 1);
    }
}

/// Everything an end trim dropped was whitespace, and the byte before the new
/// end is not.
proof fn lemma_trim_end_all(s: Seq<u8>, a: int, e: int)
    requires
        0 <= a <= e <= s.len(),
    ensures
        forall|k: int| trim_end(s, a, e) <= k < e ==> is_ws(#[trigger] s[k]),
        trim_end(s, a, e) > a ==> !is_ws(s[trim_end(s, a, e) - 1]),
        a <= trim_end(s, a, e) <= e,
    decreases e - a,
{
    if a < e && is_ws(s[e - 1]) {
        lemma_trim_end_all(s, a, e - 1);
    }
}

/// A type scan stops only on a separator byte, outside every delimiter pair.
proof fn lemma_ty_end_stop(s: Seq<u8>, i: int, depth: int)
    requires
        0 <= i,
        ty_end(s, i, depth) is Some,
    ensures
        s[ty_end(s, i, depth)->0] == B_COMMA || s[ty_end(s, i, depth)->0] == B_RBRACE,
    decreases s.len() - i,
{
    if 0 <= i < s.len() {
        if depth <= 0 && (s[i] == B_COMMA || s[i] == B_RBRACE) {
        } else if s[i] == B_LPAREN || s[i] == B_LBRACKET || s[i] == B_LBRACE || s[i] == B_LT {
            lemma_ty_end_stop(s, i + 1, depth + 1);
        } else if s[i] == B_RPAREN || s[i] == B_RBRACKET || s[i] == B_RBRACE || s[i] == B_GT {
            if depth > 0 {
                lemma_ty_end_stop(s, i + 1, depth - 1);
            }
        } else {
            lemma_ty_end_stop(s, i + 1, depth);
        }
    }
}

/// A type scan that crosses nothing but whitespace and then stops carried no
/// open delimiters.
proof fn lemma_ty_end_ws_gap(s: Seq<u8>, i: int, e: int, depth: int)
    requires
        0 <= i <= e < s.len(),
        forall|k: int| i <= k < e ==> is_ws(#[trigger] s[k]),
        s[e] == B_COMMA || s[e] == B_RBRACE,
        ty_end(s, i, depth) == Option::Some(e),
    ensures
        depth <= 0,
    decreases e - i,
{
    if i < e {
        assert(is_ws(s[i]));
        lemma_ty_end_ws_gap(s, i + 1, e, depth);
    } else {
        if depth > 0 {
            if s[e] == B_RBRACE {
                crate::parse::lemma_ty_end(s, e + 1, depth - 1);
            } else {
                crate::parse::lemma_ty_end(s, e + 1, depth);
            }
        }
    }
}

/// Dropping the trailing whitespace of a scanned type and closing it with a
/// comma leaves a span the type scan reads to exactly its own length.
proof fn lemma_ty_end_extract(s: Seq<u8>, t0: int, te: int, e: int, i: int, depth: int)
    requires
        0 <= t0 <= i <= te <= e < s.len(),
        ty_end(s, i, depth) == Option::Some(e),
        forall|k: int| te <= k < e ==> is_ws(#[trigger] s[k]),
        s[e] == B_COMMA || s[e] == B_RBRACE,
    ensures
        ty_end(s.subrange(t0, te).push(B_COMMA), i - t0, depth) == Option::Some(te - t0),
    decreases te - i,
{
    let a = s.subrange(t0, te).push(B_COMMA);
    if i < te {
        assert(a[i - t0] == s[i]);
        if depth <= 0 && (s[i] == B_COMMA || s[i] == B_RBRACE) {
            assert(e == i);
        } else {
            lemma_ty_end_extract(s, t0, te, e, i + 1, if s[i] == B_LPAREN || s[i] == B_LBRACKET
                || s[i] == B_LBRACE || s[i] == B_LT {
                depth + 1
            } else if s[i] == B_RPAREN || s[i] == B_RBRACKET || s[i] == B_RBRACE || s[i] == B_GT {
                depth - 1
            } else {
                depth
            });
        }
    } else {
        lemma_ty_end_ws_gap(s, te, e, depth);
        assert(a[te - t0] == B_COMMA);
    }
}

/// Every attribute list the parser accepts is made of well-formed attributes.
proof fn lemma_spec_attrs_wf(s: Seq<u8>, i: int)
    requires
        0 <= i <= s.len(),
    ensures
        spec_attrs(s, i) matches Result::Ok(r) ==> wf_attrs(r.0),
    decreases s.len() - i,
{
    lemma_skip_ws(s, i);
    let j = skip_ws(s, i);
    if j < s.len() && s[j] == B_HASH && j + 1 < s.len() && s[j + 1] == B_LBRACKET {
        if let Option::Some(e) = scan_close(s, j + 2, B_LBRACKET, B_RBRACKET, 1) {
            crate::scan::lemma_scan_close(s, j + 2, B_LBRACKET, B_RBRACKET, 1);
            lemma_spec_attrs_wf(s, e);
            if let Result::Ok((rest, k)) = spec_attrs(s, e) {
                let a = s.subrange(j, e);
                lemma_scan_close_extract(s, j, j + 2, B_LBRACKET, B_RBRACKET, 1);
                assert(wf_attr(a)) by {
                    assert(a[0] == s[j] && a[1] == s[j + 1]);
                    assert(scan_close(a, 2, B_LBRACKET, B_RBRACKET, 1) == Option::Some(
                        a.len() as int,
                    ));
                }
                assert forall|k2: int| 0 <= k2 < (seq![a] + rest).len() implies wf_attr(
                    #[trigger] (seq![a] + rest)[k2],
                ) by {
                    if k2 > 0 {
                        assert((seq![a] + rest)[k2] == rest[k2 - 1]);
                    }
                }
            }
        }
    } else if j < s.len() && s[j] == B_SLASH && j + 1 < s.len() && s[j + 1] == B_SLASH && j + 2
        < s.len() && s[j + 2] == B_SLASH {
        let e = line_end(s, j + 3);
        crate::scan::lemma_line_end(s, j + 3);
        lemma_line_end_all(s, j + 3);
        lemma_spec_attrs_wf(s, e);
        if let Result::Ok((rest, k)) = spec_attrs(s, e) {
            let a = s.subrange(j, e);
            assert(wf_attr(a)) by {
                assert(a[0] == s[j] && a[1] == s[j + 1] && a[2] == s[j + 2]);
                assert(B_SLASH != B_LF);
                assert forall|k2: int| 0 <= k2 < a.len() implies s_at(a, k2) != B_LF by {
                    assert(a[k2] == s[j + k2]);
                    if k2 >= 3 {
                        assert(s[j + k2] != B_LF);
                    }
                }
            }
            assert forall|k2: int| 0 <= k2 < (seq![a] + rest).len() implies wf_attr(
                #[trigger] (seq![a] + rest)[k2],
            ) by {
                if k2 > 0 {
                    assert((seq![a] + rest)[k2] == rest[k2 - 1]);
                }
            }
        }
    }
}

/// Every identifier the parser accepts is an identifier.
proof fn lemma_spec_ident_wf(s: Seq<u8>, i: int)
    requires
        0 <= i <= s.len(),
    ensures
        spec_ident(s, i) matches Option::Some(r) ==> is_ident_seq(r.0) && (r.1 < s.len()
            ==> !is_ident_char(s[r.1])),
{
    if i < s.len() && is_ident_start(s[i]) {
        lemma_ident_end_all(s, i + 1);
        crate::scan::lemma_ident_end(s, i + 1);
        let e = ident_end(s, i + 1);
        let w = s.subrange(i, e);
        assert(w[0] == s[i]);
        assert forall|k: int| 0 <= k < w.len() implies is_ident_char(#[trigger] w[k]) by {
            assert(w[k] == s[i + k]);
            if k > 0 {
                assert(is_ident_char(s[i + k]));
            }
        }
    }
}

/// Every field the parser accepts is well formed.
proof fn lemma_spec_field_wf(s: Seq<u8>, i: int)
    requires
        0 <= i <= s.len(),
    ensures
        spec_field(s, i) matches Result::Ok(r) ==> wf_field(r.0),
{
    lemma_spec_attrs_wf(s, i);
    crate::parse::lemma_spec_attrs(s, i);
    if let Result::Ok((attrs, j)) = spec_attrs(s, i) {
        lemma_spec_ident_wf(s, j);
        crate::parse::lemma_spec_ident(s, j);
        if let Option::Some((name, k0)) = spec_ident(s, j) {
            lemma_skip_ws(s, k0);
            let k = skip_ws(s, k0);
            if k < s.len() && s[k] == B_COLON {
                lemma_skip_ws(s, k + 1);
                let t0 = skip_ws(s, k + 1);
                crate::parse::lemma_ty_end(s, t0, 0);
                if let Option::Some(e) = ty_end(s, t0, 0) {
                    let te = trim_end(s, t0, e);
                    lemma_trim_end_all(s, t0, e);
                    if te > t0 {
                        let ty = s.subrange(t0, te);
                        lemma_ty_end_stop(s, t0, 0);
                        lemma_ty_end_extract(s, t0, te, e, t0, 0);
                        assert(wf_ty(ty)) by {
                            assert(ty[0] == s[t0]);
                            assert(ty[ty.len() - 1] == s[te - 1]);
                            assert(ty.push(B_COMMA) =~= s.subrange(t0, te).push(B_COMMA));
                        }
                    }
                }
            }
        }
    }
}

/// Every field list the parser accepts is made of well-formed fields.
proof fn lemma_spec_fields_wf(s: Seq<u8>, i: int)
    requires
        0 <= i <= s.len(),
    ensures
        spec_fields(s, i) matches Result::Ok(r) ==> forall|k: int|
            0 <= k < r.0.len() ==> wf_field(#[trigger] r.0[k]),
    decreases s.len() - i,
{
    lemma_skip_ws(s, i);
    let j = skip_ws(s, i);
    crate::parse::lemma_spec_field(s, j);
    lemma_spec_field_wf(s, j);
    if !(j < s.len() && s[j] == B_RBRACE) {
        if let Result::Ok((f, e)) = spec_field(s, j) {
            if s[e] == B_COMMA {
                lemma_spec_fields_wf(s, e + 1);
                if let Result::Ok((rest, k)) = spec_fields(s, e + 1) {
                    assert forall|k2: int| 0 <= k2 < (seq![f] + rest).len() implies wf_field(
                        #[trigger] (seq![f] + rest)[k2],
                    ) by {
                        if k2 > 0 {
                            assert((seq![f] + rest)[k2] == rest[k2 - 1]);
                        }
                    }
                }
            }
        }
    }
}

/// Every record the parser accepts is well formed: its parts are exactly the
/// shapes the parser captures, so its emission reparses to it.
pub proof fn lemma_spec_parse_record_wf(s: Seq<u8>)
    ensures
        spec_parse_record(s) matches Result::Ok(r) ==> wf_record(r),
{
    crate::parse::lemma_spec_attrs(s, 0);
    lemma_spec_attrs_wf(s, 0);
    if let Result::Ok((attrs, i1)) = spec_attrs(s, 0) {
        lemma_spec_vis_wf(s, i1);
        crate::parse::lemma_spec_vis(s, i1);
        let (vis, i2) = spec_vis(s, i1);
        lemma_skip_ws(s, i2);
        let j = skip_ws(s, i2);
        crate::parse::lemma_spec_ident(s, j);
        if let Option::Some((kw, k)) = spec_ident(s, j) {
            lemma_skip_ws(s, k);
            let j2 = skip_ws(s, k);
            lemma_spec_ident_wf(s, j2);
            crate::parse::lemma_spec_ident(s, j2);
            if let Option::Some((name, k2)) = spec_ident(s, j2) {
                lemma_skip_ws(s, k2);
                let g = skip_ws(s, k2);
                if g < s.len() && s[g] == B_LT {
                    crate::scan::lemma_scan_close(s, g + 1, B_LT, B_GT, 1);
                    if let Option::Some(c) = scan_close(s, g + 1, B_LT, B_GT, 1) {
                        let gen = s.subrange(g, c);
                        lemma_scan_close_extract(s, g, g + 1, B_LT, B_GT, 1);
                        assert(wf_generics(gen)) by {
                            assert(gen[0] == s[g]);
                            assert(scan_close(gen, 1, B_LT, B_GT, 1) == Option::Some(
                                gen.len() as int,
                            ));
                        }
                        lemma_spec_record_tail_wf(s, attrs, vis, name, j2, gen, c);
                    }
                } else {
                    assert(wf_generics(Seq::<u8>::empty()));
                    lemma_spec_record_tail_wf(s, attrs, vis, name, j2, Seq::<u8>::empty(), k2);
                }
            }
        }
    }
}

/// The tail of an accepted record carries well-formed fields through.
proof fn lemma_spec_record_tail_wf(
    s: Seq<u8>,
    attrs: Seq<Seq<u8>>,
    vis: Seq<u8>,
    name: Seq<u8>,
    name_pos: int,
    generics: Seq<u8>,
    i: int,
)
    requires
        0 <= i <= s.len(),
    ensures
        spec_record_tail(s, attrs, vis, name, name_pos, generics, i) matches Result::Ok(r)
            ==> forall|k: int| 0 <= k < r.fields.len() ==> wf_field(#[trigger] r.fields[k]),
{
    lemma_skip_ws(s, i);
    let b = skip_ws(s, i);
    if b < s.len() && s[b] == B_LBRACE {
        lemma_spec_fields_wf(s, b + 1);
    }
}

/// Every visibility the parser accepts is well formed.
proof fn lemma_spec_vis_wf(s: Seq<u8>, i: int)
    requires
        0 <= i <= s.len(),
    ensures
        wf_vis(spec_vis(s, i).0),
{
    lemma_skip_ws(s, i);
    let j = skip_ws(s, i);
    lemma_spec_ident_wf(s, j);
    crate::parse::lemma_spec_ident(s, j);
    if let Option::Some((w, e)) = spec_ident(s, j) {
        if w == kw_pub() {
            assert(e == j + 3) by {
                assert(w.len() == 3);
            }
            lemma_skip_ws(s, e);
            lemma_skip_ws_all(s, e);
            let k = skip_ws(s, e);
            if k < s.len() && s[k] == B_LPAREN {
                crate::scan::lemma_scan_close(s, k + 1, B_LPAREN, B_RPAREN, 1);
                if let Option::Some(c) = scan_close(s, k + 1, B_LPAREN, B_RPAREN, 1) {
                    let v = s.subrange(j, c);
                    lemma_scan_close_extract(s, j, k + 1, B_LPAREN, B_RPAREN, 1);
                    assert(wf_vis(v)) by {
                        assert(v.len() > 3) by {
                            assert(c > k + 1 && k >= e == j + 3);
                        }
                        assert(v.subrange(0, 3) =~= kw_pub()) by {
                            assert(v[0] == s[j] && v[1] == s[j + 1] && v[2] == s[j + 2]);
                            assert(s.subrange(j, e)[0] == s[j]);
                            assert(s.subrange(j, e)[1] == s[j + 1]);
                            assert(s.subrange(j, e)[2] == s[j + 2]);
                        }
                        assert(!is_ident_char(v[3])) by {
                            assert(v[3] == s[j + 3]);
                            if j + 3 == k {
                                assert(s[k] == B_LPAREN);
                                assert(!is_ident_char(B_LPAREN));
                            } else {
                                assert(is_ws(s[j + 3]));
                                assert(!is_ident_char(s[j + 3])) by {
                                    assert(s[j + 3] == 32 || s[j + 3] == 9 || s[j + 3] == 10
                                        || s[j + 3] == 13);
                                }
                            }
                        }
                        assert(skip_ws(v, 3) == k - j) by {
                            assert forall|k2: int| 3 <= k2 < k - j implies is_ws(
                                #[trigger] v[k2],
                            ) by {
                                assert(v[k2] == s[j + k2]);
                            }
                            assert(v[k - j] == s[k]);
                            assert(!is_ws(B_LPAREN));
                            lemma_skip_ws_run(v, 3, k - j);
                        }
                        assert(v[k - j] == B_LPAREN) by {
                            assert(v[k - j] == s[k]);
                        }
                        assert(scan_close(v, k - j + 1, B_LPAREN, B_RPAREN, 1) == Option::Some(
                            v.len() as int,
                        ));
                    }
                } else {
                    assert(s.subrange(j, e) == w);
                }
            } else {
                assert(s.subrange(j, e) == w);
            }
        }
    }
}

} // verus!
