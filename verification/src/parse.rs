//! The declaration parsers. Each grammar is stated once as a specification
//! over the input bytes, and the runtime parsers return exactly what the
//! specification names: the parsed declaration, or the error kind with the
//! byte offset it is anchored at.
//!
//! Attributes (`#[...]` and `///` doc comments), visibilities, generic
//! parameter lists, field types and import statements are captured verbatim;
//! delimiters are matched by counting, so a bracket inside a literal is not
//! interpreted.

use vstd::prelude::*;
use crate::ast::{FieldG, RecordG, ColumnG, ColumnTypeG, TableG};
use crate::error::ErrorKind;
use crate::scan::{
    is_ws, is_ident_start, skip_ws, ident_end, scan_close, line_end, semi_end, lemma_skip_ws,
    lemma_ident_end, lemma_scan_close, lemma_line_end, lemma_semi_end, is_ws_exec,
    is_ident_start_exec, skip_ws_exec, ident_end_exec, scan_close_exec, line_end_exec,
    semi_end_exec, copy_range, B_HASH, B_LBRACKET, B_RBRACKET, B_LPAREN, B_RPAREN, B_LBRACE,
    B_RBRACE, B_LT, B_GT, B_COMMA, B_COLON, B_SEMI, B_SLASH, B_DASH, B_BANG,
};

verus! {

// The keywords of the two grammars, as byte sequences.
pub open spec fn kw_struct() -> Seq<u8> {
    seq![115u8, 116u8, 114u8, 117u8, 99u8, 116u8]  // "struct"
}

pub open spec fn kw_enum() -> Seq<u8> {
    seq![101u8, 110u8, 117u8, 109u8]  // "enum"
}

pub open spec fn kw_union() -> Seq<u8> {
    seq![117u8, 110u8, 105u8, 111u8, 110u8]  // "union"
}

pub open spec fn kw_pub() -> Seq<u8> {
    seq![112u8, 117u8, 98u8]  // "pub"
}

pub open spec fn kw_use() -> Seq<u8> {
    seq![117u8, 115u8, 101u8]  // "use"
}

pub open spec fn kw_table() -> Seq<u8> {
    seq![116u8, 97u8, 98u8, 108u8, 101u8]  // "table"
}

pub fn is_kw_struct(a: &Vec<u8>) -> (r: bool)
    ensures
        r == (a@ == kw_struct()),
{
    let r = a.len() == 6 && a[0] == 115 && a[1] == 116 && a[2] == 114 && a[3] == 117 && a[4] == 99
        && a[5] == 116;
    proof {
        if r {
            assert(a@ =~= kw_struct());
        }
    }
    r
}

pub fn is_kw_enum(a: &Vec<u8>) -> (r: bool)
    ensures
        r == (a@ == kw_enum()),
{
    let r = a.len() == 4 && a[0] == 101 && a[1] == 110 && a[2] == 117 && a[3] == 109;
    proof {
        if r {
            assert(a@ =~= kw_enum());
        }
    }
    r
}

pub fn is_kw_union(a: &Vec<u8>) -> (r: bool)
    ensures
        r == (a@ == kw_union()),
{
    let r = a.len() == 5 && a[0] == 117 && a[1] == 110 && a[2] == 105 && a[3] == 111 && a[4]
        == 110;
    proof {
        if r {
            assert(a@ =~= kw_union());
        }
    }
    r
}

pub fn is_kw_pub(a: &Vec<u8>) -> (r: bool)
    ensures
        r == (a@ == kw_pub()),
{
    let r = a.len() == 3 && a[0] == 112 && a[1] == 117 && a[2] == 98;
    proof {
        if r {
            assert(a@ =~= kw_pub());
        }
    }
    r
}

pub fn is_kw_use(a: &Vec<u8>) -> (r: bool)
    ensures
        r == (a@ == kw_use()),
{
    let r = a.len() == 3 && a[0] == 117 && a[1] == 115 && a[2] == 101;
    proof {
        if r {
            assert(a@ =~= kw_use());
        }
    }
    r
}

pub fn is_kw_table(a: &Vec<u8>) -> (r: bool)
    ensures
        r == (a@ == kw_table()),
{
    let r = a.len() == 5 && a[0] == 116 && a[1] == 97 && a[2] == 98 && a[3] == 108 && a[4] == 101;
    proof {
        if r {
            assert(a@ =~= kw_table());
        }
    }
    r
}

/// An identifier starting exactly at `i`: its text and the position after it.
pub open spec fn spec_ident(s: Seq<u8>, i: int) -> Option<(Seq<u8>, int)> {
    if 0 <= i < s.len() && is_ident_start(s[i]) {
        let e = ident_end(s, i + 1);
        Option::Some((s.subrange(i, e), e))
    } else {
        Option::None
    }
}

pub proof fn lemma_spec_ident(s: Seq<u8>, i: int)
    requires
        0 <= i <= s.len(),
    ensures
        spec_ident(s, i) matches Option::Some(r) ==> i < r.1 <= s.len(),
{
    if 0 <= i < s.len() && is_ident_start(s[i]) {
        lemma_ident_end(s, i + 1);
    }
}

pub fn ident_exec(s: &Vec<u8>, i: usize) -> (r: Option<(Vec<u8>, usize)>)
    requires
        i <= s@.len(),
    ensures
        match r {
            Option::Some((w, e)) => spec_ident(s@, i as int) == Option::Some((w@, e as int)) && i
                < e <= s@.len(),
            Option::None => spec_ident(s@, i as int) is None,
        },
{
    if i < s.len() && is_ident_start_exec(s[i]) {
        let e = ident_end_exec(s, i + 1);
        Option::Some((copy_range(s, i, e), e))
    } else {
        Option::None
    }
}

/// The outer attributes starting at `i` (after any whitespace): their verbatim
/// texts and the position after them. `Err(p)` when an attribute opened at `p`
/// never closes.
pub open spec fn spec_attrs(s: Seq<u8>, i: int) -> Result<(Seq<Seq<u8>>, int), int>
    decreases s.len() - i,
        when 0 <= i <= s.len()
        via spec_attrs_dec
{
    let j = skip_ws(s, i);
    if j + 1 < s.len() && s[j] == B_HASH && s[j + 1] == B_LBRACKET {
        match scan_close(s, j + 2, B_LBRACKET, B_RBRACKET, 1) {
            Option::Some(e) => match spec_attrs(s, e) {
                Result::Ok((rest, k)) => Result::Ok((seq![s.subrange(j, e)] + rest, k)),
                Result::Err(p) => Result::Err(p),
            },
            Option::None => Result::Err(j),
        }
    } else if j + 2 < s.len() && s[j] == B_SLASH && s[j + 1] == B_SLASH && s[j + 2] == B_SLASH {
        let e = line_end(s, j + 3);
        match spec_attrs(s, e) {
            Result::Ok((rest, k)) => Result::Ok((seq![s.subrange(j, e)] + rest, k)),
            Result::Err(p) => Result::Err(p),
        }
    } else {
        Result::Ok((Seq::empty(), j))
    }
}

#[via_fn]
proof fn spec_attrs_dec(s: Seq<u8>, i: int) {
    lemma_skip_ws(s, i);
    let j = skip_ws(s, i);
    lemma_scan_close(s, j + 2, B_LBRACKET, B_RBRACKET, 1);
    if j + 2 < s.len() {
        lemma_line_end(s, j + 3);
    }
}

pub proof fn lemma_spec_attrs(s: Seq<u8>, i: int)
    requires
        0 <= i <= s.len(),
    ensures
        spec_attrs(s, i) matches Result::Ok(r) ==> i <= r.1 <= s.len(),
        spec_attrs(s, i) matches Result::Err(p) ==> 0 <= p <= s.len(),
    decreases s.len() - i,
{
    lemma_skip_ws(s, i);
    let j = skip_ws(s, i);
    if j + 1 < s.len() && s[j] == B_HASH && s[j + 1] == B_LBRACKET {
        lemma_scan_close(s, j + 2, B_LBRACKET, B_RBRACKET, 1);
        if let Option::Some(e) = scan_close(s, j + 2, B_LBRACKET, B_RBRACKET, 1) {
            lemma_spec_attrs(s, e);
        }
    } else if j + 2 < s.len() && s[j] == B_SLASH && s[j + 1] == B_SLASH && s[j + 2] == B_SLASH {
        lemma_line_end(s, j + 3);
        lemma_spec_attrs(s, line_end(s, j + 3));
    }
}

pub fn attrs_exec(s: &Vec<u8>, i: usize) -> (r: Result<(Vec<Vec<u8>>, usize), usize>)
    requires
        i <= s@.len(),
    ensures
        match r {
            Result::Ok((v, e)) => spec_attrs(s@, i as int) == Result::<(Seq<Seq<u8>>, int), int>::Ok(
                (v.deep_view(), e as int),
            ) && i <= e <= s@.len(),
            Result::Err(p) => spec_attrs(s@, i as int) == Result::<(Seq<Seq<u8>>, int), int>::Err(
                p as int,
            ),
        },
    decreases s@.len() - i,
{
    let j = skip_ws_exec(s, i);
    if j < s.len() && s[j] == B_HASH && j + 1 < s.len() && s[j + 1] == B_LBRACKET {
        match scan_close_exec(s, j + 2, B_LBRACKET, B_RBRACKET, 1) {
            Option::Some(e) => match attrs_exec(s, e) {
                Result::Ok((rest, k)) => {
                    let a = copy_range(s, j, e);
                    let ghost rest_dv = rest.deep_view();
                    let mut v = rest;
                    v.insert(0, a);
                    proof {
                        assert(v.deep_view() =~~= seq![s@.subrange(j as int, e as int)] + rest_dv);
                    }
                    Result::Ok((v, k))
                },
                Result::Err(p) => Result::Err(p),
            },
            Option::None => Result::Err(j),
        }
    } else if j < s.len() && s[j] == B_SLASH && j + 1 < s.len() && s[j + 1] == B_SLASH && j + 2
        < s.len() && s[j + 2] == B_SLASH {
        let e = line_end_exec(s, j + 3);
        match attrs_exec(s, e) {
            Result::Ok((rest, k)) => {
                let a = copy_range(s, j, e);
                let ghost rest_dv = rest.deep_view();
                let mut v = rest;
                v.insert(0, a);
                proof {
                    assert(v.deep_view() =~~= seq![s@.subrange(j as int, e as int)] + rest_dv);
                }
                Result::Ok((v, k))
            },
            Result::Err(p) => Result::Err(p),
        }
    } else {
        let ghost empty: Seq<Seq<u8>> = Seq::empty();
        let v: Vec<Vec<u8>> = Vec::new();
        proof {
            assert(v.deep_view() =~~= empty);
        }
        Result::Ok((v, j))
    }
}

/// The visibility modifier starting at `i` (after any whitespace): its
/// verbatim text (empty when there is none) and the position after it.
pub open spec fn spec_vis(s: Seq<u8>, i: int) -> (Seq<u8>, int) {
    let j = skip_ws(s, i);
    match spec_ident(s, j) {
        Option::Some((w, e)) => if w == kw_pub() {
            let k = skip_ws(s, e);
            if k < s.len() && s[k] == B_LPAREN {
                match scan_close(s, k + 1, B_LPAREN, B_RPAREN, 1) {
                    Option::Some(c) => (s.subrange(j, c), c),
                    Option::None => (s.subrange(j, e), e),
                }
            } else {
                (s.subrange(j, e), e)
            }
        } else {
            (Seq::empty(), j)
        },
        Option::None => (Seq::empty(), j),
    }
}

pub proof fn lemma_spec_vis(s: Seq<u8>, i: int)
    requires
        0 <= i <= s.len(),
    ensures
        i <= spec_vis(s, i).1 <= s.len(),
{
    lemma_skip_ws(s, i);
    let j = skip_ws(s, i);
    lemma_spec_ident(s, j);
    if let Option::Some((w, e)) = spec_ident(s, j) {
        lemma_skip_ws(s, e);
        let k = skip_ws(s, e);
        lemma_scan_close(s, k + 1, B_LPAREN, B_RPAREN, 1);
    }
}

pub fn vis_exec(s: &Vec<u8>, i: usize) -> (r: (Vec<u8>, usize))
    requires
        i <= s@.len(),
    ensures
        spec_vis(s@, i as int) == (r.0@, r.1 as int),
        i <= r.1 <= s@.len(),
{
    let j = skip_ws_exec(s, i);
    match ident_exec(s, j) {
        Option::Some((w, e)) => {
            if is_kw_pub(&w) {
                let k = skip_ws_exec(s, e);
                if k < s.len() && s[k] == B_LPAREN {
                    match scan_close_exec(s, k + 1, B_LPAREN, B_RPAREN, 1) {
                        Option::Some(c) => (copy_range(s, j, c), c),
                        Option::None => (copy_range(s, j, e), e),
                    }
                } else {
                    (copy_range(s, j, e), e)
                }
            } else {
                (Vec::new(), j)
            }
        },
        Option::None => (Vec::new(), j),
    }
}

/// Where the type expression that starts at `i` ends: the first `,` or `}`
/// outside every delimiter pair. `None` when the input ends first or a closer
/// appears that nothing opened.
pub open spec fn ty_end(s: Seq<u8>, i: int, depth: int) -> Option<int>
    decreases s.len() - i,
{
    if !(0 <= i < s.len()) {
        Option::None
    } else if depth <= 0 && (s[i] == B_COMMA || s[i] == B_RBRACE) {
        Option::Some(i)
    } else if s[i] == B_LPAREN || s[i] == B_LBRACKET || s[i] == B_LBRACE || s[i] == B_LT {
        ty_end(s, i + 1, depth + 1)
    } else if s[i] == B_RPAREN || s[i] == B_RBRACKET || s[i] == B_RBRACE || s[i] == B_GT {
        if depth <= 0 {
            Option::None
        } else {
            ty_end(s, i + 1, depth - 1)
        }
    } else {
        ty_end(s, i + 1, depth)
    }
}

pub proof fn lemma_ty_end(s: Seq<u8>, i: int, depth: int)
    requires
        0 <= i,
    ensures
        ty_end(s, i, depth) matches Option::Some(e) ==> i <= e < s.len(),
    decreases s.len() - i,
{
    if 0 <= i < s.len() {
        lemma_ty_end(s, i + 1, depth + 1);
        lemma_ty_end(s, i + 1, depth - 1);
        lemma_ty_end(s, i + 1, depth);
    }
}

pub fn ty_end_exec(s: &Vec<u8>, i: usize, depth: usize) -> (r: Option<usize>)
    ensures
        match r {
            Option::Some(e) => ty_end(s@, i as int, depth as int) == Option::Some(e as int) && i
                <= e < s@.len(),
            Option::None => ty_end(s@, i as int, depth as int) is None,
        },
    decreases s@.len() - i,
{
    if i >= s.len() {
        Option::None
    } else if depth == 0 && (s[i] == B_COMMA || s[i] == B_RBRACE) {
        Option::Some(i)
    } else if s[i] == B_LPAREN || s[i] == B_LBRACKET || s[i] == B_LBRACE || s[i] == B_LT {
        if depth == usize::MAX {
            proof {
                lemma_ty_end_depth(s@, i + 1, depth as int + 1);
            }
            Option::None
        } else {
            ty_end_exec(s, i + 1, depth + 1)
        }
    } else if s[i] == B_RPAREN || s[i] == B_RBRACKET || s[i] == B_RBRACE || s[i] == B_GT {
        if depth == 0 {
            Option::None
        } else {
            ty_end_exec(s, i + 1, depth - 1)
        }
    } else {
        ty_end_exec(s, i + 1, depth)
    }
}

/// A type expression nested deeper than the bytes that remain can never end.
proof fn lemma_ty_end_depth(s: Seq<u8>, i: int, depth: int)
    requires
        0 <= i,
        depth > s.len() - i,
    ensures
        ty_end(s, i, depth) is None,
    decreases s.len() - i,
{
    if 0 <= i < s.len() {
        lemma_ty_end_depth(s, i + 1, depth + 1);
        lemma_ty_end_depth(s, i + 1, depth - 1);
        lemma_ty_end_depth(s, i + 1, depth);
    }
}

/// The end of the text from `a` to `e` once trailing whitespace is dropped.
pub open spec fn trim_end(s: Seq<u8>, a: int, e: int) -> int
    decreases e - a,
{
    if a < e && e <= s.len() && is_ws(s[e - 1]) {
        trim_end(s, a, e - 1)
    } else {
        e
    }
}

pub proof fn lemma_trim_end(s: Seq<u8>, a: int, e: int)
    requires
        0 <= a <= e <= s.len(),
    ensures
        a <= trim_end(s, a, e) <= e,
    decreases e - a,
{
    if a < e && is_ws(s[e - 1]) {
        lemma_trim_end(s, a, e - 1);
    }
}

pub fn trim_end_exec(s: &Vec<u8>, a: usize, e: usize) -> (r: usize)
    requires
        a <= e <= s@.len(),
    ensures
        r as int == trim_end(s@, a as int, e as int),
        a <= r <= e,
    decreases e - a,
{
    if a < e && is_ws_exec(s[e - 1]) {
        trim_end_exec(s, a, e - 1)
    } else {
        e
    }
}

/// One record field starting at `i`: attributes, name, `:`, and a verbatim
/// type running to the next top-level `,` or `}` (which stays unread).
pub open spec fn spec_field(s: Seq<u8>, i: int) -> Result<(FieldG, int), int> {
    match spec_attrs(s, i) {
        Result::Err(p) => Result::Err(p),
        Result::Ok((attrs, j)) => match spec_ident(s, j) {
            Option::None => Result::Err(j),
            Option::Some((name, k0)) => {
                let k = skip_ws(s, k0);
                if k < s.len() && s[k] == B_COLON {
                    let t0 = skip_ws(s, k + 1);
                    match ty_end(s, t0, 0) {
                        Option::Some(e) => {
                            let te = trim_end(s, t0, e);
                            if te > t0 {
                                Result::Ok(
                                    (FieldG { attrs, name, ty: s.subrange(t0, te) }, e),
                                )
                            } else {
                                Result::Err(t0)
                            }
                        },
                        Option::None => Result::Err(t0),
                    }
                } else {
                    Result::Err(k)
                }
            },
        },
    }
}

pub proof fn lemma_spec_field(s: Seq<u8>, i: int)
    requires
        0 <= i <= s.len(),
    ensures
        spec_field(s, i) matches Result::Ok(r) ==> i < r.1 < s.len(),
{
    lemma_spec_attrs(s, i);
    if let Result::Ok((attrs, j)) = spec_attrs(s, i) {
        lemma_spec_ident(s, j);
        if let Option::Some((name, k0)) = spec_ident(s, j) {
            lemma_skip_ws(s, k0);
            let k = skip_ws(s, k0);
            if k < s.len() && s[k] == B_COLON {
                lemma_skip_ws(s, k + 1);
                let t0 = skip_ws(s, k + 1);
                lemma_ty_end(s, t0, 0);
            }
        }
    }
}

pub fn field_exec(s: &Vec<u8>, i: usize) -> (r: Result<(crate::ast::Field, usize), usize>)
    requires
        i <= s@.len(),
    ensures
        match r {
            Result::Ok((f, e)) => spec_field(s@, i as int) == Result::<(FieldG, int), int>::Ok(
                (f@, e as int),
            ) && i < e < s@.len(),
            Result::Err(p) => spec_field(s@, i as int) == Result::<(FieldG, int), int>::Err(
                p as int,
            ),
        },
{
    proof {
        lemma_spec_field(s@, i as int);
    }
    match attrs_exec(s, i) {
        Result::Err(p) => Result::Err(p),
        Result::Ok((attrs, j)) => match ident_exec(s, j) {
            Option::None => Result::Err(j),
            Option::Some((name, k0)) => {
                let k = skip_ws_exec(s, k0);
                if k < s.len() && s[k] == B_COLON {
                    let t0 = skip_ws_exec(s, k + 1);
                    match ty_end_exec(s, t0, 0) {
                        Option::Some(e) => {
                            let te = trim_end_exec(s, t0, e);
                            if te > t0 {
                                let ty = copy_range(s, t0, te);
                                Result::Ok((crate::ast::Field { attrs, name, ty }, e))
                            } else {
                                Result::Err(t0)
                            }
                        },
                        Option::None => Result::Err(t0),
                    }
                } else {
                    Result::Err(k)
                }
            },
        },
    }
}

/// The comma-separated field list starting at `i`, read up to and past the
/// closing `}` of the record body.
pub open spec fn spec_fields(s: Seq<u8>, i: int) -> Result<(Seq<FieldG>, int), int>
    decreases s.len() - i,
        when 0 <= i <= s.len()
        via spec_fields_dec
{
    let j = skip_ws(s, i);
    if j < s.len() && s[j] == B_RBRACE {
        Result::Ok((Seq::empty(), j + 1))
    } else {
        match spec_field(s, j) {
            Result::Err(p) => Result::Err(p),
            Result::Ok((f, e)) => if s[e] == B_COMMA {
                match spec_fields(s, e + 1) {
                    Result::Ok((rest, k)) => Result::Ok((seq![f] + rest, k)),
                    Result::Err(p) => Result::Err(p),
                }
            } else if s[e] == B_RBRACE {
                Result::Ok((seq![f], e + 1))
            } else {
                Result::Err(e)
            },
        }
    }
}

#[via_fn]
proof fn spec_fields_dec(s: Seq<u8>, i: int) {
    lemma_skip_ws(s, i);
    lemma_spec_field(s, skip_ws(s, i));
}

pub proof fn lemma_spec_fields(s: Seq<u8>, i: int)
    requires
        0 <= i <= s.len(),
    ensures
        spec_fields(s, i) matches Result::Ok(r) ==> i <= r.1 <= s.len(),
    decreases s.len() - i,
{
    lemma_skip_ws(s, i);
    let j = skip_ws(s, i);
    lemma_spec_field(s, j);
    if !(j < s.len() && s[j] == B_RBRACE) {
        if let Result::Ok((f, e)) = spec_field(s, j) {
            if s[e] == B_COMMA {
                lemma_spec_fields(s, e + 1);
            }
        }
    }
}

pub fn fields_exec(s: &Vec<u8>, i: usize) -> (r: Result<(Vec<crate::ast::Field>, usize), usize>)
    requires
        i <= s@.len(),
    ensures
        match r {
            Result::Ok((v, e)) => spec_fields(s@, i as int) == Result::<
                (Seq<FieldG>, int),
                int,
            >::Ok((v.deep_view(), e as int)) && i <= e <= s@.len(),
            Result::Err(p) => spec_fields(s@, i as int) == Result::<(Seq<FieldG>, int), int>::Err(
                p as int,
            ),
        },
    decreases s@.len() - i,
{
    let j = skip_ws_exec(s, i);
    if j < s.len() && s[j] == B_RBRACE {
        let v: Vec<crate::ast::Field> = Vec::new();
        proof {
            assert(v.deep_view() =~= Seq::<FieldG>::empty());
        }
        Result::Ok((v, j + 1))
    } else {
        match field_exec(s, j) {
            Result::Err(p) => Result::Err(p),
            Result::Ok((f, e)) => {
                if s[e] == B_COMMA {
                    match fields_exec(s, e + 1) {
                        Result::Ok((rest, k)) => {
                            let ghost rest_dv = rest.deep_view();
                            let ghost fg = f@;
                            let mut v = rest;
                            v.insert(0, f);
                            proof {
                                assert(v.deep_view() =~= seq![fg] + rest_dv);
                            }
                            Result::Ok((v, k))
                        },
                        Result::Err(p) => Result::Err(p),
                    }
                } else if s[e] == B_RBRACE {
                    let ghost fg = f@;
                    let mut v: Vec<crate::ast::Field> = Vec::new();
                    v.push(f);
                    proof {
                        assert(v.deep_view() =~= seq![fg]);
                    }
                    Result::Ok((v, e + 1))
                } else {
                    Result::Err(e)
                }
            },
        }
    }
}

/// The rest of a record declaration once attributes, visibility, name and
/// generics are read: the brace-delimited field list, or the shape error the
/// head position `name_pos` anchors.
pub open spec fn spec_record_tail(
    s: Seq<u8>,
    attrs: Seq<Seq<u8>>,
    vis: Seq<u8>,
    name: Seq<u8>,
    name_pos: int,
    generics: Seq<u8>,
    i: int,
) -> Result<RecordG, (ErrorKind, int)> {
    let b = skip_ws(s, i);
    if b < s.len() && s[b] == B_LBRACE {
        match spec_fields(s, b + 1) {
            Result::Ok((fields, e)) => {
                let t = skip_ws(s, e);
                if t == s.len() {
                    Result::Ok(RecordG { attrs, vis, name, generics, fields })
                } else {
                    Result::Err((ErrorKind::Malformed, t))
                }
            },
            Result::Err(p) => Result::Err((ErrorKind::Malformed, p)),
        }
    } else if b < s.len() && s[b] == B_LPAREN {
        Result::Err((ErrorKind::TupleStruct, b))
    } else if b < s.len() && s[b] == B_SEMI {
        Result::Err((ErrorKind::UnitStruct, name_pos))
    } else {
        Result::Err((ErrorKind::Malformed, b))
    }
}

/// A record declaration: outer attributes, a visibility, `struct`, the
/// record's name, optional generics, and a brace-delimited named-field list.
/// `enum`, `union`, tuple-shaped and unit-shaped inputs are refused with
/// their own error kinds.
pub open spec fn spec_parse_record(s: Seq<u8>) -> Result<RecordG, (ErrorKind, int)> {
    match spec_attrs(s, 0) {
        Result::Err(p) => Result::Err((ErrorKind::Malformed, p)),
        Result::Ok((attrs, i1)) => {
            let (vis, i2) = spec_vis(s, i1);
            let j = skip_ws(s, i2);
            match spec_ident(s, j) {
                Option::None => Result::Err((ErrorKind::Malformed, j)),
                Option::Some((kw, k)) => if kw == kw_enum() {
                    Result::Err((ErrorKind::EnumDecl, j))
                } else if kw == kw_union() {
                    Result::Err((ErrorKind::UnionDecl, j))
                } else if kw == kw_struct() {
                    let j2 = skip_ws(s, k);
                    match spec_ident(s, j2) {
                        Option::None => Result::Err((ErrorKind::Malformed, j2)),
                        Option::Some((name, k2)) => {
                            let g = skip_ws(s, k2);
                            if g < s.len() && s[g] == B_LT {
                                match scan_close(s, g + 1, B_LT, B_GT, 1) {
                                    Option::Some(c) => spec_record_tail(
                                        s,
                                        attrs,
                                        vis,
                                        name,
                                        j2,
                                        s.subrange(g, c),
                                        c,
                                    ),
                                    Option::None => Result::Err((ErrorKind::Malformed, g)),
                                }
                            } else {
                                spec_record_tail(s, attrs, vis, name, j2, Seq::empty(), k2)
                            }
                        },
                    }
                } else {
                    Result::Err((ErrorKind::Malformed, j))
                },
            }
        },
    }
}

/// Parse a whole record declaration, returning exactly what
/// `spec_parse_record` names for this input.
pub fn parse_record(s: &Vec<u8>) -> (r: Result<crate::ast::Record, crate::error::SortError>)
    ensures
        match r {
            Result::Ok(rec) => spec_parse_record(s@) == Result::<RecordG, (ErrorKind, int)>::Ok(
                rec@,
            ),
            Result::Err(err) => spec_parse_record(s@) == Result::<RecordG, (ErrorKind, int)>::Err(
                (err.kind, err.pos as int),
            ),
        },
{
    proof {
        lemma_spec_attrs(s@, 0);
    }
    match attrs_exec(s, 0) {
        Result::Err(p) => Result::Err(crate::error::SortError { kind: ErrorKind::Malformed, pos: p }),
        Result::Ok((attrs, i1)) => {
            let (vis, i2) = vis_exec(s, i1);
            let j = skip_ws_exec(s, i2);
            match ident_exec(s, j) {
                Option::None => Result::Err(
                    crate::error::SortError { kind: ErrorKind::Malformed, pos: j },
                ),
                Option::Some((kw, k)) => {
                    if is_kw_enum(&kw) {
                        Result::Err(crate::error::SortError { kind: ErrorKind::EnumDecl, pos: j })
                    } else if is_kw_union(&kw) {
                        Result::Err(crate::error::SortError { kind: ErrorKind::UnionDecl, pos: j })
                    } else if is_kw_struct(&kw) {
                        let j2 = skip_ws_exec(s, k);
                        match ident_exec(s, j2) {
                            Option::None => Result::Err(
                                crate::error::SortError { kind: ErrorKind::Malformed, pos: j2 },
                            ),
                            Option::Some((name, k2)) => {
                                let g = skip_ws_exec(s, k2);
                                if g < s.len() && s[g] == B_LT {
                                    match scan_close_exec(s, g + 1, B_LT, B_GT, 1) {
                                        Option::Some(c) => {
                                            let generics = copy_range(s, g, c);
                                            record_tail_exec(s, attrs, vis, name, j2, generics, c)
                                        },
                                        Option::None => Result::Err(
                                            crate::error::SortError {
                                                kind: ErrorKind::Malformed,
                                                pos: g,
                                            },
                                        ),
                                    }
                                } else {
                                    record_tail_exec(s, attrs, vis, name, j2, Vec::new(), k2)
                                }
                            },
                        }
                    } else {
                        Result::Err(crate::error::SortError { kind: ErrorKind::Malformed, pos: j })
                    }
                },
            }
        },
    }
}

fn record_tail_exec(
    s: &Vec<u8>,
    attrs: Vec<Vec<u8>>,
    vis: Vec<u8>,
    name: Vec<u8>,
    name_pos: usize,
    generics: Vec<u8>,
    i: usize,
) -> (r: Result<crate::ast::Record, crate::error::SortError>)
    requires
        i <= s@.len(),
    ensures
        match r {
            Result::Ok(rec) => spec_record_tail(
                s@,
                attrs.deep_view(),
                vis@,
                name@,
                name_pos as int,
                generics@,
                i as int,
            ) == Result::<RecordG, (ErrorKind, int)>::Ok(rec@),
            Result::Err(err) => spec_record_tail(
                s@,
                attrs.deep_view(),
                vis@,
                name@,
                name_pos as int,
                generics@,
                i as int,
            ) == Result::<RecordG, (ErrorKind, int)>::Err((err.kind, err.pos as int)),
        },
{
    let b = skip_ws_exec(s, i);
    if b < s.len() && s[b] == B_LBRACE {
        match fields_exec(s, b + 1) {
            Result::Ok((fields, e)) => {
                let t = skip_ws_exec(s, e);
                if t == s.len() {
                    Result::Ok(crate::ast::Record { attrs, vis, name, generics, fields })
                } else {
                    Result::Err(crate::error::SortError { kind: ErrorKind::Malformed, pos: t })
                }
            },
            Result::Err(p) => Result::Err(
                crate::error::SortError { kind: ErrorKind::Malformed, pos: p },
            ),
        }
    } else if b < s.len() && s[b] == B_LPAREN {
        Result::Err(crate::error::SortError { kind: ErrorKind::TupleStruct, pos: b })
    } else if b < s.len() && s[b] == B_SEMI {
        Result::Err(crate::error::SortError { kind: ErrorKind::UnitStruct, pos: name_pos })
    } else {
        Result::Err(crate::error::SortError { kind: ErrorKind::Malformed, pos: b })
    }
}

/// The leading import statements of a table body: each captured verbatim from
/// its `use` to its `;`. `Err(p)` when one opened at `p` has no `;`.
pub open spec fn spec_use_list(s: Seq<u8>, i: int) -> Result<(Seq<Seq<u8>>, int), int>
    decreases s.len() - i,
        when 0 <= i <= s.len()
        via spec_use_list_dec
{
    let j = skip_ws(s, i);
    match spec_ident(s, j) {
        Option::Some((w, e)) => if w == kw_use() {
            match semi_end(s, e) {
                Option::Some(c) => match spec_use_list(s, c) {
                    Result::Ok((rest, k)) => Result::Ok((seq![s.subrange(j, c)] + rest, k)),
                    Result::Err(p) => Result::Err(p),
                },
                Option::None => Result::Err(j),
            }
        } else {
            Result::Ok((Seq::empty(), j))
        },
        Option::None => Result::Ok((Seq::empty(), j)),
    }
}

#[via_fn]
proof fn spec_use_list_dec(s: Seq<u8>, i: int) {
    lemma_skip_ws(s, i);
    let j = skip_ws(s, i);
    lemma_spec_ident(s, j);
    if let Option::Some((w, e)) = spec_ident(s, j) {
        lemma_semi_end(s, e);
    }
}

pub proof fn lemma_spec_use_list(s: Seq<u8>, i: int)
    requires
        0 <= i <= s.len(),
    ensures
        spec_use_list(s, i) matches Result::Ok(r) ==> i <= r.1 <= s.len(),
        spec_use_list(s, i) matches Result::Err(p) ==> 0 <= p <= s.len(),
    decreases s.len() - i,
{
    lemma_skip_ws(s, i);
    let j = skip_ws(s, i);
    lemma_spec_ident(s, j);
    if let Option::Some((w, e)) = spec_ident(s, j) {
        lemma_semi_end(s, e);
        if w == kw_use() {
            if let Option::Some(c) = semi_end(s, e) {
                lemma_spec_use_list(s, c);
            }
        }
    }
}

pub fn use_list_exec(s: &Vec<u8>, i: usize) -> (r: Result<(Vec<Vec<u8>>, usize), usize>)
    requires
        i <= s@.len(),
    ensures
        match r {
            Result::Ok((v, e)) => spec_use_list(s@, i as int) == Result::<
                (Seq<Seq<u8>>, int),
                int,
            >::Ok((v.deep_view(), e as int)) && i <= e <= s@.len(),
            Result::Err(p) => spec_use_list(s@, i as int) == Result::<
                (Seq<Seq<u8>>, int),
                int,
            >::Err(p as int),
        },
    decreases s@.len() - i,
{
    let j = skip_ws_exec(s, i);
    match ident_exec(s, j) {
        Option::Some((w, e)) => {
            if is_kw_use(&w) {
                match semi_end_exec(s, e) {
                    Option::Some(c) => match use_list_exec(s, c) {
                        Result::Ok((rest, k)) => {
                            let u = copy_range(s, j, c);
                            let ghost rest_dv = rest.deep_view();
                            let mut v = rest;
                            v.insert(0, u);
                            proof {
                                assert(v.deep_view() =~~= seq![s@.subrange(j as int, c as int)]
                                    + rest_dv);
                            }
                            Result::Ok((v, k))
                        },
                        Result::Err(p) => Result::Err(p),
                    },
                    Option::None => Result::Err(j),
                }
            } else {
                let v: Vec<Vec<u8>> = Vec::new();
                proof {
                    assert(v.deep_view() =~~= Seq::<Seq<u8>>::empty());
                }
                Result::Ok((v, j))
            }
        },
        Option::None => {
            let v: Vec<Vec<u8>> = Vec::new();
            proof {
                assert(v.deep_view() =~~= Seq::<Seq<u8>>::empty());
            }
            Result::Ok((v, j))
        },
    }
}

/// The primary-key identifiers inside their parentheses, read up to and past
/// the closing `)`. A trailing comma and an empty list are allowed.
pub open spec fn spec_pk_ids(s: Seq<u8>, i: int) -> Result<(Seq<Seq<u8>>, int), int>
    decreases s.len() - i,
        when 0 <= i <= s.len()
        via spec_pk_ids_dec
{
    let j = skip_ws(s, i);
    if j < s.len() && s[j] == B_RPAREN {
        Result::Ok((Seq::empty(), j + 1))
    } else {
        match spec_ident(s, j) {
            Option::None => Result::Err(j),
            Option::Some((id, e)) => {
                let k = skip_ws(s, e);
                if k < s.len() && s[k] == B_COMMA {
                    match spec_pk_ids(s, k + 1) {
                        Result::Ok((rest, m)) => Result::Ok((seq![id] + rest, m)),
                        Result::Err(p) => Result::Err(p),
                    }
                } else if k < s.len() && s[k] == B_RPAREN {
                    Result::Ok((seq![id], k + 1))
                } else {
                    Result::Err(k)
                }
            },
        }
    }
}

#[via_fn]
proof fn spec_pk_ids_dec(s: Seq<u8>, i: int) {
    lemma_skip_ws(s, i);
    let j = skip_ws(s, i);
    lemma_spec_ident(s, j);
    if let Option::Some((id, e)) = spec_ident(s, j) {
        lemma_skip_ws(s, e);
    }
}

pub proof fn lemma_spec_pk_ids(s: Seq<u8>, i: int)
    requires
        0 <= i <= s.len(),
    ensures
        spec_pk_ids(s, i) matches Result::Ok(r) ==> i <= r.1 <= s.len(),
        spec_pk_ids(s, i) matches Result::Err(p) ==> 0 <= p <= s.len(),
    decreases s.len() - i,
{
    lemma_skip_ws(s, i);
    let j = skip_ws(s, i);
    lemma_spec_ident(s, j);
    if !(j < s.len() && s[j] == B_RPAREN) {
        if let Option::Some((id, e)) = spec_ident(s, j) {
            lemma_skip_ws(s, e);
            let k = skip_ws(s, e);
            if k < s.len() && s[k] == B_COMMA {
                lemma_spec_pk_ids(s, k + 1);
            }
        }
    }
}

pub fn pk_ids_exec(s: &Vec<u8>, i: usize) -> (r: Result<(Vec<Vec<u8>>, usize), usize>)
    requires
        i <= s@.len(),
    ensures
        match r {
            Result::Ok((v, e)) => spec_pk_ids(s@, i as int) == Result::<
                (Seq<Seq<u8>>, int),
                int,
            >::Ok((v.deep_view(), e as int)) && i <= e <= s@.len(),
            Result::Err(p) => spec_pk_ids(s@, i as int) == Result::<(Seq<Seq<u8>>, int), int>::Err(
                p as int,
            ),
        },
    decreases s@.len() - i,
{
    let j = skip_ws_exec(s, i);
    if j < s.len() && s[j] == B_RPAREN {
        let v: Vec<Vec<u8>> = Vec::new();
        proof {
            assert(v.deep_view() =~~= Seq::<Seq<u8>>::empty());
        }
        Result::Ok((v, j + 1))
    } else {
        match ident_exec(s, j) {
            Option::None => Result::Err(j),
            Option::Some((id, e)) => {
                let k = skip_ws_exec(s, e);
                if k < s.len() && s[k] == B_COMMA {
                    match pk_ids_exec(s, k + 1) {
                        Result::Ok((rest, m)) => {
                            let ghost rest_dv = rest.deep_view();
                            let ghost idg = id@;
                            let mut v = rest;
                            v.insert(0, id);
                            proof {
                                assert(v.deep_view() =~~= seq![idg] + rest_dv);
                            }
                            Result::Ok((v, m))
                        },
                        Result::Err(p) => Result::Err(p),
                    }
                } else if k < s.len() && s[k] == B_RPAREN {
                    let ghost idg = id@;
                    let mut v: Vec<Vec<u8>> = Vec::new();
                    v.push(id);
                    proof {
                        assert(v.deep_view() =~~= seq![idg]);
                    }
                    Result::Ok((v, k + 1))
                } else {
                    Result::Err(k)
                }
            },
        }
    }
}

/// One column: attributes, a name, `->`, and a type that is a bare identifier
/// or one identifier wrapped in angle brackets around another.
pub open spec fn spec_column(s: Seq<u8>, i: int) -> Result<(ColumnG, int), int> {
    match spec_attrs(s, i) {
        Result::Err(p) => Result::Err(p),
        Result::Ok((attrs, j)) => match spec_ident(s, j) {
            Option::None => Result::Err(j),
            Option::Some((name, e)) => {
                let k = skip_ws(s, e);
                if k + 1 < s.len() && s[k] == B_DASH && s[k + 1] == B_GT {
                    let t = skip_ws(s, k + 2);
                    match spec_ident(s, t) {
                        Option::None => Result::Err(t),
                        Option::Some((outer, e2)) => {
                            let g = skip_ws(s, e2);
                            if g < s.len() && s[g] == B_LT {
                                let h = skip_ws(s, g + 1);
                                match spec_ident(s, h) {
                                    Option::None => Result::Err(h),
                                    Option::Some((inner, e3)) => {
                                        let z = skip_ws(s, e3);
                                        if z < s.len() && s[z] == B_GT {
                                            Result::Ok(
                                                (
                                                    ColumnG {
                                                        attrs,
                                                        name,
                                                        ty: ColumnTypeG::Wrapped(outer, inner),
                                                    },
                                                    z + 1,
                                                ),
                                            )
                                        } else {
                                            Result::Err(z)
                                        }
                                    },
                                }
                            } else {
                                Result::Ok(
                                    (ColumnG { attrs, name, ty: ColumnTypeG::Bare(outer) }, e2),
                                )
                            }
                        },
                    }
                } else {
                    Result::Err(k)
                }
            },
        },
    }
}

pub proof fn lemma_spec_column(s: Seq<u8>, i: int)
    requires
        0 <= i <= s.len(),
    ensures
        spec_column(s, i) matches Result::Ok(r) ==> i < r.1 <= s.len(),
        spec_column(s, i) matches Result::Err(p) ==> 0 <= p <= s.len(),
{
    lemma_spec_attrs(s, i);
    if let Result::Ok((attrs, j)) = spec_attrs(s, i) {
        lemma_spec_ident(s, j);
        if let Option::Some((name, e)) = spec_ident(s, j) {
            lemma_skip_ws(s, e);
            let k = skip_ws(s, e);
            if k + 1 < s.len() && s[k] == B_DASH && s[k + 1] == B_GT {
                lemma_skip_ws(s, k + 2);
                let t = skip_ws(s, k + 2);
                lemma_spec_ident(s, t);
                if let Option::Some((outer, e2)) = spec_ident(s, t) {
                    lemma_skip_ws(s, e2);
                    let g = skip_ws(s, e2);
                    if g < s.len() && s[g] == B_LT {
                        lemma_skip_ws(s, g + 1);
                        let h = skip_ws(s, g + 1);
                        lemma_spec_ident(s, h);
                        if let Option::Some((inner, e3)) = spec_ident(s, h) {
                            lemma_skip_ws(s, e3);
                        }
                    }
                }
            }
        }
    }
}

pub fn column_exec(s: &Vec<u8>, i: usize) -> (r: Result<(crate::ast::Column, usize), usize>)
    requires
        i <= s@.len(),
    ensures
        match r {
            Result::Ok((c, e)) => spec_column(s@, i as int) == Result::<(ColumnG, int), int>::Ok(
                (c@, e as int),
            ) && i < e <= s@.len(),
            Result::Err(p) => spec_column(s@, i as int) == Result::<(ColumnG, int), int>::Err(
                p as int,
            ),
        },
{
    proof {
        lemma_spec_column(s@, i as int);
    }
    match attrs_exec(s, i) {
        Result::Err(p) => Result::Err(p),
        Result::Ok((attrs, j)) => match ident_exec(s, j) {
            Option::None => Result::Err(j),
            Option::Some((name, e)) => {
                let k = skip_ws_exec(s, e);
                if k < s.len() && s[k] == B_DASH && k + 1 < s.len() && s[k + 1] == B_GT {
                    let t = skip_ws_exec(s, k + 2);
                    match ident_exec(s, t) {
                        Option::None => Result::Err(t),
                        Option::Some((outer, e2)) => {
                            let g = skip_ws_exec(s, e2);
                            if g < s.len() && s[g] == B_LT {
                                let h = skip_ws_exec(s, g + 1);
                                match ident_exec(s, h) {
                                    Option::None => Result::Err(h),
                                    Option::Some((inner, e3)) => {
                                        let z = skip_ws_exec(s, e3);
                                        if z < s.len() && s[z] == B_GT {
                                            Result::Ok(
                                                (
                                                    crate::ast::Column {
                                                        attrs,
                                                        name,
                                                        ty: crate::ast::ColumnType::Wrapped(
                                                            outer,
                                                            inner,
                                                        ),
                                                    },
                                                    z + 1,
                                                ),
                                            )
                                        } else {
                                            Result::Err(z)
                                        }
                                    },
                                }
                            } else {
                                Result::Ok(
                                    (
                                        crate::ast::Column {
                                            attrs,
                                            name,
                                            ty: crate::ast::ColumnType::Bare(outer),
                                        },
                                        e2,
                                    ),
                                )
                            }
                        },
                    }
                } else {
                    Result::Err(k)
                }
            },
        },
    }
}

/// The comma-separated column list starting at `i`, read up to and past the
/// closing `}` of the table body.
pub open spec fn spec_columns(s: Seq<u8>, i: int) -> Result<(Seq<ColumnG>, int), int>
    decreases s.len() - i,
        when 0 <= i <= s.len()
        via spec_columns_dec
{
    let j = skip_ws(s, i);
    if j < s.len() && s[j] == B_RBRACE {
        Result::Ok((Seq::empty(), j + 1))
    } else {
        match spec_column(s, j) {
            Result::Err(p) => Result::Err(p),
            Result::Ok((c, e)) => {
                let k = skip_ws(s, e);
                if k < s.len() && s[k] == B_COMMA {
                    match spec_columns(s, k + 1) {
                        Result::Ok((rest, m)) => Result::Ok((seq![c] + rest, m)),
                        Result::Err(p) => Result::Err(p),
                    }
                } else if k < s.len() && s[k] == B_RBRACE {
                    Result::Ok((seq![c], k + 1))
                } else {
                    Result::Err(k)
                }
            },
        }
    }
}

#[via_fn]
proof fn spec_columns_dec(s: Seq<u8>, i: int) {
    lemma_skip_ws(s, i);
    let j = skip_ws(s, i);
    lemma_spec_column(s, j);
    if let Result::Ok((c, e)) = spec_column(s, j) {
        lemma_skip_ws(s, e);
    }
}

pub proof fn lemma_spec_columns(s: Seq<u8>, i: int)
    requires
        0 <= i <= s.len(),
    ensures
        spec_columns(s, i) matches Result::Ok(r) ==> i <= r.1 <= s.len(),
        spec_columns(s, i) matches Result::Err(p) ==> 0 <= p <= s.len(),
    decreases s.len() - i,
{
    lemma_skip_ws(s, i);
    let j = skip_ws(s, i);
    lemma_spec_column(s, j);
    if !(j < s.len() && s[j] == B_RBRACE) {
        if let Result::Ok((c, e)) = spec_column(s, j) {
            lemma_skip_ws(s, e);
            let k = skip_ws(s, e);
            if k < s.len() && s[k] == B_COMMA {
                lemma_spec_columns(s, k + 1);
            }
        }
    }
}

pub fn columns_exec(s: &Vec<u8>, i: usize) -> (r: Result<(Vec<crate::ast::Column>, usize), usize>)
    requires
        i <= s@.len(),
    ensures
        match r {
            Result::Ok((v, e)) => spec_columns(s@, i as int) == Result::<
                (Seq<ColumnG>, int),
                int,
            >::Ok((v.deep_view(), e as int)) && i <= e <= s@.len(),
            Result::Err(p) => spec_columns(s@, i as int) == Result::<(Seq<ColumnG>, int), int>::Err(
                p as int,
            ),
        },
    decreases s@.len() - i,
{
    let j = skip_ws_exec(s, i);
    if j < s.len() && s[j] == B_RBRACE {
        let v: Vec<crate::ast::Column> = Vec::new();
        proof {
            assert(v.deep_view() =~~= Seq::<ColumnG>::empty());
        }
        Result::Ok((v, j + 1))
    } else {
        match column_exec(s, j) {
            Result::Err(p) => Result::Err(p),
            Result::Ok((c, e)) => {
                let k = skip_ws_exec(s, e);
                if k < s.len() && s[k] == B_COMMA {
                    match columns_exec(s, k + 1) {
                        Result::Ok((rest, m)) => {
                            let ghost rest_dv = rest.deep_view();
                            let ghost cg = c@;
                            let mut v = rest;
                            v.insert(0, c);
                            proof {
                                assert(v.deep_view() =~~= seq![cg] + rest_dv);
                            }
                            Result::Ok((v, m))
                        },
                        Result::Err(p) => Result::Err(p),
                    }
                } else if k < s.len() && s[k] == B_RBRACE {
                    let ghost cg = c@;
                    let mut v: Vec<crate::ast::Column> = Vec::new();
                    v.push(c);
                    proof {
                        assert(v.deep_view() =~~= seq![cg]);
                    }
                    Result::Ok((v, k + 1))
                } else {
                    Result::Err(k)
                }
            },
        }
    }
}

/// A table body: import statements, attributes, the table name, an optional
/// parenthesized primary-key list, and a brace-delimited column list.
pub open spec fn spec_parse_table(s: Seq<u8>) -> Result<TableG, (ErrorKind, int)> {
    match spec_use_list(s, 0) {
        Result::Err(p) => Result::Err((ErrorKind::Malformed, p)),
        Result::Ok((uses, i1)) => match spec_attrs(s, i1) {
            Result::Err(p) => Result::Err((ErrorKind::Malformed, p)),
            Result::Ok((attrs, i2)) => {
                let j = skip_ws(s, i2);
                match spec_ident(s, j) {
                    Option::None => Result::Err((ErrorKind::Malformed, j)),
                    Option::Some((name, e)) => {
                        let k = skip_ws(s, e);
                        if k < s.len() && s[k] == B_LPAREN {
                            match spec_pk_ids(s, k + 1) {
                                Result::Err(p) => Result::Err((ErrorKind::Malformed, p)),
                                Result::Ok((ids, e2)) => spec_table_tail(
                                    s,
                                    uses,
                                    attrs,
                                    name,
                                    Option::Some(ids),
                                    e2,
                                ),
                            }
                        } else {
                            spec_table_tail(s, uses, attrs, name, Option::None, e)
                        }
                    },
                }
            },
        },
    }
}

/// The column block of a table body, and the end-of-input check behind it.
pub open spec fn spec_table_tail(
    s: Seq<u8>,
    uses: Seq<Seq<u8>>,
    attrs: Seq<Seq<u8>>,
    name: Seq<u8>,
    primary_key: Option<Seq<Seq<u8>>>,
    i: int,
) -> Result<TableG, (ErrorKind, int)> {
    let b = skip_ws(s, i);
    if b < s.len() && s[b] == B_LBRACE {
        match spec_columns(s, b + 1) {
            Result::Ok((columns, e)) => {
                let t = skip_ws(s, e);
                if t == s.len() {
                    Result::Ok(TableG { uses, attrs, name, primary_key, columns })
                } else {
                    Result::Err((ErrorKind::Malformed, t))
                }
            },
            Result::Err(p) => Result::Err((ErrorKind::Malformed, p)),
        }
    } else {
        Result::Err((ErrorKind::Malformed, b))
    }
}

/// Every error a table body can raise is anchored inside that body.
pub proof fn lemma_spec_parse_table_err(s: Seq<u8>)
    ensures
        spec_parse_table(s) matches Result::Err(e) ==> 0 <= e.1 <= s.len(),
{
    lemma_spec_use_list(s, 0);
    if let Result::Ok((uses, i1)) = spec_use_list(s, 0) {
        lemma_spec_attrs(s, i1);
        if let Result::Ok((attrs, i2)) = spec_attrs(s, i1) {
            lemma_skip_ws(s, i2);
            let j = skip_ws(s, i2);
            lemma_spec_ident(s, j);
            if let Option::Some((name, e)) = spec_ident(s, j) {
                lemma_skip_ws(s, e);
                let k = skip_ws(s, e);
                if k < s.len() && s[k] == B_LPAREN {
                    lemma_spec_pk_ids(s, k + 1);
                    if let Result::Ok((ids, e2)) = spec_pk_ids(s, k + 1) {
                        lemma_spec_table_tail_err(s, e2);
                    }
                } else {
                    lemma_spec_table_tail_err(s, e);
                }
            }
        }
    }
}

proof fn lemma_spec_table_tail_err(s: Seq<u8>, i: int)
    requires
        0 <= i <= s.len(),
    ensures
        forall|uses: Seq<Seq<u8>>, attrs: Seq<Seq<u8>>, name: Seq<u8>, pk: Option<Seq<Seq<u8>>>|
            (#[trigger] spec_table_tail(s, uses, attrs, name, pk, i)) matches Result::Err(e) ==> 0
                <= e.1 <= s.len(),
{
    lemma_skip_ws(s, i);
    let b = skip_ws(s, i);
    if b < s.len() && s[b] == B_LBRACE {
        lemma_spec_columns(s, b + 1);
        if let Result::Ok((columns, e)) = spec_columns(s, b + 1) {
            lemma_skip_ws(s, e);
        }
    }
}

/// Parse a whole table body, returning exactly what `spec_parse_table` names
/// for this input.
pub fn parse_table(s: &Vec<u8>) -> (r: Result<crate::ast::Table, crate::error::SortError>)
    ensures
        match r {
            Result::Ok(t) => spec_parse_table(s@) == Result::<TableG, (ErrorKind, int)>::Ok(t@),
            Result::Err(err) => spec_parse_table(s@) == Result::<TableG, (ErrorKind, int)>::Err(
                (err.kind, err.pos as int),
            ),
        },
{
    proof {
        lemma_spec_use_list(s@, 0);
    }
    match use_list_exec(s, 0) {
        Result::Err(p) => Result::Err(crate::error::SortError { kind: ErrorKind::Malformed, pos: p }),
        Result::Ok((uses, i1)) => {
            proof {
                lemma_spec_attrs(s@, i1 as int);
            }
            match attrs_exec(s, i1) {
                Result::Err(p) => Result::Err(
                    crate::error::SortError { kind: ErrorKind::Malformed, pos: p },
                ),
                Result::Ok((attrs, i2)) => {
                    let j = skip_ws_exec(s, i2);
                    match ident_exec(s, j) {
                        Option::None => Result::Err(
                            crate::error::SortError { kind: ErrorKind::Malformed, pos: j },
                        ),
                        Option::Some((name, e)) => {
                            let k = skip_ws_exec(s, e);
                            if k < s.len() && s[k] == B_LPAREN {
                                match pk_ids_exec(s, k + 1) {
                                    Result::Err(p) => Result::Err(
                                        crate::error::SortError {
                                            kind: ErrorKind::Malformed,
                                            pos: p,
                                        },
                                    ),
                                    Result::Ok((ids, e2)) => table_tail_exec(
                                        s,
                                        uses,
                                        attrs,
                                        name,
                                        Option::Some(ids),
                                        e2,
                                    ),
                                }
                            } else {
                                table_tail_exec(s, uses, attrs, name, Option::None, e)
                            }
                        },
                    }
                },
            }
        },
    }
}

fn table_tail_exec(
    s: &Vec<u8>,
    uses: Vec<Vec<u8>>,
    attrs: Vec<Vec<u8>>,
    name: Vec<u8>,
    primary_key: Option<Vec<Vec<u8>>>,
    i: usize,
) -> (r: Result<crate::ast::Table, crate::error::SortError>)
    requires
        i <= s@.len(),
    ensures
        match r {
            Result::Ok(t) => spec_table_tail(
                s@,
                uses.deep_view(),
                attrs.deep_view(),
                name@,
                match primary_key {
                    Option::Some(ids) => Option::Some(ids.deep_view()),
                    Option::None => Option::None,
                },
                i as int,
            ) == Result::<TableG, (ErrorKind, int)>::Ok(t@),
            Result::Err(err) => spec_table_tail(
                s@,
                uses.deep_view(),
                attrs.deep_view(),
                name@,
                match primary_key {
                    Option::Some(ids) => Option::Some(ids.deep_view()),
                    Option::None => Option::None,
                },
                i as int,
            ) == Result::<TableG, (ErrorKind, int)>::Err((err.kind, err.pos as int)),
        },
{
    let b = skip_ws_exec(s, i);
    if b < s.len() && s[b] == B_LBRACE {
        match columns_exec(s, b + 1) {
            Result::Ok((columns, e)) => {
                let t = skip_ws_exec(s, e);
                if t == s.len() {
                    Result::Ok(crate::ast::Table { uses, attrs, name, primary_key, columns })
                } else {
                    Result::Err(crate::error::SortError { kind: ErrorKind::Malformed, pos: t })
                }
            },
            Result::Err(p) => Result::Err(
                crate::error::SortError { kind: ErrorKind::Malformed, pos: p },
            ),
        }
    } else {
        Result::Err(crate::error::SortError { kind: ErrorKind::Malformed, pos: b })
    }
}

/// The last identifier of a `::`-separated path, its position, and the
/// position after the whole path.
pub open spec fn spec_path_last(s: Seq<u8>, i: int) -> Option<(Seq<u8>, int, int)>
    decreases s.len() - i,
        when 0 <= i <= s.len()
        via spec_path_last_dec
{
    let j = skip_ws(s, i);
    match spec_ident(s, j) {
        Option::None => Option::None,
        Option::Some((id, e)) => {
            let k = skip_ws(s, e);
            if k + 1 < s.len() && s[k] == B_COLON && s[k + 1] == B_COLON {
                spec_path_last(s, k + 2)
            } else {
                Option::Some((id, j, e))
            }
        },
    }
}

#[via_fn]
proof fn spec_path_last_dec(s: Seq<u8>, i: int) {
    lemma_skip_ws(s, i);
    let j = skip_ws(s, i);
    lemma_spec_ident(s, j);
    if let Option::Some((id, e)) = spec_ident(s, j) {
        lemma_skip_ws(s, e);
    }
}

pub proof fn lemma_spec_path_last(s: Seq<u8>, i: int)
    requires
        0 <= i <= s.len(),
    ensures
        spec_path_last(s, i) matches Option::Some(r) ==> i <= r.2 <= s.len() && 0 <= r.1
            <= s.len(),
    decreases s.len() - i,
{
    lemma_skip_ws(s, i);
    let j = skip_ws(s, i);
    lemma_spec_ident(s, j);
    if let Option::Some((id, e)) = spec_ident(s, j) {
        lemma_skip_ws(s, e);
        let k = skip_ws(s, e);
        if k + 1 < s.len() && s[k] == B_COLON && s[k + 1] == B_COLON {
            lemma_spec_path_last(s, k + 2);
        }
    }
}

pub fn path_last_exec(s: &Vec<u8>, i: usize) -> (r: Option<(Vec<u8>, usize, usize)>)
    requires
        i <= s@.len(),
    ensures
        match r {
            Option::Some((id, p, e)) => spec_path_last(s@, i as int) == Option::Some(
                (id@, p as int, e as int),
            ) && p <= s@.len() && e <= s@.len(),
            Option::None => spec_path_last(s@, i as int) is None,
        },
    decreases s@.len() - i,
{
    let j = skip_ws_exec(s, i);
    match ident_exec(s, j) {
        Option::None => Option::None,
        Option::Some((id, e)) => {
            let k = skip_ws_exec(s, e);
            if k < s.len() && s[k] == B_COLON && k + 1 < s.len() && s[k + 1] == B_COLON {
                path_last_exec(s, k + 2)
            } else {
                Option::Some((id, j, e))
            }
        },
    }
}

/// The table-canonicalization invocation: a path whose last identifier must be
/// `table`, a `!`, and a brace-delimited body, with nothing but whitespace
/// after it. On success the result is the body's byte range.
pub open spec fn spec_table_invocation(s: Seq<u8>) -> Result<(int, int), (ErrorKind, int)> {
    match spec_path_last(s, 0) {
        Option::None => Result::Err((ErrorKind::NotTableMacro, skip_ws(s, 0))),
        Option::Some((id, idpos, e)) => {
            let k = skip_ws(s, e);
            if !(k < s.len() && s[k] == B_BANG) {
                Result::Err((ErrorKind::NotTableMacro, k))
            } else {
                let b = skip_ws(s, k + 1);
                if !(b < s.len() && s[b] == B_LBRACE) {
                    Result::Err((ErrorKind::NotTableMacro, b))
                } else {
                    match scan_close(s, b + 1, B_LBRACE, B_RBRACE, 1) {
                        Option::None => Result::Err((ErrorKind::NotTableMacro, b)),
                        Option::Some(c) => {
                            let t = skip_ws(s, c);
                            if t != s.len() {
                                Result::Err((ErrorKind::NotTableMacro, t))
                            } else if id != kw_table() {
                                Result::Err((ErrorKind::NotTableMacro, idpos))
                            } else {
                                Result::Ok((b + 1, c - 1))
                            }
                        },
                    }
                }
            }
        },
    }
}

/// Find the table body inside the invocation and copy it out, together with
/// the offset at which it starts.
pub fn table_invocation_exec(s: &Vec<u8>) -> (r: Result<(Vec<u8>, usize), crate::error::SortError>)
    ensures
        match r {
            Result::Ok((body, start)) => spec_table_invocation(s@) matches Result::Ok(range)
                && body@ == s@.subrange(range.0, range.1) && start as int == range.0 && range.0
                + body@.len() <= s@.len(),
            Result::Err(err) => spec_table_invocation(s@) == Result::<(int, int), (
                ErrorKind,
                int,
            )>::Err((err.kind, err.pos as int)),
        },
{
    proof {
        lemma_spec_path_last(s@, 0);
    }
    match path_last_exec(s, 0) {
        Option::None => {
            let p = skip_ws_exec(s, 0);
            Result::Err(crate::error::SortError { kind: ErrorKind::NotTableMacro, pos: p })
        },
        Option::Some((id, idpos, e)) => {
            let k = skip_ws_exec(s, e);
            if !(k < s.len() && s[k] == B_BANG) {
                Result::Err(crate::error::SortError { kind: ErrorKind::NotTableMacro, pos: k })
            } else {
                let b = skip_ws_exec(s, k + 1);
                if !(b < s.len() && s[b] == B_LBRACE) {
                    Result::Err(crate::error::SortError { kind: ErrorKind::NotTableMacro, pos: b })
                } else {
                    match scan_close_exec(s, b + 1, B_LBRACE, B_RBRACE, 1) {
                        Option::None => Result::Err(
                            crate::error::SortError { kind: ErrorKind::NotTableMacro, pos: b },
                        ),
                        Option::Some(c) => {
                            let t = skip_ws_exec(s, c);
                            if t != s.len() {
                                Result::Err(
                                    crate::error::SortError {
                                        kind: ErrorKind::NotTableMacro,
                                        pos: t,
                                    },
                                )
                            } else if !is_kw_table(&id) {
                                Result::Err(
                                    crate::error::SortError {
                                        kind: ErrorKind::NotTableMacro,
                                        pos: idpos,
                                    },
                                )
                            } else {
                                Result::Ok((copy_range(s, b + 1, c - 1), b + 1))
                            }
                        },
                    }
                }
            }
        },
    }
}

} // verus!
