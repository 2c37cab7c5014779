//! Re-emission: each canonicalized declaration is serialized back to bytes.
//! The output is pinned exactly: every emitter returns the bytes its
//! specification-level twin names for the declaration it is handed.

use vstd::prelude::*;
use crate::ast::{Field, FieldG, Record, RecordG, Column, ColumnG, ColumnType, ColumnTypeG, Table,
    TableG};
use crate::parse::kw_struct;

verus! {

pub open spec fn nl() -> Seq<u8> {
    seq![10u8]
}

pub open spec fn indent4() -> Seq<u8> {
    seq![32u8, 32u8, 32u8, 32u8]
}

pub open spec fn indent8() -> Seq<u8> {
    indent4() + indent4()
}

/// ": "
pub open spec fn colon_sp() -> Seq<u8> {
    seq![58u8, 32u8]
}

/// ",\n"
pub open spec fn comma_nl() -> Seq<u8> {
    seq![44u8, 10u8]
}

/// " {\n"
pub open spec fn sp_lbrace_nl() -> Seq<u8> {
    seq![32u8, 123u8, 10u8]
}

/// " -> "
pub open spec fn arrow_sp() -> Seq<u8> {
    seq![32u8, 45u8, 62u8, 32u8]
}

/// "diesel::table! {\n"
pub open spec fn table_header() -> Seq<u8> {
    seq![
        100u8, 105u8, 101u8, 115u8, 101u8, 108u8, 58u8, 58u8, 116u8, 97u8, 98u8, 108u8, 101u8,
        33u8, 32u8, 123u8, 10u8,
    ]
}

/// "    }\n}"
pub open spec fn table_footer() -> Seq<u8> {
    seq![32u8, 32u8, 32u8, 32u8, 125u8, 10u8, 125u8]
}

/// ", "
pub open spec fn comma_sp() -> Seq<u8> {
    seq![44u8, 32u8]
}

/// Each text on a line of its own, behind the given indent.
pub open spec fn emit_lines(items: Seq<Seq<u8>>, ind: Seq<u8>) -> Seq<u8>
    decreases items.len(),
{
    if items.len() == 0 {
        Seq::empty()
    } else {
        ind + items[0] + nl() + emit_lines(items.drop_first(), ind)
    }
}

/// One field: its attributes on their own lines, then `name: ty,`.
pub open spec fn emit_field(f: FieldG) -> Seq<u8> {
    emit_lines(f.attrs, indent4()) + indent4() + f.name + colon_sp() + f.ty + comma_nl()
}

pub open spec fn emit_fields(fs: Seq<FieldG>) -> Seq<u8>
    decreases fs.len(),
{
    if fs.len() == 0 {
        Seq::empty()
    } else {
        emit_field(fs[0]) + emit_fields(fs.drop_first())
    }
}

/// A whole record declaration.
pub open spec fn emit_record(r: RecordG) -> Seq<u8> {
    emit_lines(r.attrs, Seq::empty()) + (if r.vis.len() > 0 {
        r.vis + seq![32u8]
    } else {
        Seq::empty()
    }) + kw_struct() + seq![32u8] + r.name + r.generics + sp_lbrace_nl() + emit_fields(r.fields)
        + seq![125u8]
}

/// A column's type: bare, or wrapped once in angle brackets.
pub open spec fn emit_column_ty(t: ColumnTypeG) -> Seq<u8> {
    match t {
        ColumnTypeG::Bare(name) => name,
        ColumnTypeG::Wrapped(outer, inner) => outer + seq![60u8] + inner + seq![62u8],
    }
}

/// One column: its attributes on their own lines, then `name -> ty,`.
pub open spec fn emit_column(c: ColumnG) -> Seq<u8> {
    emit_lines(c.attrs, indent8()) + indent8() + c.name + arrow_sp() + emit_column_ty(c.ty)
        + comma_nl()
}

pub open spec fn emit_columns(cs: Seq<ColumnG>) -> Seq<u8>
    decreases cs.len(),
{
    if cs.len() == 0 {
        Seq::empty()
    } else {
        emit_column(cs[0]) + emit_columns(cs.drop_first())
    }
}

/// The identifiers of a primary-key list, separated by `, `.
pub open spec fn join_ids(ids: Seq<Seq<u8>>) -> Seq<u8>
    decreases ids.len(),
{
    if ids.len() == 0 {
        Seq::empty()
    } else if ids.len() == 1 {
        ids[0]
    } else {
        ids[0] + comma_sp() + join_ids(ids.drop_first())
    }
}

/// The primary-key list as emitted after the table name; nothing when the
/// table declares none.
pub open spec fn emit_pk(pk: Option<Seq<Seq<u8>>>) -> Seq<u8> {
    match pk {
        Option::Some(ids) => seq![32u8, 40u8] + join_ids(ids) + seq![41u8],
        Option::None => Seq::empty(),
    }
}

/// A whole table declaration, wrapped back into its invocation.
pub open spec fn emit_table(t: TableG) -> Seq<u8> {
    table_header() + emit_lines(t.uses, indent4()) + emit_lines(t.attrs, indent4()) + indent4()
        + t.name + emit_pk(t.primary_key) + sp_lbrace_nl() + emit_columns(t.columns)
        + table_footer()
}

/// Append the bytes of `s` to `out`.
fn push_seq(out: &mut Vec<u8>, s: &Vec<u8>)
    ensures
        final(out)@ == old(out)@ + s@,
{
    let mut k: usize = 0;
    while k < s.len()
        invariant
            k <= s@.len(),
            out@ == old(out)@ + s@.take(k as int),
        decreases s@.len() - k,
    {
        out.push(s[k]);
        proof {
            assert(s@.take(k + 1 as int) =~= s@.take(k as int).push(s@[k as int]));
            assert(old(out)@ + s@.take(k + 1 as int) =~= (old(out)@ + s@.take(k as int)).push(
                s@[k as int],
            ));
        }
        k = k + 1;
    }
    proof {
        assert(s@.take(s@.len() as int) =~= s@);
    }
}

fn push_lines(out: &mut Vec<u8>, items: &Vec<Vec<u8>>, from: usize, ind: &Vec<u8>)
    requires
        from <= items@.len(),
    ensures
        final(out)@ == old(out)@ + emit_lines(items.deep_view().skip(from as int), ind@),
    decreases items@.len() - from,
{
    let ghost dv = items.deep_view();
    if from < items.len() {
        push_seq(out, ind);
        push_seq(out, &items[from]);
        out.push(10);
        push_lines(out, items, from + 1, ind);
        proof {
            assert(dv.skip(from as int).drop_first() =~= dv.skip(from + 1 as int));
            assert(dv.skip(from as int)[0] == items@[from as int].deep_view());
            assert(items@[from as int].deep_view() =~= items@[from as int]@);
            assert(final(out)@ =~= old(out)@ + emit_lines(dv.skip(from as int), ind@));
        }
    } else {
        proof {
            assert(dv.skip(from as int) =~= Seq::<Seq<u8>>::empty());
        }
    }
}

fn make_indent(n: usize) -> (r: Vec<u8>)
    requires
        n == 0 || n == 4 || n == 8,
    ensures
        n == 0 ==> r@ == Seq::<u8>::empty(),
        n == 4 ==> r@ == indent4(),
        n == 8 ==> r@ == indent8(),
{
    let mut r: Vec<u8> = Vec::new();
    let mut k: usize = 0;
    while k < n
        invariant
            k <= n,
            r@ == Seq::new(k as nat, |i: int| 32u8),
        decreases n - k,
    {
        r.push(32);
        proof {
            assert(r@ =~= Seq::new((k + 1) as nat, |i: int| 32u8));
        }
        k = k + 1;
    }
    proof {
        if n == 0 {
            assert(r@ =~= Seq::<u8>::empty());
        }
        if n == 4 {
            assert(r@ =~= indent4());
        }
        if n == 8 {
            assert(r@ =~= indent8());
        }
    }
    r
}

fn push_fields(out: &mut Vec<u8>, fs: &Vec<Field>, from: usize)
    requires
        from <= fs@.len(),
    ensures
        final(out)@ == old(out)@ + emit_fields(fs.deep_view().skip(from as int)),
    decreases fs@.len() - from,
{
    let ghost dv = fs.deep_view();
    if from < fs.len() {
        let ind = make_indent(4);
        let f = &fs[from];
        push_lines(out, &f.attrs, 0, &ind);
        proof {
            assert(f.attrs.deep_view().skip(0) =~= f.attrs.deep_view());
        }
        push_seq(out, &ind);
        push_seq(out, &f.name);
        out.push(58);
        out.push(32);
        push_seq(out, &f.ty);
        out.push(44);
        out.push(10);
        proof {
            assert(out@ =~= old(out)@ + emit_field(dv[from as int]));
        }
        push_fields(out, fs, from + 1);
        proof {
            assert(dv.skip(from as int).drop_first() =~= dv.skip(from + 1 as int));
            assert(dv.skip(from as int)[0] == dv[from as int]);
            assert(final(out)@ =~= old(out)@ + emit_fields(dv.skip(from as int)));
        }
    } else {
        proof {
            assert(dv.skip(from as int) =~= Seq::<FieldG>::empty());
        }
    }
}

/// Serialize a record declaration; the result is exactly `emit_record` of it.
pub fn emit_record_exec(r: &Record) -> (out: Vec<u8>)
    ensures
        out@ == emit_record(r@),
{
    let mut out: Vec<u8> = Vec::new();
    let ind0 = make_indent(0);
    push_lines(&mut out, &r.attrs, 0, &ind0);
    proof {
        assert(r.attrs.deep_view().skip(0) =~= r.attrs.deep_view());
    }
    if r.vis.len() > 0 {
        push_seq(&mut out, &r.vis);
        out.push(32);
    }
    // "struct "
    out.push(115);
    out.push(116);
    out.push(114);
    out.push(117);
    out.push(99);
    out.push(116);
    out.push(32);
    push_seq(&mut out, &r.name);
    push_seq(&mut out, &r.generics);
    // " {\n"
    out.push(32);
    out.push(123);
    out.push(10);
    let ghost head = out@;
    proof {
        assert(head =~= emit_lines(r@.attrs, Seq::empty()) + (if r@.vis.len() > 0 {
            r@.vis + seq![32u8]
        } else {
            Seq::<u8>::empty()
        }) + kw_struct() + seq![32u8] + r@.name + r@.generics + sp_lbrace_nl());
    }
    push_fields(&mut out, &r.fields, 0);
    out.push(125);
    proof {
        assert(r.fields.deep_view().skip(0) =~= r.fields.deep_view());
        assert(out@ =~= emit_record(r@));
    }
    out
}

fn push_columns(out: &mut Vec<u8>, cs: &Vec<Column>, from: usize)
    requires
        from <= cs@.len(),
    ensures
        final(out)@ == old(out)@ + emit_columns(cs.deep_view().skip(from as int)),
    decreases cs@.len() - from,
{
    let ghost dv = cs.deep_view();
    if from < cs.len() {
        let ind = make_indent(8);
        let c = &cs[from];
        push_lines(out, &c.attrs, 0, &ind);
        proof {
            assert(c.attrs.deep_view().skip(0) =~= c.attrs.deep_view());
        }
        push_seq(out, &ind);
        push_seq(out, &c.name);
        // " -> "
        out.push(32);
        out.push(45);
        out.push(62);
        out.push(32);
        match &c.ty {
            ColumnType::Bare(name) => {
                push_seq(out, name);
            },
            ColumnType::Wrapped(outer, inner) => {
                push_seq(out, outer);
                out.push(60);
                push_seq(out, inner);
                out.push(62);
            },
        }
        out.push(44);
        out.push(10);
        proof {
            assert(out@ =~= old(out)@ + emit_column(dv[from as int]));
        }
        push_columns(out, cs, from + 1);
        proof {
            assert(dv.skip(from as int).drop_first() =~= dv.skip(from + 1 as int));
            assert(dv.skip(from as int)[0] == dv[from as int]);
            assert(final(out)@ =~= old(out)@ + emit_columns(dv.skip(from as int)));
        }
    } else {
        proof {
            assert(dv.skip(from as int) =~= Seq::<ColumnG>::empty());
        }
    }
}

fn push_join_ids(out: &mut Vec<u8>, ids: &Vec<Vec<u8>>, from: usize)
    requires
        from <= ids@.len(),
    ensures
        final(out)@ == old(out)@ + join_ids(ids.deep_view().skip(from as int)),
    decreases ids@.len() - from,
{
    let ghost dv = ids.deep_view();
    if from < ids.len() {
        push_seq(out, &ids[from]);
        proof {
            assert(dv.skip(from as int)[0] == ids@[from as int].deep_view());
            assert(ids@[from as int].deep_view() =~= ids@[from as int]@);
        }
        if from + 1 < ids.len() {
            out.push(44);
            out.push(32);
            push_join_ids(out, ids, from + 1);
            proof {
                assert(dv.skip(from as int).drop_first() =~= dv.skip(from + 1 as int));
                assert(final(out)@ =~= old(out)@ + join_ids(dv.skip(from as int)));
            }
        } else {
            proof {
                assert(dv.skip(from as int).len() == 1);
                assert(final(out)@ =~= old(out)@ + join_ids(dv.skip(from as int)));
            }
        }
    } else {
        proof {
            assert(dv.skip(from as int) =~= Seq::<Seq<u8>>::empty());
        }
    }
}

/// Serialize a table declaration back into its invocation; the result is
/// exactly `emit_table` of it.
pub fn emit_table_exec(t: &Table) -> (out: Vec<u8>)
    ensures
        out@ == emit_table(t@),
{
    let mut out: Vec<u8> = Vec::new();
    // "diesel::table! {\n"
    out.push(100);
    out.push(105);
    out.push(101);
    out.push(115);
    out.push(101);
    out.push(108);
    out.push(58);
    out.push(58);
    out.push(116);
    out.push(97);
    out.push(98);
    out.push(108);
    out.push(101);
    out.push(33);
    out.push(32);
    out.push(123);
    out.push(10);
    proof {
        assert(out@ =~= table_header());
    }
    let ind4 = make_indent(4);
    push_lines(&mut out, &t.uses, 0, &ind4);
    push_lines(&mut out, &t.attrs, 0, &ind4);
    proof {
        assert(t.uses.deep_view().skip(0) =~= t.uses.deep_view());
        assert(t.attrs.deep_view().skip(0) =~= t.attrs.deep_view());
    }
    push_seq(&mut out, &ind4);
    push_seq(&mut out, &t.name);
    match &t.primary_key {
        Option::Some(ids) => {
            out.push(32);
            out.push(40);
            push_join_ids(&mut out, ids, 0);
            out.push(41);
            proof {
                assert(ids.deep_view().skip(0) =~= ids.deep_view());
            }
        },
        Option::None => {
        },
    }
    // " {\n"
    out.push(32);
    out.push(123);
    out.push(10);
    let ghost head = out@;
    proof {
        assert(head =~= table_header() + emit_lines(t@.uses, indent4()) + emit_lines(
            t@.attrs,
            indent4(),
        ) + indent4() + t@.name + emit_pk(t@.primary_key) + sp_lbrace_nl());
    }
    push_columns(&mut out, &t.columns, 0);
    proof {
        assert(t.columns.deep_view().skip(0) =~= t.columns.deep_view());
    }
    // "    }\n}"
    out.push(32);
    out.push(32);
    out.push(32);
    out.push(32);
    out.push(125);
    out.push(10);
    out.push(125);
    proof {
        assert(out@ =~= emit_table(t@));
    }
    out
}

} // verus!
