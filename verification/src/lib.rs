//! Canonicalizer for record (struct) declarations and table-schema
//! declarations: each declaration's field or column list is reordered
//! ascending by name, and everything else — attributes, doc comments,
//! visibility, generics, import statements, primary-key lists — is preserved,
//! so that two declarations naming the same fields in different orders always
//! come out identical.
//!
//! `sort_fields` canonicalizes a record declaration; `sort_columns`
//! canonicalizes a `table!`-style invocation. Both take the invocation's
//! configuration argument (which must be blank) and the declaration bytes, and
//! return the canonical bytes or a structured error.

use vstd::prelude::*;

pub mod ast;
pub mod emit;
pub mod error;
pub mod order;
pub mod parse;
pub mod roundtrip;
pub mod scan;

use crate::ast::{Field, FieldG, Record, RecordG, Column, ColumnG, Table, TableG};
use crate::emit::{emit_record, emit_record_exec, emit_table, emit_table_exec};
use crate::error::{ErrorKind, SortError};
use crate::order::{NameKey, spec_sort, spec_insert, sort_by_name, sorted_by_name, unique_names,
    lemma_spec_sort_ensures, lemma_sort_of_sorted, lemma_sort_order_independent};
use crate::parse::{spec_parse_record, parse_record, spec_parse_table, parse_table,
    spec_table_invocation, table_invocation_exec};
use crate::scan::{is_blank, is_blank_exec, skip_ws, skip_ws_exec};

verus! {

/// The views of a sequence of values.
pub open spec fn views_of<T: View>(s: Seq<T>) -> Seq<T::V> {
    s.map_values(|t: T| t@)
}

/// Sorting commutes with taking views, for any item whose view keeps its name.
pub proof fn lemma_insert_views<T: View + NameKey>(s: Seq<T>, x: T) where T::V: NameKey
    requires
        forall|t: T| #[trigger] t.view().key() == t.key(),
    ensures
        views_of(spec_insert(s, x)) == spec_insert(views_of(s), x@),
    decreases s.len(),
{
    if s.len() == 0 {
        assert(views_of(spec_insert(s, x)) =~= seq![x@]);
        assert(spec_insert(views_of(s), x@) =~= seq![x@]);
    } else {
        assert(views_of(s).last() == s.last()@);
        if crate::order::key_le(s.last().key(), x.key()) {
            assert(views_of(s.push(x)) =~= views_of(s).push(x@));
        } else {
            lemma_insert_views(s.drop_last(), x);
            assert(views_of(s.drop_last()) =~= views_of(s).drop_last());
            assert(views_of(spec_insert(s.drop_last(), x).push(s.last())) =~= views_of(
                spec_insert(s.drop_last(), x),
            ).push(s.last()@));
        }
    }
}

/// The canonical order of the items seen through their views is the view of
/// the canonical order of the items.
pub proof fn lemma_sort_views<T: View + NameKey>(s: Seq<T>) where T::V: NameKey
    requires
        forall|t: T| #[trigger] t.view().key() == t.key(),
    ensures
        views_of(spec_sort(s)) == spec_sort(views_of(s)),
    decreases s.len(),
{
    if s.len() > 0 {
        lemma_sort_views(s.drop_last());
        lemma_insert_views(spec_sort(s.drop_last()), s.last());
        assert(views_of(s.drop_last()) =~= views_of(s).drop_last());
        assert(views_of(s).last() == s.last()@);
    } else {
        assert(views_of(s) =~= Seq::<T::V>::empty());
    }
}

/// A record with its fields in canonical order and everything else untouched.
pub open spec fn canon_record(r: RecordG) -> RecordG {
    RecordG {
        attrs: r.attrs,
        vis: r.vis,
        name: r.name,
        generics: r.generics,
        fields: spec_sort(r.fields),
    }
}

/// A table with its columns in canonical order and everything else untouched.
pub open spec fn canon_table(t: TableG) -> TableG {
    TableG {
        uses: t.uses,
        attrs: t.attrs,
        name: t.name,
        primary_key: t.primary_key,
        columns: spec_sort(t.columns),
    }
}

/// What `sort_fields` returns: the canonical record's bytes, or the error and
/// the byte offset it is anchored at.
pub open spec fn spec_sort_fields(attr: Seq<u8>, item: Seq<u8>) -> Result<Seq<u8>, (
    ErrorKind,
    int,
)> {
    if !is_blank(attr) {
        Result::Err((ErrorKind::UnsupportedAttributes, skip_ws(attr, 0)))
    } else {
        match spec_parse_record(item) {
            Result::Ok(r) => Result::Ok(emit_record(canon_record(r))),
            Result::Err(e) => Result::Err(e),
        }
    }
}

/// Canonicalize a record declaration: parse it, reorder its fields ascending
/// by name, and re-emit it with every attribute, the visibility, the name and
/// the generics preserved. The configuration argument `attr` must be blank.
pub fn sort_fields(attr: &Vec<u8>, item: &Vec<u8>) -> (r: Result<Vec<u8>, SortError>)
    ensures
        match r {
            Result::Ok(out) => spec_sort_fields(attr@, item@) == Result::<Seq<u8>, (
                ErrorKind,
                int,
            )>::Ok(out@),
            Result::Err(e) => spec_sort_fields(attr@, item@) == Result::<Seq<u8>, (
                ErrorKind,
                int,
            )>::Err((e.kind, e.pos as int)),
        },
{
    if !is_blank_exec(attr) {
        let p = skip_ws_exec(attr, 0);
        return Result::Err(SortError { kind: ErrorKind::UnsupportedAttributes, pos: p });
    }
    match parse_record(item) {
        Result::Err(e) => Result::Err(e),
        Result::Ok(rec) => {
            let ghost parsed = rec@;
            let Record { attrs, vis, name, generics, fields } = rec;
            let ghost fields_seq = fields@;
            let sorted = sort_by_name(fields);
            let out = Record { attrs, vis, name, generics, fields: sorted };
            proof {
                assert(forall|t: Field| #[trigger] t.view().key() == t.key());
                lemma_sort_views(fields_seq);
                assert(views_of(fields_seq) =~= parsed.fields);
                assert(sorted.deep_view() =~= views_of(sorted@));
                assert(out@.fields == spec_sort(parsed.fields));
                assert(out@ == canon_record(parsed));
            }
            Result::Ok(emit_record_exec(&out))
        },
    }
}

/// What `sort_columns` returns: the canonical table invocation's bytes, or
/// the error and the byte offset it is anchored at. An offset inside the
/// declaration body counts from the whole input's start.
pub open spec fn spec_sort_columns(attr: Seq<u8>, item: Seq<u8>) -> Result<Seq<u8>, (
    ErrorKind,
    int,
)> {
    if !is_blank(attr) {
        Result::Err((ErrorKind::UnsupportedAttributes, skip_ws(attr, 0)))
    } else {
        match spec_table_invocation(item) {
            Result::Err(e) => Result::Err(e),
            Result::Ok((a, b)) => match spec_parse_table(item.subrange(a, b)) {
                Result::Ok(t) => Result::Ok(emit_table(canon_table(t))),
                Result::Err((kind, p)) => Result::Err((kind, a + p)),
            },
        }
    }
}

/// Canonicalize a table invocation: check the invocation is the
/// table-declaration construct, parse its body, reorder the columns ascending
/// by name, and re-emit the whole invocation with imports, attributes, the
/// table name and the primary-key list preserved in their original order. The
/// configuration argument `attr` must be blank.
pub fn sort_columns(attr: &Vec<u8>, item: &Vec<u8>) -> (r: Result<Vec<u8>, SortError>)
    ensures
        match r {
            Result::Ok(out) => spec_sort_columns(attr@, item@) == Result::<Seq<u8>, (
                ErrorKind,
                int,
            )>::Ok(out@),
            Result::Err(e) => spec_sort_columns(attr@, item@) == Result::<Seq<u8>, (
                ErrorKind,
                int,
            )>::Err((e.kind, e.pos as int)),
        },
{
    if !is_blank_exec(attr) {
        let p = skip_ws_exec(attr, 0);
        return Result::Err(SortError { kind: ErrorKind::UnsupportedAttributes, pos: p });
    }
    match table_invocation_exec(item) {
        Result::Err(e) => Result::Err(e),
        Result::Ok((body, start)) => {
            proof {
                crate::parse::lemma_spec_parse_table_err(body@);
            }
            match parse_table(&body) {
                Result::Err(e) => {
                    let total = item.len();
                    proof {
                        assert(spec_parse_table(body@) == Result::<TableG, (ErrorKind, int)>::Err(
                            (e.kind, e.pos as int),
                        ));
                        assert(e.pos as int <= body@.len());
                        assert(start as int + e.pos as int <= item@.len());
                    }
                    Result::Err(SortError { kind: e.kind, pos: start + e.pos })
                },
                Result::Ok(tab) => {
                    let ghost parsed = tab@;
                    let Table { uses, attrs, name, primary_key, columns } = tab;
                    let ghost cols_seq = columns@;
                    let sorted = sort_by_name(columns);
                    let out = Table { uses, attrs, name, primary_key, columns: sorted };
                    proof {
                        assert(forall|t: Column| #[trigger] t.view().key() == t.key());
                        lemma_sort_views(cols_seq);
                        assert(views_of(cols_seq) =~= parsed.columns);
                        assert(sorted.deep_view() =~= views_of(sorted@));
                        assert(out@.columns == spec_sort(parsed.columns));
                        assert(out@ == canon_table(parsed));
                    }
                    Result::Ok(emit_table_exec(&out))
                },
            }
        },
    }
}

/// Canonicalization sorts: the field list of a canonicalized record is
/// ascending by name, and canonicalizing again changes nothing.
pub proof fn lemma_canon_record_idempotent(r: RecordG)
    ensures
        sorted_by_name(canon_record(r).fields),
        canon_record(canon_record(r)) == canon_record(r),
{
    lemma_spec_sort_ensures(r.fields);
    lemma_sort_of_sorted(spec_sort(r.fields));
}

/// Canonicalization sorts: the column list of a canonicalized table is
/// ascending by name, and canonicalizing again changes nothing.
pub proof fn lemma_canon_table_idempotent(t: TableG)
    ensures
        sorted_by_name(canon_table(t).columns),
        canon_table(canon_table(t)) == canon_table(t),
{
    lemma_spec_sort_ensures(t.columns);
    lemma_sort_of_sorted(spec_sort(t.columns));
}

/// Order-independence: two records that agree on everything but the order of
/// their fields, with no repeated field names, canonicalize to the same bytes.
pub proof fn lemma_canon_record_order_independent(a: RecordG, b: RecordG)
    requires
        a.attrs == b.attrs,
        a.vis == b.vis,
        a.name == b.name,
        a.generics == b.generics,
        a.fields.to_multiset() == b.fields.to_multiset(),
        unique_names(a.fields),
    ensures
        canon_record(a) == canon_record(b),
        emit_record(canon_record(a)) == emit_record(canon_record(b)),
{
    lemma_sort_order_independent(a.fields, b.fields);
}

/// Order-independence: two tables that agree on everything but the order of
/// their columns, with no repeated column names, canonicalize to the same
/// bytes.
pub proof fn lemma_canon_table_order_independent(a: TableG, b: TableG)
    requires
        a.uses == b.uses,
        a.attrs == b.attrs,
        a.name == b.name,
        a.primary_key == b.primary_key,
        a.columns.to_multiset() == b.columns.to_multiset(),
        unique_names(a.columns),
    ensures
        canon_table(a) == canon_table(b),
        emit_table(canon_table(a)) == emit_table(canon_table(b)),
{
    lemma_sort_order_independent(a.columns, b.columns);
}

/// Metadata preservation: canonicalization keeps exactly the original fields —
/// each with its name, type and attached attributes — only their order moves.
pub proof fn lemma_canon_record_preserves_fields(r: RecordG)
    ensures
        canon_record(r).fields.to_multiset() == r.fields.to_multiset(),
        canon_record(r).fields.len() == r.fields.len(),
        forall|f: FieldG| canon_record(r).fields.contains(f) <==> r.fields.contains(f),
{
    broadcast use vstd::seq_lib::group_to_multiset_ensures;

    lemma_spec_sort_ensures(r.fields);
    let c = canon_record(r).fields;
    assert forall|f: FieldG| c.contains(f) <==> r.fields.contains(f) by {
        assert(c.to_multiset().count(f) == r.fields.to_multiset().count(f));
        assert(c.contains(f) <==> c.to_multiset().count(f) > 0);
        assert(r.fields.contains(f) <==> r.fields.to_multiset().count(f) > 0);
    }
}

/// Metadata preservation: canonicalization keeps exactly the original columns
/// — each with its name, type and attached attributes — only their order
/// moves.
pub proof fn lemma_canon_table_preserves_columns(t: TableG)
    ensures
        canon_table(t).columns.to_multiset() == t.columns.to_multiset(),
        canon_table(t).columns.len() == t.columns.len(),
        forall|c: ColumnG| canon_table(t).columns.contains(c) <==> t.columns.contains(c),
{
    broadcast use vstd::seq_lib::group_to_multiset_ensures;

    lemma_spec_sort_ensures(t.columns);
    let c = canon_table(t).columns;
    assert forall|x: ColumnG| c.contains(x) <==> t.columns.contains(x) by {
        assert(c.to_multiset().count(x) == t.columns.to_multiset().count(x));
        assert(c.contains(x) <==> c.to_multiset().count(x) > 0);
        assert(t.columns.contains(x) <==> t.columns.to_multiset().count(x) > 0);
    }
}

/// Idempotence: a table invocation that is the emission of its own parse,
/// with its columns already in canonical order, canonicalizes to exactly
/// itself.
pub proof fn lemma_sort_columns_idempotent(attr: Seq<u8>, item: Seq<u8>, t: TableG)
    requires
        is_blank(attr),
        spec_table_invocation(item) matches Result::Ok(range) && spec_parse_table(
            item.subrange(range.0, range.1),
        ) == Result::<TableG, (ErrorKind, int)>::Ok(t),
        sorted_by_name(t.columns),
        item == emit_table(t),
    ensures
        spec_sort_columns(attr, item) == Result::<Seq<u8>, (ErrorKind, int)>::Ok(item),
{
    lemma_sort_of_sorted(t.columns);
    assert(canon_table(t) == t);
}

/// Name-uniqueness and well-formedness travel with the items, not their order.
proof fn lemma_wf_fields_of_multiset(a: Seq<FieldG>, b: Seq<FieldG>)
    requires
        a.to_multiset() == b.to_multiset(),
        forall|k: int| 0 <= k < b.len() ==> crate::roundtrip::wf_field(#[trigger] b[k]),
    ensures
        forall|k: int| 0 <= k < a.len() ==> crate::roundtrip::wf_field(#[trigger] a[k]),
{
    broadcast use vstd::seq_lib::group_to_multiset_ensures;

    assert forall|k: int| 0 <= k < a.len() implies crate::roundtrip::wf_field(
        #[trigger] a[k],
    ) by {
        assert(a.to_multiset().contains(a[k]));
        assert(b.to_multiset().contains(a[k]));
        let m = choose|m: int| 0 <= m < b.len() && b[m] == a[k];
        assert(crate::roundtrip::wf_field(b[m]));
    }
}

/// A canonicalized record is still well formed: only the order of its fields
/// moved.
pub proof fn lemma_canon_record_wf(r: RecordG)
    requires
        crate::roundtrip::wf_record(r),
    ensures
        crate::roundtrip::wf_record(canon_record(r)),
{
    lemma_spec_sort_ensures(r.fields);
    lemma_wf_fields_of_multiset(spec_sort(r.fields), r.fields);
}

/// Idempotence, in full: canonicalizing a record declaration once and then
/// canonicalizing the output returns the output byte for byte. Every accepted
/// parse is well formed, the output reparses to the sorted record (the round
/// trip), and the sort is its own fixed point.
pub proof fn lemma_sort_fields_idempotent(attr: Seq<u8>, item: Seq<u8>, r: RecordG)
    requires
        is_blank(attr),
        spec_parse_record(item) == Result::<RecordG, (ErrorKind, int)>::Ok(r),
    ensures
        spec_sort_fields(attr, item) is Ok,
        spec_sort_fields(attr, spec_sort_fields(attr, item)->Ok_0) == spec_sort_fields(
            attr,
            item,
        ),
{
    let out = emit_record(canon_record(r));
    crate::roundtrip::lemma_spec_parse_record_wf(item);
    lemma_canon_record_wf(r);
    crate::roundtrip::lemma_parse_emit_record(canon_record(r));
    lemma_canon_record_idempotent(r);
    assert(spec_parse_record(out) == Result::<RecordG, (ErrorKind, int)>::Ok(canon_record(r)));
    assert(spec_sort_fields(attr, out) == Result::<Seq<u8>, (ErrorKind, int)>::Ok(
        emit_record(canon_record(canon_record(r))),
    ));
}

/// Import and primary-key preservation: canonicalization never touches a
/// table's import statements, attributes, name or primary-key list.
pub proof fn lemma_canon_table_preserves_frame(t: TableG)
    ensures
        canon_table(t).uses == t.uses,
        canon_table(t).attrs == t.attrs,
        canon_table(t).name == t.name,
        canon_table(t).primary_key == t.primary_key,
{
}

} // verus!
