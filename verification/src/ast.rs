//! The declaration model: records with named fields, and table schemas with
//! named columns. Names are identifiers held as bytes; attributes, types,
//! visibilities, generic-parameter lists and import statements are opaque
//! spans of the input, preserved verbatim.

use vstd::prelude::*;
use crate::order::NameKey;
use crate::order::Named;

verus! {

/// One named field of a record: attributes (kept attached), name, and the
/// field's type as an opaque span.
pub struct Field {
    pub attrs: Vec<Vec<u8>>,
    pub name: Vec<u8>,
    pub ty: Vec<u8>,
}

/// The mathematical value of a `Field`.
pub ghost struct FieldG {
    pub attrs: Seq<Seq<u8>>,
    pub name: Seq<u8>,
    pub ty: Seq<u8>,
}

impl View for Field {
    type V = FieldG;

    open spec fn view(&self) -> FieldG {
        FieldG { attrs: self.attrs.deep_view(), name: self.name@, ty: self.ty@ }
    }
}

impl DeepView for Field {
    type V = FieldG;

    open spec fn deep_view(&self) -> FieldG {
        self.view()
    }
}

impl NameKey for Field {
    open spec fn key(&self) -> Seq<u8> {
        self.name@
    }
}

impl Named for Field {
    fn name_bytes(&self) -> (k: &Vec<u8>) {
        &self.name
    }
}

impl NameKey for FieldG {
    open spec fn key(&self) -> Seq<u8> {
        self.name
    }
}

/// A record declaration: a struct with named fields.
pub struct Record {
    pub attrs: Vec<Vec<u8>>,
    pub vis: Vec<u8>,
    pub name: Vec<u8>,
    pub generics: Vec<u8>,
    pub fields: Vec<Field>,
}

/// The mathematical value of a `Record`.
pub ghost struct RecordG {
    pub attrs: Seq<Seq<u8>>,
    pub vis: Seq<u8>,
    pub name: Seq<u8>,
    pub generics: Seq<u8>,
    pub fields: Seq<FieldG>,
}

impl View for Record {
    type V = RecordG;

    open spec fn view(&self) -> RecordG {
        RecordG {
            attrs: self.attrs.deep_view(),
            vis: self.vis@,
            name: self.name@,
            generics: self.generics@,
            fields: self.fields.deep_view(),
        }
    }
}

/// A column's type: a bare name, or one name wrapped once around another
/// (`Outer<Inner>`). Deeper nesting is not part of the grammar.
pub enum ColumnType {
    Bare(Vec<u8>),
    Wrapped(Vec<u8>, Vec<u8>),
}

/// The mathematical value of a `ColumnType`.
pub ghost enum ColumnTypeG {
    Bare(Seq<u8>),
    Wrapped(Seq<u8>, Seq<u8>),
}

impl View for ColumnType {
    type V = ColumnTypeG;

    open spec fn view(&self) -> ColumnTypeG {
        match self {
            ColumnType::Bare(t) => ColumnTypeG::Bare(t@),
            ColumnType::Wrapped(outer, inner) => ColumnTypeG::Wrapped(outer@, inner@),
        }
    }
}

/// One named column of a table: attributes (kept attached), name, and type.
pub struct Column {
    pub attrs: Vec<Vec<u8>>,
    pub name: Vec<u8>,
    pub ty: ColumnType,
}

/// The mathematical value of a `Column`.
pub ghost struct ColumnG {
    pub attrs: Seq<Seq<u8>>,
    pub name: Seq<u8>,
    pub ty: ColumnTypeG,
}

impl View for Column {
    type V = ColumnG;

    open spec fn view(&self) -> ColumnG {
        ColumnG { attrs: self.attrs.deep_view(), name: self.name@, ty: self.ty@ }
    }
}

impl DeepView for Column {
    type V = ColumnG;

    open spec fn deep_view(&self) -> ColumnG {
        self.view()
    }
}

impl NameKey for Column {
    open spec fn key(&self) -> Seq<u8> {
        self.name@
    }
}

impl Named for Column {
    fn name_bytes(&self) -> (k: &Vec<u8>) {
        &self.name
    }
}

impl NameKey for ColumnG {
    open spec fn key(&self) -> Seq<u8> {
        self.name
    }
}

/// A table declaration: leading import statements, table-level attributes, the
/// table's name, an optional primary-key column list (order significant, never
/// reordered), and the columns.
pub struct Table {
    pub uses: Vec<Vec<u8>>,
    pub attrs: Vec<Vec<u8>>,
    pub name: Vec<u8>,
    pub primary_key: Option<Vec<Vec<u8>>>,
    pub columns: Vec<Column>,
}

/// The mathematical value of a `Table`.
pub ghost struct TableG {
    pub uses: Seq<Seq<u8>>,
    pub attrs: Seq<Seq<u8>>,
    pub name: Seq<u8>,
    pub primary_key: Option<Seq<Seq<u8>>>,
    pub columns: Seq<ColumnG>,
}

impl View for Table {
    type V = TableG;

    open spec fn view(&self) -> TableG {
        TableG {
            uses: self.uses.deep_view(),
            attrs: self.attrs.deep_view(),
            name: self.name@,
            primary_key: match self.primary_key {
                Option::Some(ids) => Option::Some(ids.deep_view()),
                Option::None => Option::None,
            },
            columns: self.columns.deep_view(),
        }
    }
}

} // verus!
