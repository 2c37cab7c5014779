use diesel_sort_struct_fields::error::ErrorKind;
use diesel_sort_struct_fields::{sort_columns, sort_fields};

fn bytes(s: &str) -> Vec<u8> {
    s.as_bytes().to_vec()
}

fn text(v: Vec<u8>) -> String {
    String::from_utf8(v).unwrap()
}

#[test]
fn record_two_fields_sorted() {
    let out = sort_fields(&bytes(""), &bytes("struct User { name: String, id: i32 }")).unwrap();
    assert_eq!(text(out), "struct User {\n    id: i32,\n    name: String,\n}");
}

#[test]
fn record_already_canonical_fixed_point() {
    let first = sort_fields(&bytes(""), &bytes("struct User { name: String, id: i32 }")).unwrap();
    let second = sort_fields(&bytes(""), &first).unwrap();
    assert_eq!(text(second), text(first));
}

#[test]
fn record_permutations_agree() {
    let a = sort_fields(&bytes(""), &bytes("struct T { a: u8, b: u16, c: u32 }")).unwrap();
    let b = sort_fields(&bytes(""), &bytes("struct T { b: u16, c: u32, a: u8 }")).unwrap();
    let c = sort_fields(&bytes(""), &bytes("struct T { c: u32, a: u8, b: u16 }")).unwrap();
    assert_eq!(text(a.clone()), "struct T {\n    a: u8,\n    b: u16,\n    c: u32,\n}");
    assert_eq!(a, b);
    assert_eq!(b, c);
}

#[test]
fn record_attrs_stay_attached() {
    let input = "#[derive(Queryable)]\nstruct User {\n    /// the full name\n    #[serde(rename = \"fullName\")]\n    name: String,\n    id: i32,\n}";
    let out = text(sort_fields(&bytes(""), &bytes(input)).unwrap());
    assert_eq!(
        out,
        "#[derive(Queryable)]\nstruct User {\n    id: i32,\n    /// the full name\n    #[serde(rename = \"fullName\")]\n    name: String,\n}"
    );
}

#[test]
fn record_visibility_and_generics_preserved() {
    let out = text(sort_fields(&bytes(""), &bytes("pub struct Pair<T> { b: T, a: i32 }")).unwrap());
    assert_eq!(out, "pub struct Pair<T> {\n    a: i32,\n    b: T,\n}");
}

#[test]
fn record_empty_braces() {
    let out = text(sort_fields(&bytes(""), &bytes("struct Empty {}")).unwrap());
    assert_eq!(out, "struct Empty {\n}");
}

#[test]
fn record_tuple_struct_rejected() {
    let err = sort_fields(&bytes(""), &bytes("struct Point(i32, i32);")).unwrap_err();
    assert_eq!(err.kind, ErrorKind::TupleStruct);
    assert_eq!(
        err.message(),
        "`sort_fields` is not allowed on tuple structs, only structs with named fields"
    );
}

#[test]
fn record_unit_struct_rejected() {
    let err = sort_fields(&bytes(""), &bytes("struct Unit;")).unwrap_err();
    assert_eq!(err.kind, ErrorKind::UnitStruct);
}

#[test]
fn record_enum_rejected() {
    let err = sort_fields(&bytes(""), &bytes("enum Color { Red, Green }")).unwrap_err();
    assert_eq!(err.kind, ErrorKind::EnumDecl);
}

#[test]
fn record_union_rejected() {
    let err = sort_fields(&bytes(""), &bytes("union U { a: i32, b: f32 }")).unwrap_err();
    assert_eq!(err.kind, ErrorKind::UnionDecl);
}

#[test]
fn record_config_argument_rejected() {
    let err = sort_fields(&bytes("some_arg"), &bytes("struct A { a: i32 }")).unwrap_err();
    assert_eq!(err.kind, ErrorKind::UnsupportedAttributes);
}

#[test]
fn record_blank_config_argument_accepted() {
    let out = sort_fields(&bytes("  \n"), &bytes("struct A { a: i32 }"));
    assert!(out.is_ok());
}

#[test]
fn record_missing_type_rejected() {
    let err = sort_fields(&bytes(""), &bytes("struct A { a: , b: u8 }")).unwrap_err();
    assert_eq!(err.kind, ErrorKind::Malformed);
}

#[test]
fn table_two_columns_sorted() {
    let out = text(
        sort_columns(&bytes(""), &bytes("table! { users { name -> Text, id -> Integer } }"))
            .unwrap(),
    );
    assert_eq!(
        out,
        "diesel::table! {\n    users {\n        id -> Integer,\n        name -> Text,\n    }\n}"
    );
}

#[test]
fn table_primary_key_preserved() {
    let out = text(
        sort_columns(
            &bytes(""),
            &bytes("table! { users (id, name) { name -> Text, id -> Integer } }"),
        )
        .unwrap(),
    );
    assert_eq!(
        out,
        "diesel::table! {\n    users (id, name) {\n        id -> Integer,\n        name -> Text,\n    }\n}"
    );
}

#[test]
fn table_wrapped_type_preserved() {
    let out = text(
        sort_columns(
            &bytes(""),
            &bytes("table! { users { name -> Nullable<VarChar>, id -> Integer } }"),
        )
        .unwrap(),
    );
    assert_eq!(
        out,
        "diesel::table! {\n    users {\n        id -> Integer,\n        name -> Nullable<VarChar>,\n    }\n}"
    );
}

#[test]
fn table_imports_preserved() {
    let out = text(
        sort_columns(
            &bytes(""),
            &bytes("table! { use diesel::sql_types::*; users { name -> Text, id -> Integer } }"),
        )
        .unwrap(),
    );
    assert_eq!(
        out,
        "diesel::table! {\n    use diesel::sql_types::*;\n    users {\n        id -> Integer,\n        name -> Text,\n    }\n}"
    );
}

#[test]
fn table_column_attrs_stay_attached() {
    let out = text(
        sort_columns(
            &bytes(""),
            &bytes("table! { users { /// display name\n name -> Text, id -> Integer } }"),
        )
        .unwrap(),
    );
    assert_eq!(
        out,
        "diesel::table! {\n    users {\n        id -> Integer,\n        /// display name\n        name -> Text,\n    }\n}"
    );
}

#[test]
fn table_on_function_rejected() {
    let err = sort_columns(&bytes(""), &bytes("fn foo() {}")).unwrap_err();
    assert_eq!(err.kind, ErrorKind::NotTableMacro);
    assert_eq!(err.message(), "`sort_columns` only works on the `diesel::table!` macro");
}

#[test]
fn table_wrong_macro_rejected() {
    let err = sort_columns(&bytes(""), &bytes("vec! { users { id -> Integer } }")).unwrap_err();
    assert_eq!(err.kind, ErrorKind::NotTableMacro);
}

#[test]
fn table_qualified_path_accepted() {
    let out = text(
        sort_columns(
            &bytes(""),
            &bytes("diesel::table! { users { b -> Text, a -> Integer } }"),
        )
        .unwrap(),
    );
    assert_eq!(
        out,
        "diesel::table! {\n    users {\n        a -> Integer,\n        b -> Text,\n    }\n}"
    );
}

#[test]
fn table_config_argument_rejected() {
    let err =
        sort_columns(&bytes("cfg"), &bytes("table! { users { id -> Integer } }")).unwrap_err();
    assert_eq!(err.kind, ErrorKind::UnsupportedAttributes);
    assert_eq!(err.message(), "this invocation doesn't support any attributes");
}

#[test]
fn table_already_canonical_fixed_point() {
    let first = sort_columns(
        &bytes(""),
        &bytes("table! { users (id) { name -> Text, id -> Integer } }"),
    )
    .unwrap();
    let second = sort_columns(&bytes(""), &first).unwrap();
    assert_eq!(text(second), text(first));
}

#[test]
fn table_permutations_agree() {
    let a = sort_columns(
        &bytes(""),
        &bytes("table! { t { a -> Integer, b -> Text, c -> Bool } }"),
    )
    .unwrap();
    let b = sort_columns(
        &bytes(""),
        &bytes("table! { t { c -> Bool, a -> Integer, b -> Text } }"),
    )
    .unwrap();
    assert_eq!(a, b);
}

#[test]
fn table_deep_nesting_rejected() {
    let err = sort_columns(&bytes(""), &bytes("table! { t { a -> Nullable<Array<Int4>> } }"))
        .unwrap_err();
    assert_eq!(err.kind, ErrorKind::Malformed);
}

#[test]
fn table_missing_arrow_rejected() {
    let err = sort_columns(&bytes(""), &bytes("table! { t { a Integer } }")).unwrap_err();
    assert_eq!(err.kind, ErrorKind::Malformed);
}
