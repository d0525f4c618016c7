use json_typegen_shared::generation::typescript_type_alias::typescript_type_alias;
use json_typegen_shared::shape::{Options, Shape};

fn opts(use_default: bool) -> Options {
    Options { use_default_for_missing_fields: use_default }
}

#[test]
fn primitives_render_directly() {
    let cases = vec![
        (Shape::Null, "any"),
        (Shape::Any, "any"),
        (Shape::Bottom, "any"),
        (Shape::Bool, "boolean"),
        (Shape::StringT, "string"),
        (Shape::Integer, "number"),
        (Shape::Floating, "number"),
    ];
    for (shape, expected) in cases {
        let (ident, code) = typescript_type_alias("T", &shape, opts(false));
        assert_eq!(ident, "T");
        assert_eq!(code.unwrap(), format!("export type T = {};\n\n", expected));
    }
}

#[test]
fn homogeneous_tuple_collapses_to_sequence() {
    let shape = Shape::Tuple(vec![Shape::StringT, Shape::StringT], 2);
    let (_, code) = typescript_type_alias("Res", &shape, opts(false));
    assert_eq!(code.unwrap(), "export type Res = Array<string>;\n\n");
}

#[test]
fn mixed_tuple_stays_heterogeneous() {
    let shape = Shape::Tuple(vec![Shape::StringT, Shape::Integer], 2);
    let (_, code) = typescript_type_alias("Res", &shape, opts(false));
    assert_eq!(code.unwrap(), "export type Res = [string, number];\n\n");
}

#[test]
fn numeric_tuple_collapses_to_number_sequence() {
    let shape = Shape::Tuple(vec![Shape::Integer, Shape::Floating], 2);
    let (_, code) = typescript_type_alias("Res", &shape, opts(false));
    assert_eq!(code.unwrap(), "export type Res = Array<number>;\n\n");
}

#[test]
fn all_unconstrained_tuple_collapses() {
    let shape = Shape::Tuple(vec![Shape::Any, Shape::Any], 2);
    let (_, code) = typescript_type_alias("Res", &shape, opts(false));
    assert_eq!(code.unwrap(), "export type Res = Array<any>;\n\n");
}

#[test]
fn partly_unconstrained_tuple_stays_heterogeneous() {
    let shape = Shape::Tuple(vec![Shape::Any, Shape::StringT], 2);
    let (_, code) = typescript_type_alias("Res", &shape, opts(false));
    assert_eq!(code.unwrap(), "export type Res = [any, string];\n\n");
}

#[test]
fn empty_tuple_renders_as_sequence_of_any() {
    let shape = Shape::Tuple(vec![], 0);
    let (_, code) = typescript_type_alias("Res", &shape, opts(false));
    assert_eq!(code.unwrap(), "export type Res = Array<any>;\n\n");
}

#[test]
fn vec_and_map_wrap_inner_type() {
    let v = Shape::VecT { elem_type: Box::new(Shape::Bool) };
    let (_, code) = typescript_type_alias("V", &v, opts(false));
    assert_eq!(code.unwrap(), "export type V = Array<boolean>;\n\n");

    let m = Shape::MapT { val_type: Box::new(Shape::Integer) };
    let (_, code) = typescript_type_alias("M", &m, opts(false));
    assert_eq!(code.unwrap(), "export type M = { [key: string]: number };\n\n");
}

#[test]
fn opaque_passes_text_through() {
    let shape = Shape::Opaque("Date".to_string());
    let (_, code) = typescript_type_alias("Res", &shape, opts(false));
    assert_eq!(code.unwrap(), "export type Res = Date;\n\n");
}

#[test]
fn optional_unions_absent_type_unless_defaulted() {
    let shape = Shape::Optional(Box::new(Shape::Bool));
    let (_, code) = typescript_type_alias("Res", &shape, opts(false));
    assert_eq!(code.unwrap(), "export type Res = boolean | undefined;\n\n");

    let shape = Shape::Optional(Box::new(Shape::Bool));
    let (_, code) = typescript_type_alias("Res", &shape, opts(true));
    assert_eq!(code.unwrap(), "export type Res = boolean;\n\n");
}

#[test]
fn optional_field_marked_and_unioned() {
    let shape = Shape::Struct {
        fields: vec![
            ("id".to_string(), Shape::Integer),
            ("name".to_string(), Shape::Optional(Box::new(Shape::StringT))),
        ],
    };
    let (_, code) = typescript_type_alias("Res", &shape, opts(false));
    assert_eq!(
        code.unwrap(),
        "export type Res = {\n    id: number;\n    name?: string | undefined;\n};\n\n"
    );
}

#[test]
fn optional_field_with_defaulting_enabled() {
    let shape = Shape::Struct {
        fields: vec![
            ("id".to_string(), Shape::Integer),
            ("name".to_string(), Shape::Optional(Box::new(Shape::StringT))),
        ],
    };
    let (_, code) = typescript_type_alias("Res", &shape, opts(true));
    assert_eq!(code.unwrap(), "export type Res = {\n    id: number;\n    name?: string;\n};\n\n");
}

#[test]
fn field_order_is_preserved() {
    let shape = Shape::Struct {
        fields: vec![
            ("a".to_string(), Shape::Integer),
            ("b".to_string(), Shape::Integer),
            ("c".to_string(), Shape::Integer),
        ],
    };
    let (_, code) = typescript_type_alias("Res", &shape, opts(false));
    assert_eq!(
        code.unwrap(),
        "export type Res = {\n    a: number;\n    b: number;\n    c: number;\n};\n\n"
    );
}

#[test]
fn non_identifier_field_name_is_quoted() {
    let shape = Shape::Struct {
        fields: vec![
            ("foo-bar".to_string(), Shape::Bool),
            ("plain".to_string(), Shape::Bool),
            ("$ok_1".to_string(), Shape::Bool),
            ("1st".to_string(), Shape::Bool),
        ],
    };
    let (_, code) = typescript_type_alias("Res", &shape, opts(false));
    assert_eq!(
        code.unwrap(),
        "export type Res = {\n    \"foo-bar\": boolean;\n    plain: boolean;\n    $ok_1: boolean;\n    \"1st\": boolean;\n};\n\n"
    );
}

#[test]
fn empty_struct_has_no_interior_newline() {
    let shape = Shape::Struct { fields: vec![] };
    let (_, code) = typescript_type_alias("Res", &shape, opts(false));
    assert_eq!(code.unwrap(), "export type Res = {};\n\n");
}

#[test]
fn nested_struct_is_indented_one_level_deeper() {
    let inner = Shape::Struct { fields: vec![("x".to_string(), Shape::Integer)] };
    let outer = Shape::Struct { fields: vec![("inner".to_string(), inner)] };
    let (_, code) = typescript_type_alias("Res", &outer, opts(false));
    assert_eq!(
        code.unwrap(),
        "export type Res = {\n    inner: {\n        x: number;\n    };\n};\n\n"
    );
}

#[test]
fn generation_is_deterministic() {
    let shape = Shape::Struct {
        fields: vec![
            ("a".to_string(), Shape::Optional(Box::new(Shape::StringT))),
            ("b-2".to_string(), Shape::Tuple(vec![Shape::StringT, Shape::Integer], 2)),
        ],
    };
    let shape_again = Shape::Struct {
        fields: vec![
            ("a".to_string(), Shape::Optional(Box::new(Shape::StringT))),
            ("b-2".to_string(), Shape::Tuple(vec![Shape::StringT, Shape::Integer], 2)),
        ],
    };
    let (id1, code1) = typescript_type_alias("Res", &shape, opts(false));
    let (id2, code2) = typescript_type_alias("Res", &shape_again, opts(false));
    assert_eq!(id1, id2);
    assert_eq!(code1.unwrap(), code2.unwrap());
}

#[test]
fn structurally_equal_struct_tuple_collapses() {
    let a = Shape::Struct { fields: vec![("x".to_string(), Shape::Bool)] };
    let b = Shape::Struct { fields: vec![("x".to_string(), Shape::Bool)] };
    let shape = Shape::Tuple(vec![a, b], 2);
    let (_, code) = typescript_type_alias("Res", &shape, opts(false));
    assert_eq!(code.unwrap(), "export type Res = Array<{\n    x: boolean;\n}>;\n\n");
}
