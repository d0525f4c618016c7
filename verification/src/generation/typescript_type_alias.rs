//! Renders a `Shape` as a TypeScript type alias declaration: one recursive
//! pass over the shape tree, producing text bottom-up.

use vstd::prelude::*;

verus! {

use vstd::string::StringExecFns;
use crate::shape::{Options, Shape, ShapeModel};
use crate::shape::{collapse_model, collapse_option, fold_model, fold_shapes};
use crate::shape::{fields_model, shapes_model, size, list_size, fields_size};
use crate::shape::{indent_depth, list_indent_depth, fields_indent_depth};
use crate::shape::{
    lemma_shapes_model_props, lemma_fields_model_props, lemma_list_size_elem,
    lemma_fields_size_elem, lemma_fold_size, lemma_fold_indent_depth, lemma_list_indent_depth_elem,
    lemma_fields_indent_depth_elem,
};
use crate::generation::typescript::{is_ts_identifier, is_ts_identifier_model};
use crate::text::{indent, join, spec_indent, spec_join, strs_model};
use crate::text::{join_offset, lemma_join_offsets_ordered, lemma_join_positions};

/// Per-call generation state: the options and the current indentation
/// depth, restored after every nested descent.
pub struct Ctxt {
    pub options: Options,
    pub indent_level: usize,
}

pub type Ident = String;

pub type Code = String;

/// The rendering of a shape whose code carries no nested rendering.
pub open spec fn prim_code(s: ShapeModel) -> Seq<char> {
    match s {
        ShapeModel::Bool => "boolean"@,
        ShapeModel::StringT => "string"@,
        ShapeModel::Integer => "number"@,
        ShapeModel::Floating => "number"@,
        ShapeModel::Opaque(t) => t,
        _ => "any"@,
    }
}

/// The TypeScript type expression for `s`, rendered with `d` as the
/// "use a default for missing fields" option and `ind` as the current
/// indentation depth.
pub open spec fn type_code(d: bool, ind: nat, s: ShapeModel) -> Seq<char>
    decreases size(s), 0nat,
{
    match s {
        ShapeModel::Tuple(elems, _) => {
            let folded = fold_model(elems);
            if folded is Any && !(forall|i: int|
                0 <= i < elems.len() ==> (#[trigger] elems[i]) is Any) {
                tuple_code(d, ind, elems)
            } else {
                proof {
                    lemma_fold_size(elems);
                }
                seq_code(d, ind, folded)
            }
        },
        ShapeModel::VecT(e) => seq_code(d, ind, *e),
        ShapeModel::Struct(fields) => struct_code(d, ind, fields),
        ShapeModel::MapT(v) => map_code(d, ind, *v),
        ShapeModel::Optional(e) => if d {
            type_code(d, ind, *e)
        } else {
            type_code(d, ind, *e) + " | undefined"@
        },
        _ => prim_code(s),
    }
}

/// A homogeneous sequence type around the element rendering.
pub open spec fn seq_code(d: bool, ind: nat, s: ShapeModel) -> Seq<char>
    decreases size(s), 1nat,
{
    "Array<"@ + type_code(d, ind, s) + ">"@
}

/// A string-keyed dictionary type around the value rendering.
pub open spec fn map_code(d: bool, ind: nat, s: ShapeModel) -> Seq<char>
    decreases size(s), 1nat,
{
    "{ [key: string]: "@ + type_code(d, ind, s) + " }"@
}

/// The renderings of a list of element shapes, in order.
pub open spec fn type_codes(d: bool, ind: nat, elems: Seq<ShapeModel>) -> Seq<Seq<char>>
    decreases list_size(elems), 1nat,
{
    if elems.len() == 0 {
        Seq::empty()
    } else {
        type_codes(d, ind, elems.drop_last()).push(type_code(d, ind, elems.last()))
    }
}

/// A fixed-length heterogeneous tuple type listing each element rendering
/// in order.
pub open spec fn tuple_code(d: bool, ind: nat, elems: Seq<ShapeModel>) -> Seq<char>
    decreases list_size(elems), 2nat,
{
    "["@ + spec_join(", "@, type_codes(d, ind, elems)) + "]"@
}

/// One struct member line: indentation, the field name (quoted unless it is
/// a bare identifier), an optional marker when one `Optional` layer was
/// collapsed, and the field's rendering one level deeper; a collapsed field
/// is also unioned with the absent type unless missing fields are
/// defaulted.
pub open spec fn member_line(d: bool, ind: nat, name: Seq<char>, s: ShapeModel) -> Seq<char>
    decreases size(s), 2nat,
{
    let c = collapse_model(s);
    let shown = if is_ts_identifier_model(name) {
        name
    } else {
        "\""@ + name + "\""@
    };
    let marker = if c.0 {
        "?"@
    } else {
        Seq::<char>::empty()
    };
    let absent = if c.0 && !d {
        " | undefined"@
    } else {
        Seq::<char>::empty()
    };
    spec_indent(ind) + shown + marker + ": "@ + type_code(d, ind + 1, c.1) + absent + ";"@
}

/// The member lines of a struct, one per field, in field order.
pub open spec fn member_lines(d: bool, ind: nat, fields: Seq<(Seq<char>, ShapeModel)>) -> Seq<
    Seq<char>,
>
    decreases fields_size(fields), 3nat,
{
    if fields.len() == 0 {
        Seq::empty()
    } else {
        member_lines(d, ind, fields.drop_last()).push(
            member_line(d, ind, fields.last().0, fields.last().1),
        )
    }
}

/// A struct type: braces around newline-joined member lines, the closing
/// brace dedented one level; an empty struct is empty braces with no
/// interior newline.
pub open spec fn struct_code(d: bool, ind: nat, fields: Seq<(Seq<char>, ShapeModel)>) -> Seq<char>
    decreases fields_size(fields), 4nat,
{
    if fields.len() == 0 {
        "{}"@
    } else {
        "{\n"@ + spec_join("\n"@, member_lines(d, ind, fields)) + "\n"@ + spec_indent(
            (ind - 1) as nat,
        ) + "}"@
    }
}

/// The full declaration text emitted for one named alias.
pub open spec fn alias_code(name: Seq<char>, d: bool, s: ShapeModel) -> Seq<char> {
    "export type "@ + name + " = "@ + type_code(d, 1, s) + ";\n\n"@
}

/// Renders the type expression for `shape` at the context's indentation
/// depth, leaving the context as it found it.
#[verifier::loop_isolation(false)]
pub fn type_from_shape(ctxt: &mut Ctxt, shape: &Shape) -> (r: Code)
    requires
        old(ctxt).indent_level >= 1,
        old(ctxt).indent_level + indent_depth(shape@) <= usize::MAX,
    ensures
        *final(ctxt) == *old(ctxt),
        r@ == type_code(
            old(ctxt).options.use_default_for_missing_fields,
            old(ctxt).indent_level as nat,
            shape@,
        ),
    decreases size(shape@), 0nat,
{
    match shape {
        Shape::Null => "any".to_owned(),
        Shape::Any => "any".to_owned(),
        Shape::Bottom => "any".to_owned(),
        Shape::Bool => "boolean".to_owned(),
        Shape::StringT => "string".to_owned(),
        Shape::Integer => "number".to_owned(),
        Shape::Floating => "number".to_owned(),
        Shape::Tuple(shapes, _n) => {
            proof {
                lemma_shapes_model_props(shapes@);
            }
            let ghost m = shapes_model(shapes@);
            let folded = fold_shapes(shapes);
            let mut has_non_any = false;
            let mut i: usize = 0;
            while i < shapes.len()
                invariant
                    i <= shapes.len(),
                    has_non_any == !(forall|k: int|
                        0 <= k < i ==> (#[trigger] m[k]) is Any),
                decreases shapes.len() - i,
            {
                let elem_any = matches!(&shapes[i], Shape::Any);
                proof {
                    assert(elem_any == (m[i as int] is Any));
                    if has_non_any {
                        let k = choose|k: int| 0 <= k < i && !((#[trigger] m[k]) is Any);
                        assert(0 <= k < i + 1 && !(m[k] is Any));
                    }
                }
                if !elem_any {
                    has_non_any = true;
                }
                i = i + 1;
            }
            proof {
                lemma_fold_size(m);
                lemma_fold_indent_depth(m);
            }
            if matches!(&folded, Shape::Any) && has_non_any {
                generate_tuple_type(ctxt, shapes)
            } else {
                generate_vec_type(ctxt, &folded)
            }
        },
        Shape::VecT { elem_type } => generate_vec_type(ctxt, elem_type),
        Shape::Struct { fields } => generate_struct_from_field_shapes(ctxt, fields),
        Shape::MapT { val_type } => generate_map_type(ctxt, val_type),
        Shape::Opaque(t) => t.clone(),
        Shape::Optional(e) => {
            let inner = type_from_shape(ctxt, e);
            if ctxt.options.use_default_for_missing_fields {
                inner
            } else {
                let mut r = inner;
                r.append(" | undefined");
                r
            }
        },
    }
}

/// Renders a homogeneous sequence type around `shape`'s rendering.
pub fn generate_vec_type(ctxt: &mut Ctxt, shape: &Shape) -> (r: Code)
    requires
        old(ctxt).indent_level >= 1,
        old(ctxt).indent_level + indent_depth(shape@) <= usize::MAX,
    ensures
        *final(ctxt) == *old(ctxt),
        r@ == seq_code(
            old(ctxt).options.use_default_for_missing_fields,
            old(ctxt).indent_level as nat,
            shape@,
        ),
    decreases size(shape@), 1nat,
{
    let inner = type_from_shape(ctxt, shape);
    let mut r = "Array<".to_owned();
    r.append(inner.as_str());
    r.append(">");
    r
}

/// Renders a string-keyed dictionary type around `shape`'s rendering.
pub fn generate_map_type(ctxt: &mut Ctxt, shape: &Shape) -> (r: Code)
    requires
        old(ctxt).indent_level >= 1,
        old(ctxt).indent_level + indent_depth(shape@) <= usize::MAX,
    ensures
        *final(ctxt) == *old(ctxt),
        r@ == map_code(
            old(ctxt).options.use_default_for_missing_fields,
            old(ctxt).indent_level as nat,
            shape@,
        ),
    decreases size(shape@), 1nat,
{
    let inner = type_from_shape(ctxt, shape);
    let mut r = "{ [key: string]: ".to_owned();
    r.append(inner.as_str());
    r.append(" }");
    r
}

/// Renders a fixed-length heterogeneous tuple type, each element in order.
#[verifier::loop_isolation(false)]
pub fn generate_tuple_type(ctxt: &mut Ctxt, shapes: &Vec<Shape>) -> (r: Code)
    requires
        old(ctxt).indent_level >= 1,
        old(ctxt).indent_level + list_indent_depth(shapes_model(shapes@)) <= usize::MAX,
    ensures
        *final(ctxt) == *old(ctxt),
        r@ == tuple_code(
            old(ctxt).options.use_default_for_missing_fields,
            old(ctxt).indent_level as nat,
            shapes_model(shapes@),
        ),
    decreases list_size(shapes_model(shapes@)), 2nat,
{
    proof {
        lemma_shapes_model_props(shapes@);
    }
    let ghost m = shapes_model(shapes@);
    let ghost d = old(ctxt).options.use_default_for_missing_fields;
    let ghost ind = old(ctxt).indent_level as nat;
    let mut types: Vec<String> = Vec::new();
    let mut i: usize = 0;
    while i < shapes.len()
        invariant
            i <= shapes.len(),
            *ctxt == *old(ctxt),
            strs_model(types@) =~= type_codes(d, ind, m.take(i as int)),
        decreases shapes.len() - i,
    {
        proof {
            lemma_list_size_elem(m, i as int);
            lemma_list_indent_depth_elem(m, i as int);
        }
        let typ = type_from_shape(ctxt, &shapes[i]);
        types.push(typ);
        proof {
            assert(m.take(i + 1).drop_last() =~= m.take(i as int));
            assert(m.take(i + 1).last() == m[i as int]);
            assert(strs_model(types@) =~~= type_codes(d, ind, m.take(i + 1)));
        }
        i = i + 1;
    }
    proof {
        assert(m.take(m.len() as int) =~= m);
    }
    let joined = join(", ", &types);
    let mut r = "[".to_owned();
    r.append(joined.as_str());
    r.append("]");
    r
}

/// Renders a struct type: one member line per field, in field order, at one
/// deeper indentation level; quoting is decided per field.
#[verifier::loop_isolation(false)]
pub fn generate_struct_from_field_shapes(ctxt: &mut Ctxt, fields: &Vec<(String, Shape)>) -> (r:
    Code)
    requires
        old(ctxt).indent_level >= 1,
        old(ctxt).indent_level + 1 + fields_indent_depth(fields_model(fields@)) <= usize::MAX,
    ensures
        *final(ctxt) == *old(ctxt),
        r@ == struct_code(
            old(ctxt).options.use_default_for_missing_fields,
            old(ctxt).indent_level as nat,
            fields_model(fields@),
        ),
    decreases fields_size(fields_model(fields@)), 3nat,
{
    proof {
        lemma_fields_model_props(fields@);
    }
    let ghost fm = fields_model(fields@);
    let ghost d = old(ctxt).options.use_default_for_missing_fields;
    let ghost ind = old(ctxt).indent_level as nat;
    let mut lines: Vec<String> = Vec::new();
    let mut i: usize = 0;
    while i < fields.len()
        invariant
            i <= fields.len(),
            *ctxt == *old(ctxt),
            strs_model(lines@) =~= member_lines(d, ind, fm.take(i as int)),
        decreases fields.len() - i,
    {
        proof {
            lemma_fields_size_elem(fm, i as int);
            lemma_fields_indent_depth_elem(fm, i as int);
        }
        let pair = &fields[i];
        let (was_optional, collapsed) = collapse_option(&pair.1);
        ctxt.indent_level = ctxt.indent_level + 1;
        let field_type = type_from_shape(ctxt, collapsed);
        ctxt.indent_level = ctxt.indent_level - 1;
        let escape_name = !is_ts_identifier(pair.0.as_str());
        let mut line = indent(ctxt.indent_level);
        if escape_name {
            line.append("\"");
        }
        line.append(pair.0.as_str());
        if escape_name {
            line.append("\"");
        }
        if was_optional {
            line.append("?");
        }
        line.append(": ");
        line.append(field_type.as_str());
        if was_optional && !ctxt.options.use_default_for_missing_fields {
            line.append(" | undefined");
        }
        line.append(";");
        lines.push(line);
        proof {
            assert(line@ == member_line(d, ind, fm[i as int].0, fm[i as int].1));
            assert(fm.take(i + 1).drop_last() =~= fm.take(i as int));
            assert(fm.take(i + 1).last() == fm[i as int]);
            assert(strs_model(lines@) =~~= member_lines(d, ind, fm.take(i + 1)));
        }
        i = i + 1;
    }
    proof {
        assert(fm.take(fm.len() as int) =~= fm);
    }
    if lines.len() == 0 {
        return "{}".to_owned();
    }
    let mut code = "{\n".to_owned();
    let joined = join("\n", &lines);
    code.append(joined.as_str());
    code.append("\n");
    let closing = indent(ctxt.indent_level - 1);
    code.append(closing.as_str());
    code.append("}");
    code
}

/// Generates the full alias declaration for `shape` under `name`: returns
/// the identifier and the declaration text, which is a pure function of the
/// inputs (see `lemma_generation_deterministic`).
pub fn typescript_type_alias(name: &str, shape: &Shape, options: Options) -> (r: (
    Ident,
    Option<Code>,
))
    requires
        1 + indent_depth(shape@) <= usize::MAX,
    ensures
        r.0@ == name@,
        r.1 is Some,
        r.1 matches Some(code) ==> code@ == alias_code(
            name@,
            options.use_default_for_missing_fields,
            shape@,
        ),
{
    let mut ctxt = Ctxt { options, indent_level: 1 };
    let code = type_from_shape(&mut ctxt, shape);
    let mut out = "export type ".to_owned();
    out.append(name);
    out.append(" = ");
    out.append(code.as_str());
    out.append(";\n\n");
    (name.to_owned(), Some(out))
}

/// Generation is deterministic: the declaration text is a function of the
/// name, the options and the shape alone, so identical inputs yield
/// byte-identical output.
pub proof fn lemma_generation_deterministic(
    name: Seq<char>,
    d: bool,
    s: ShapeModel,
    c1: Seq<char>,
    c2: Seq<char>,
)
    requires
        c1 == alias_code(name, d, s),
        c2 == alias_code(name, d, s),
    ensures
        c1 == c2,
{
}

/// Struct field order is preserved end-to-end: a struct's rendering holds
/// one member line per field, and the i-th line renders the i-th field.
pub proof fn lemma_member_lines_in_order(d: bool, ind: nat, fields: Seq<(Seq<char>, ShapeModel)>)
    ensures
        member_lines(d, ind, fields).len() == fields.len(),
        forall|i: int|
            0 <= i < fields.len() ==> #[trigger] member_lines(d, ind, fields)[i] == member_line(
                d,
                ind,
                fields[i].0,
                fields[i].1,
            ),
    decreases fields,
{
    if fields.len() > 0 {
        lemma_member_lines_in_order(d, ind, fields.drop_last());
        assert forall|i: int|
            0 <= i < fields.len() implies #[trigger] member_lines(d, ind, fields)[i]
            == member_line(d, ind, fields[i].0, fields[i].1) by {
            if i < fields.len() - 1 {
                assert(member_lines(d, ind, fields)[i] == member_lines(
                    d,
                    ind,
                    fields.drop_last(),
                )[i]);
                assert(fields.drop_last()[i] == fields[i]);
            }
        }
    }
}

/// A field name that is a bare identifier is emitted unquoted; any other
/// field name is emitted in double quotes.
pub proof fn lemma_member_name_quoting(d: bool, ind: nat, name: Seq<char>, s: ShapeModel)
    ensures
        is_ts_identifier_model(name) ==> member_line(d, ind, name, s) == spec_indent(ind) + name
            + (if collapse_model(s).0 {
                "?"@
            } else {
                Seq::<char>::empty()
            }) + ": "@ + type_code(d, ind + 1, collapse_model(s).1) + (if collapse_model(s).0
            && !d {
                " | undefined"@
            } else {
                Seq::<char>::empty()
            }) + ";"@,
        !is_ts_identifier_model(name) ==> member_line(d, ind, name, s) == spec_indent(ind) + ("\""@
            + name + "\""@) + (if collapse_model(s).0 {
                "?"@
            } else {
                Seq::<char>::empty()
            }) + ": "@ + type_code(d, ind + 1, collapse_model(s).1) + (if collapse_model(s).0
            && !d {
                " | undefined"@
            } else {
                Seq::<char>::empty()
            }) + ";"@,
{
}


/// Struct field order is preserved end-to-end: in a struct's rendering the
/// member line of field `i` stands unchanged at its offset, and the offset
/// of field `i + 1` lies beyond it, so the declaration lists the members in
/// field order.
pub proof fn lemma_struct_field_order(
    d: bool,
    ind: nat,
    fields: Seq<(Seq<char>, ShapeModel)>,
    i: int,
)
    requires
        0 <= i < fields.len(),
    ensures
        ({
            let lines = member_lines(d, ind, fields);
            let off = 2 + join_offset("\n"@, lines, i);
            &&& 2 <= off
            &&& off + lines[i].len() <= struct_code(d, ind, fields).len()
            &&& struct_code(d, ind, fields).subrange(off, off + lines[i].len()) =~= member_line(
                d,
                ind,
                fields[i].0,
                fields[i].1,
            )
            &&& i + 1 < fields.len() ==> off + lines[i].len() <= 2 + join_offset(
                "\n"@,
                lines,
                i + 1,
            )
        }),
{
    reveal_strlit("{\n");
    let lines = member_lines(d, ind, fields);
    lemma_member_lines_in_order(d, ind, fields);
    lemma_join_positions("\n"@, lines, i);
    if i + 1 < fields.len() {
        lemma_join_offsets_ordered("\n"@, lines, i, i + 1);
    }
    let joined = spec_join("\n"@, lines);
    let o = join_offset("\n"@, lines, i);
    let code = struct_code(d, ind, fields);
    assert(code == "{\n"@ + joined + "\n"@ + spec_indent((ind - 1) as nat) + "}"@);
    assert(code.subrange(2 + o, 2 + o + lines[i].len()) =~= joined.subrange(
        o,
        o + lines[i].len(),
    ));
}

} // verus!
