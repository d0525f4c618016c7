//! The `Shape` descriptor tree, its mathematical model, and the structural
//! join used when a tuple's element shapes are merged.

use vstd::prelude::*;

verus! {

broadcast use vstd::std_specs::vec::group_vec_axioms;

/// Generation options; `use_default_for_missing_fields` controls how
/// `Optional` shapes are rendered.
pub struct Options {
    pub use_default_for_missing_fields: bool,
}

/// An inferred structural type summarizing a set of JSON sample values.
/// Struct fields are an ordered field-name/shape list; order is significant
/// and is preserved by generation.
pub enum Shape {
    Null,
    Any,
    Bottom,
    Bool,
    StringT,
    Integer,
    Floating,
    Tuple(Vec<Shape>, u64),
    VecT { elem_type: Box<Shape> },
    Struct { fields: Vec<(String, Shape)> },
    MapT { val_type: Box<Shape> },
    Opaque(String),
    Optional(Box<Shape>),
}

/// The mathematical model of a `Shape`: the same tree with text as `Seq<char>`
/// and lists as `Seq`. Contracts speak of this model, so structurally equal
/// shapes are interchangeable in every specification.
#[verifier::ext_equal]
pub enum ShapeModel {
    Null,
    Any,
    Bottom,
    Bool,
    StringT,
    Integer,
    Floating,
    Tuple(Seq<ShapeModel>, u64),
    VecT(Box<ShapeModel>),
    Struct(Seq<(Seq<char>, ShapeModel)>),
    MapT(Box<ShapeModel>),
    Opaque(Seq<char>),
    Optional(Box<ShapeModel>),
}

impl View for Shape {
    type V = ShapeModel;

    open spec fn view(&self) -> ShapeModel
        decreases self,
    {
        match self {
            Shape::Null => ShapeModel::Null,
            Shape::Any => ShapeModel::Any,
            Shape::Bottom => ShapeModel::Bottom,
            Shape::Bool => ShapeModel::Bool,
            Shape::StringT => ShapeModel::StringT,
            Shape::Integer => ShapeModel::Integer,
            Shape::Floating => ShapeModel::Floating,
            Shape::Tuple(elems, arity) => ShapeModel::Tuple(shapes_model(elems@), *arity),
            Shape::VecT { elem_type } => ShapeModel::VecT(Box::new((**elem_type)@)),
            Shape::Struct { fields } => ShapeModel::Struct(fields_model(fields@)),
            Shape::MapT { val_type } => ShapeModel::MapT(Box::new((**val_type)@)),
            Shape::Opaque(t) => ShapeModel::Opaque(t@),
            Shape::Optional(e) => ShapeModel::Optional(Box::new((**e)@)),
        }
    }
}

/// Models of a list of shapes, in order.
pub open spec fn shapes_model(v: Seq<Shape>) -> Seq<ShapeModel>
    decreases v,
{
    if v.len() == 0 {
        Seq::empty()
    } else {
        shapes_model(v.drop_last()).push(v.last()@)
    }
}

/// Models of an ordered field list, in order.
pub open spec fn fields_model(v: Seq<(String, Shape)>) -> Seq<(Seq<char>, ShapeModel)>
    decreases v,
{
    if v.len() == 0 {
        Seq::empty()
    } else {
        fields_model(v.drop_last()).push((v.last().0@, v.last().1@))
    }
}

/// `shapes_model` maps the list elementwise.
pub proof fn lemma_shapes_model_props(v: Seq<Shape>)
    ensures
        shapes_model(v).len() == v.len(),
        forall|i: int| 0 <= i < v.len() ==> #[trigger] shapes_model(v)[i] == v[i]@,
    decreases v,
{
    if v.len() > 0 {
        lemma_shapes_model_props(v.drop_last());
        assert(shapes_model(v) == shapes_model(v.drop_last()).push(v.last()@));
        assert forall|i: int| 0 <= i < v.len() implies #[trigger] shapes_model(v)[i] == v[i]@ by {
            if i < v.len() - 1 {
                assert(shapes_model(v)[i] == shapes_model(v.drop_last())[i]);
                assert(v.drop_last()[i] == v[i]);
            }
        }
    }
}

/// `fields_model` maps the list elementwise.
pub proof fn lemma_fields_model_props(v: Seq<(String, Shape)>)
    ensures
        fields_model(v).len() == v.len(),
        forall|i: int|
            0 <= i < v.len() ==> #[trigger] fields_model(v)[i] == (v[i].0@, v[i].1@),
    decreases v,
{
    if v.len() > 0 {
        lemma_fields_model_props(v.drop_last());
        assert(fields_model(v) == fields_model(v.drop_last()).push((v.last().0@, v.last().1@)));
        assert forall|i: int|
            0 <= i < v.len() implies #[trigger] fields_model(v)[i] == (v[i].0@, v[i].1@) by {
            if i < v.len() - 1 {
                assert(fields_model(v)[i] == fields_model(v.drop_last())[i]);
                assert(v.drop_last()[i] == v[i]);
            }
        }
    }
}

/// `shapes_model` commutes with `push`.
pub proof fn lemma_shapes_model_push(v: Seq<Shape>, x: Shape)
    ensures
        shapes_model(v.push(x)) == shapes_model(v).push(x@),
{
    assert(v.push(x).drop_last() =~= v);
    assert(v.push(x).last() == x);
}

/// The number of tree nodes of a shape; the termination measure of the
/// generator's traversal. Composite nodes weigh two so that a merged tuple
/// element is always strictly lighter than the tuple itself.
pub open spec fn size(s: ShapeModel) -> nat
    decreases s,
{
    match s {
        ShapeModel::Tuple(elems, _) => 2 + list_size(elems),
        ShapeModel::VecT(e) => 1 + size(*e),
        ShapeModel::MapT(e) => 1 + size(*e),
        ShapeModel::Optional(e) => 1 + size(*e),
        ShapeModel::Struct(fields) => 2 + fields_size(fields),
        _ => 1,
    }
}

pub open spec fn list_size(v: Seq<ShapeModel>) -> nat
    decreases v,
{
    if v.len() == 0 {
        0
    } else {
        list_size(v.drop_last()) + size(v.last())
    }
}

pub open spec fn fields_size(v: Seq<(Seq<char>, ShapeModel)>) -> nat
    decreases v,
{
    if v.len() == 0 {
        0
    } else {
        fields_size(v.drop_last()) + size(v.last().1)
    }
}

pub proof fn lemma_list_size_elem(v: Seq<ShapeModel>, i: int)
    requires
        0 <= i < v.len(),
    ensures
        size(v[i]) <= list_size(v),
    decreases v,
{
    if i < v.len() - 1 {
        lemma_list_size_elem(v.drop_last(), i);
        assert(v.drop_last()[i] == v[i]);
    }
}

pub proof fn lemma_fields_size_elem(v: Seq<(Seq<char>, ShapeModel)>, i: int)
    requires
        0 <= i < v.len(),
    ensures
        size(v[i].1) <= fields_size(v),
    decreases v,
{
    if i < v.len() - 1 {
        lemma_fields_size_elem(v.drop_last(), i);
        assert(v.drop_last()[i] == v[i]);
    }
}

/// A shape whose rendering recurses into subshapes.
pub open spec fn is_composite(s: ShapeModel) -> bool {
    s is Tuple || s is VecT || s is Struct || s is MapT || s is Optional
}

/// The join of two shapes, restricted to the distinctions the generator
/// draws: identical shapes merge to themselves, `Bottom` is the identity,
/// the two numeric shapes merge to `Floating`, and everything else merges
/// to the unconstrained `Any`.
pub open spec fn join_model(a: ShapeModel, b: ShapeModel) -> ShapeModel {
    if a == b {
        a
    } else if a is Bottom {
        b
    } else if b is Bottom {
        a
    } else if a is Integer && b is Floating {
        ShapeModel::Floating
    } else if a is Floating && b is Integer {
        ShapeModel::Floating
    } else {
        ShapeModel::Any
    }
}

/// The left fold of `join_model` over a list, starting from `Bottom`.
pub open spec fn fold_model(v: Seq<ShapeModel>) -> ShapeModel
    decreases v,
{
    if v.len() == 0 {
        ShapeModel::Bottom
    } else {
        join_model(fold_model(v.drop_last()), v.last())
    }
}

/// A composite fold result is one of the folded elements: the restricted
/// join never builds a new composite shape.
pub proof fn lemma_fold_composite(v: Seq<ShapeModel>)
    ensures
        is_composite(fold_model(v)) ==> exists|i: int| 0 <= i < v.len() && fold_model(v) == v[i],
    decreases v,
{
    if v.len() > 0 {
        lemma_fold_composite(v.drop_last());
        let f = fold_model(v);
        let fd = fold_model(v.drop_last());
        if is_composite(f) {
            if f == v.last() {
                assert(0 <= v.len() - 1 < v.len() && fold_model(v) == v[v.len() - 1]);
            } else {
                assert(f == fd);
                let j = choose|j: int| 0 <= j < v.drop_last().len() && fd == v.drop_last()[j];
                assert(v.drop_last()[j] == v[j]);
            }
        }
    }
}

/// The fold result never outweighs the folded list.
pub proof fn lemma_fold_size(v: Seq<ShapeModel>)
    ensures
        size(fold_model(v)) <= 1 + list_size(v),
{
    lemma_fold_composite(v);
    if is_composite(fold_model(v)) {
        let i = choose|i: int| 0 <= i < v.len() && fold_model(v) == v[i];
        lemma_list_size_elem(v, i);
    }
}

/// Structural equality of two shape trees.
#[verifier::loop_isolation(false)]
pub fn shape_eq(a: &Shape, b: &Shape) -> (r: bool)
    ensures
        r == (a@ == b@),
    decreases *a,
{
    match (a, b) {
        (Shape::Null, Shape::Null) => true,
        (Shape::Any, Shape::Any) => true,
        (Shape::Bottom, Shape::Bottom) => true,
        (Shape::Bool, Shape::Bool) => true,
        (Shape::StringT, Shape::StringT) => true,
        (Shape::Integer, Shape::Integer) => true,
        (Shape::Floating, Shape::Floating) => true,
        (Shape::Tuple(va, na), Shape::Tuple(vb, nb)) => {
            proof {
                lemma_shapes_model_props(va@);
                lemma_shapes_model_props(vb@);
            }
            if *na != *nb || va.len() != vb.len() {
                false
            } else {
                let mut i: usize = 0;
                let mut eq = true;
                while eq && i < va.len()
                    invariant
                        i <= va.len(),
                        va.len() == vb.len(),
                        eq ==> forall|k: int| 0 <= k < i ==> #[trigger] va@[k]@ == vb@[k]@,
                        !eq ==> i < va.len() && va@[i as int]@ != vb@[i as int]@,
                    decreases va.len() - i + (if eq { 1int } else { 0int }),
                {
                    proof {
                        assert(decreases_to!(*va => va@));
                        assert(decreases_to!(va@ => va@[i as int]));
                    }
                    if shape_eq(&va[i], &vb[i]) {
                        i = i + 1;
                    } else {
                        eq = false;
                    }
                }
                proof {
                    if eq {
                        assert(shapes_model(va@) =~= shapes_model(vb@));
                    } else {
                        assert(shapes_model(va@)[i as int] != shapes_model(vb@)[i as int]);
                    }
                }
                eq
            }
        },
        (Shape::VecT { elem_type: ea }, Shape::VecT { elem_type: eb }) => shape_eq(ea, eb),
        (Shape::Struct { fields: fa }, Shape::Struct { fields: fb }) => {
            proof {
                lemma_fields_model_props(fa@);
                lemma_fields_model_props(fb@);
            }
            if fa.len() != fb.len() {
                false
            } else {
                let mut i: usize = 0;
                let mut eq = true;
                while eq && i < fa.len()
                    invariant
                        i <= fa.len(),
                        fa.len() == fb.len(),
                        eq ==> (forall|k: int| 0 <= k < i ==> (#[trigger] fa@[k]).0@ == fb@[k].0@),
                        eq ==> (forall|k: int| 0 <= k < i ==> (#[trigger] fa@[k]).1@ == fb@[k].1@),
                        !eq ==> i < fa.len() && (fa@[i as int].0@ != fb@[i as int].0@
                            || fa@[i as int].1@ != fb@[i as int].1@),
                    decreases fa.len() - i + (if eq { 1int } else { 0int }),
                {
                    proof {
                        assert(decreases_to!(*fa => fa@));
                        assert(decreases_to!(fa@ => fa@[i as int]));
                    }
                    let names_eq = fa[i].0 == fb[i].0;
                    let mut both_eq = false;
                    if names_eq {
                        both_eq = shape_eq(&fa[i].1, &fb[i].1);
                    }
                    if both_eq {
                        proof {
                            assert(fa@[i as int].0@ == fb@[i as int].0@);
                            assert(fa@[i as int].1@ == fb@[i as int].1@);
                        }
                        i = i + 1;
                    } else {
                        eq = false;
                    }
                }
                proof {
                    if eq {
                        assert(fields_model(fa@) =~= fields_model(fb@));
                    } else {
                        assert(fields_model(fa@)[i as int] != fields_model(fb@)[i as int]);
                    }
                }
                eq
            }
        },
        (Shape::MapT { val_type: va }, Shape::MapT { val_type: vb }) => shape_eq(va, vb),
        (Shape::Opaque(ta), Shape::Opaque(tb)) => *ta == *tb,
        (Shape::Optional(ea), Shape::Optional(eb)) => shape_eq(ea, eb),
        _ => false,
    }
}

/// `fields_model` commutes with `push`.
pub proof fn lemma_fields_model_push(v: Seq<(String, Shape)>, x: (String, Shape))
    ensures
        fields_model(v.push(x)) == fields_model(v).push((x.0@, x.1@)),
{
    assert(v.push(x).drop_last() =~= v);
    assert(v.push(x).last() == x);
}

impl Shape {
    /// A deep copy: the copy has the same model as `self`.
    #[verifier::loop_isolation(false)]
    pub fn dup(&self) -> (r: Shape)
        ensures
            r@ == self@,
        decreases *self,
    {
        match self {
            Shape::Null => Shape::Null,
            Shape::Any => Shape::Any,
            Shape::Bottom => Shape::Bottom,
            Shape::Bool => Shape::Bool,
            Shape::StringT => Shape::StringT,
            Shape::Integer => Shape::Integer,
            Shape::Floating => Shape::Floating,
            Shape::Tuple(elems, arity) => {
                proof {
                    lemma_shapes_model_props(elems@);
                }
                let mut out: Vec<Shape> = Vec::new();
                let mut i: usize = 0;
                while i < elems.len()
                    invariant
                        i <= elems.len(),
                        shapes_model(out@) =~= shapes_model(elems@).take(i as int),
                    decreases elems.len() - i,
                {
                    proof {
                        assert(decreases_to!(*elems => elems@));
                        assert(decreases_to!(elems@ => elems@[i as int]));
                    }
                    let d = elems[i].dup();
                    let ghost prev = out@;
                    out.push(d);
                    proof {
                        lemma_shapes_model_push(prev, d);
                        assert(shapes_model(out@) =~= shapes_model(elems@).take(i + 1));
                    }
                    i = i + 1;
                }
                proof {
                    assert(shapes_model(elems@).take(elems@.len() as int) =~= shapes_model(
                        elems@,
                    ));
                }
                Shape::Tuple(out, *arity)
            },
            Shape::VecT { elem_type } => Shape::VecT { elem_type: Box::new(elem_type.dup()) },
            Shape::Struct { fields } => {
                proof {
                    lemma_fields_model_props(fields@);
                }
                let mut out: Vec<(String, Shape)> = Vec::new();
                let mut i: usize = 0;
                while i < fields.len()
                    invariant
                        i <= fields.len(),
                        fields_model(out@) =~= fields_model(fields@).take(i as int),
                    decreases fields.len() - i,
                {
                    proof {
                        assert(decreases_to!(*fields => fields@));
                        assert(decreases_to!(fields@ => fields@[i as int]));
                    }
                    let name = fields[i].0.clone();
                    let d = fields[i].1.dup();
                    let ghost prev = out@;
                    out.push((name, d));
                    proof {
                        lemma_fields_model_push(prev, (name, d));
                        assert(fields_model(out@) =~= fields_model(fields@).take(i + 1));
                    }
                    i = i + 1;
                }
                proof {
                    assert(fields_model(fields@).take(fields@.len() as int) =~= fields_model(
                        fields@,
                    ));
                }
                Shape::Struct { fields: out }
            },
            Shape::MapT { val_type } => Shape::MapT { val_type: Box::new(val_type.dup()) },
            Shape::Opaque(t) => Shape::Opaque(t.clone()),
            Shape::Optional(e) => Shape::Optional(Box::new(e.dup())),
        }
    }
}

/// The join of two shape trees (see `join_model`).
pub fn common_shape(a: &Shape, b: &Shape) -> (r: Shape)
    ensures
        r@ == join_model(a@, b@),
{
    if shape_eq(a, b) {
        a.dup()
    } else if matches!(a, Shape::Bottom) {
        b.dup()
    } else if matches!(b, Shape::Bottom) {
        a.dup()
    } else if matches!(a, Shape::Integer) && matches!(b, Shape::Floating) {
        Shape::Floating
    } else if matches!(a, Shape::Floating) && matches!(b, Shape::Integer) {
        Shape::Floating
    } else {
        Shape::Any
    }
}

/// The left fold of `common_shape` over a list of element shapes, starting
/// from `Bottom`.
#[verifier::loop_isolation(false)]
pub fn fold_shapes(shapes: &Vec<Shape>) -> (r: Shape)
    ensures
        r@ == fold_model(shapes_model(shapes@)),
{
    proof {
        lemma_shapes_model_props(shapes@);
    }
    let mut acc = Shape::Bottom;
    let mut i: usize = 0;
    while i < shapes.len()
        invariant
            i <= shapes.len(),
            acc@ == fold_model(shapes_model(shapes@).take(i as int)),
        decreases shapes.len() - i,
    {
        acc = common_shape(&acc, &shapes[i]);
        proof {
            let m = shapes_model(shapes@);
            assert(m.take(i + 1).drop_last() =~= m.take(i as int));
            assert(m.take(i + 1).last() == shapes@[i as int]@);
        }
        i = i + 1;
    }
    proof {
        assert(shapes_model(shapes@).take(shapes@.len() as int) =~= shapes_model(shapes@));
    }
    acc
}

/// Unwrapping exactly one `Optional` layer: the presence flag and the inner
/// shape.
pub open spec fn collapse_model(s: ShapeModel) -> (bool, ShapeModel) {
    match s {
        ShapeModel::Optional(inner) => (true, *inner),
        _ => (false, s),
    }
}

/// Unwraps exactly one `Optional` layer, returning whether one was present
/// and the shape inside it.
pub fn collapse_option<'a>(typ: &'a Shape) -> (r: (bool, &'a Shape))
    ensures
        r.0 == collapse_model(typ@).0,
        r.1@ == collapse_model(typ@).1,
{
    match typ {
        Shape::Optional(inner) => (true, &**inner),
        _ => (false, typ),
    }
}

/// How many indentation levels a rendering of `s` can open beyond the level
/// it starts at: one per nested struct.
pub open spec fn indent_depth(s: ShapeModel) -> nat
    decreases s,
{
    match s {
        ShapeModel::Tuple(elems, _) => list_indent_depth(elems),
        ShapeModel::VecT(e) => indent_depth(*e),
        ShapeModel::MapT(e) => indent_depth(*e),
        ShapeModel::Optional(e) => indent_depth(*e),
        ShapeModel::Struct(fields) => 1 + fields_indent_depth(fields),
        _ => 0,
    }
}

pub open spec fn list_indent_depth(v: Seq<ShapeModel>) -> nat
    decreases v,
{
    if v.len() == 0 {
        0
    } else if indent_depth(v.last()) > list_indent_depth(v.drop_last()) {
        indent_depth(v.last())
    } else {
        list_indent_depth(v.drop_last())
    }
}

pub open spec fn fields_indent_depth(v: Seq<(Seq<char>, ShapeModel)>) -> nat
    decreases v,
{
    if v.len() == 0 {
        0
    } else if indent_depth(v.last().1) > fields_indent_depth(v.drop_last()) {
        indent_depth(v.last().1)
    } else {
        fields_indent_depth(v.drop_last())
    }
}

pub proof fn lemma_list_indent_depth_elem(v: Seq<ShapeModel>, i: int)
    requires
        0 <= i < v.len(),
    ensures
        indent_depth(v[i]) <= list_indent_depth(v),
    decreases v,
{
    if i < v.len() - 1 {
        lemma_list_indent_depth_elem(v.drop_last(), i);
        assert(v.drop_last()[i] == v[i]);
    }
}

pub proof fn lemma_fields_indent_depth_elem(v: Seq<(Seq<char>, ShapeModel)>, i: int)
    requires
        0 <= i < v.len(),
    ensures
        indent_depth(v[i].1) <= fields_indent_depth(v),
    decreases v,
{
    if i < v.len() - 1 {
        lemma_fields_indent_depth_elem(v.drop_last(), i);
        assert(v.drop_last()[i] == v[i]);
    }
}

/// The fold of a tuple's elements never opens more indentation than the
/// deepest element.
pub proof fn lemma_fold_indent_depth(v: Seq<ShapeModel>)
    ensures
        indent_depth(fold_model(v)) <= list_indent_depth(v),
{
    lemma_fold_composite(v);
    if is_composite(fold_model(v)) {
        let i = choose|i: int| 0 <= i < v.len() && fold_model(v) == v[i];
        lemma_list_indent_depth_elem(v, i);
    }
}

} // verus!
