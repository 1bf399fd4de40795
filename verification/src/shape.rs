//! Shapes: what a reader expects to find, since XML text alone does not say
//! whether `5` is a number or a string.

use vstd::prelude::*;

verus! {

/// The kind of a primitive.
#[derive(Clone, Copy, Debug, PartialEq, Eq, Structural)]
pub enum ScalarKind {
    Bool,
    Int,
    Text,
}

/// The shape of a value.
#[derive(Debug, PartialEq, Eq)]
pub enum Shape {
    Scalar(ScalarKind),
    Struct { name: String, fields: Vec<FieldShape> },
    Enum { variants: Vec<VariantShape> },
    Sequence(Box<Shape>),
    Optional(Box<Shape>),
}

/// The shape of a field.
#[derive(Debug, PartialEq, Eq)]
pub struct FieldShape {
    pub name: String,
    pub shape: Shape,
    pub flatten: bool,
    pub omit_if_absent: bool,
}

/// One alternative of an enum shape.
#[derive(Debug, PartialEq, Eq)]
pub struct VariantShape {
    pub name: String,
    pub payload: PayloadShape,
}

/// The shape of what a variant carries.
#[derive(Debug, PartialEq, Eq)]
pub enum PayloadShape {
    Unit,
    Single(Box<Shape>),
    Struct(Vec<FieldShape>),
}

/// The mathematical model of a [`Shape`].
pub ghost enum ShapeModel {
    Scalar(ScalarKind),
    Struct { name: Seq<char>, fields: Seq<FieldShapeModel> },
    Enum { variants: Seq<VariantShapeModel> },
    Sequence(Box<ShapeModel>),
    Optional(Box<ShapeModel>),
}

/// The mathematical model of a [`FieldShape`].
pub ghost struct FieldShapeModel {
    pub name: Seq<char>,
    pub shape: ShapeModel,
    pub flatten: bool,
    pub omit_if_absent: bool,
}

/// The mathematical model of a [`VariantShape`].
pub ghost struct VariantShapeModel {
    pub name: Seq<char>,
    pub payload: PayloadShapeModel,
}

/// The mathematical model of a [`PayloadShape`].
pub ghost enum PayloadShapeModel {
    Unit,
    Single(Box<ShapeModel>),
    Struct(Seq<FieldShapeModel>),
}

/// The model of a shape.
pub open spec fn shape_model(s: Shape) -> ShapeModel
    decreases s,
{
    match s {
        Shape::Scalar(kind) => ShapeModel::Scalar(kind),
        Shape::Struct { name, fields } => ShapeModel::Struct {
            name: name@,
            fields: field_shapes_model(fields@),
        },
        Shape::Enum { variants } => ShapeModel::Enum { variants: variant_shapes_model(variants@) },
        Shape::Sequence(item) => ShapeModel::Sequence(Box::new(shape_model(*item))),
        Shape::Optional(inner) => ShapeModel::Optional(Box::new(shape_model(*inner))),
    }
}

/// The model of a field's shape.
pub open spec fn field_shape_model(f: FieldShape) -> FieldShapeModel
    decreases f,
{
    FieldShapeModel {
        name: f.name@,
        shape: shape_model(f.shape),
        flatten: f.flatten,
        omit_if_absent: f.omit_if_absent,
    }
}

/// The model of a variant's shape.
pub open spec fn variant_shape_model(v: VariantShape) -> VariantShapeModel
    decreases v,
{
    VariantShapeModel { name: v.name@, payload: payload_shape_model(v.payload) }
}

/// The model of a payload's shape.
pub open spec fn payload_shape_model(p: PayloadShape) -> PayloadShapeModel
    decreases p,
{
    match p {
        PayloadShape::Unit => PayloadShapeModel::Unit,
        PayloadShape::Single(inner) => PayloadShapeModel::Single(Box::new(shape_model(*inner))),
        PayloadShape::Struct(fields) => PayloadShapeModel::Struct(field_shapes_model(fields@)),
    }
}

/// The models of a sequence of field shapes, in order.
pub open spec fn field_shapes_model(fs: Seq<FieldShape>) -> Seq<FieldShapeModel>
    decreases fs,
{
    Seq::new(
        fs.len(),
        |i: int|
            if 0 <= i < fs.len() {
                field_shape_model(fs[i])
            } else {
                FieldShapeModel {
                    name: Seq::empty(),
                    shape: ShapeModel::Scalar(ScalarKind::Text),
                    flatten: false,
                    omit_if_absent: false,
                }
            },
    )
}

/// The models of a sequence of variant shapes, in order.
pub open spec fn variant_shapes_model(vs: Seq<VariantShape>) -> Seq<VariantShapeModel>
    decreases vs,
{
    Seq::new(
        vs.len(),
        |i: int|
            if 0 <= i < vs.len() {
                variant_shape_model(vs[i])
            } else {
                VariantShapeModel { name: Seq::empty(), payload: PayloadShapeModel::Unit }
            },
    )
}

impl View for Shape {
    type V = ShapeModel;

    open spec fn view(&self) -> ShapeModel {
        shape_model(*self)
    }
}

impl View for FieldShape {
    type V = FieldShapeModel;

    open spec fn view(&self) -> FieldShapeModel {
        field_shape_model(*self)
    }
}

impl View for VariantShape {
    type V = VariantShapeModel;

    open spec fn view(&self) -> VariantShapeModel {
        variant_shape_model(*self)
    }
}

impl View for PayloadShape {
    type V = PayloadShapeModel;

    open spec fn view(&self) -> PayloadShapeModel {
        payload_shape_model(*self)
    }
}

impl Shape {
    /// The shape of a string.
    pub fn text() -> (r: Shape)
        ensures
            r@ == ShapeModel::Scalar(ScalarKind::Text),
    {
        Shape::Scalar(ScalarKind::Text)
    }

    /// The shape of an integer.
    pub fn integer() -> (r: Shape)
        ensures
            r@ == ShapeModel::Scalar(ScalarKind::Int),
    {
        Shape::Scalar(ScalarKind::Int)
    }

    /// The shape of a boolean.
    pub fn boolean() -> (r: Shape)
        ensures
            r@ == ShapeModel::Scalar(ScalarKind::Bool),
    {
        Shape::Scalar(ScalarKind::Bool)
    }

    /// The shape of a struct with the given type name and fields.
    pub fn structure(name: &str, fields: Vec<FieldShape>) -> (r: Shape)
        ensures
            r@ == (ShapeModel::Struct { name: name@, fields: field_shapes_model(fields@) }),
    {
        Shape::Struct { name: name.to_owned(), fields }
    }

    /// The shape of an enum with the given variants.
    pub fn enumeration(variants: Vec<VariantShape>) -> (r: Shape)
        ensures
            r@ == (ShapeModel::Enum { variants: variant_shapes_model(variants@) }),
    {
        Shape::Enum { variants }
    }

    /// The shape of a sequence of items of the given shape.
    pub fn sequence(item: Shape) -> (r: Shape)
        ensures
            r@ == ShapeModel::Sequence(Box::new(item@)),
    {
        Shape::Sequence(Box::new(item))
    }

    /// The shape of a value of the given shape that may be absent.
    pub fn optional(inner: Shape) -> (r: Shape)
        ensures
            r@ == ShapeModel::Optional(Box::new(inner@)),
    {
        Shape::Optional(Box::new(inner))
    }
}

impl FieldShape {
    /// A field with an element of its own, written whatever its value.
    pub fn new(name: &str, shape: Shape) -> (r: FieldShape)
        ensures
            r@ == (FieldShapeModel {
                name: name@,
                shape: shape@,
                flatten: false,
                omit_if_absent: false,
            }),
    {
        FieldShape { name: name.to_owned(), shape, flatten: false, omit_if_absent: false }
    }

    /// A field with an element of its own, left out where its value is an
    /// absent optional.
    pub fn optional(name: &str, shape: Shape) -> (r: FieldShape)
        ensures
            r@ == (FieldShapeModel {
                name: name@,
                shape: shape@,
                flatten: false,
                omit_if_absent: true,
            }),
    {
        FieldShape { name: name.to_owned(), shape, flatten: false, omit_if_absent: true }
    }

    /// A field that stands for the body of the enclosing element, under
    /// the name `$value`.
    pub fn body(shape: Shape) -> (r: FieldShape)
        ensures
            r@ == (FieldShapeModel {
                name: crate::value::body_name(),
                shape: shape@,
                flatten: true,
                omit_if_absent: false,
            }),
    {
        FieldShape { name: "$value".to_owned(), shape, flatten: true, omit_if_absent: false }
    }
}

impl VariantShape {
    /// A variant that carries nothing.
    pub fn unit(name: &str) -> (r: VariantShape)
        ensures
            r@ == (VariantShapeModel { name: name@, payload: PayloadShapeModel::Unit }),
    {
        let payload = PayloadShape::Unit;
        assert(payload@ == PayloadShapeModel::Unit);
        VariantShape { name: name.to_owned(), payload }
    }

    /// A variant that carries one unnamed value.
    pub fn newtype(name: &str, shape: Shape) -> (r: VariantShape)
        ensures
            r@ == (VariantShapeModel {
                name: name@,
                payload: PayloadShapeModel::Single(Box::new(shape@)),
            }),
    {
        let payload = PayloadShape::Single(Box::new(shape));
        assert(payload@ == PayloadShapeModel::Single(Box::new(shape@)));
        VariantShape { name: name.to_owned(), payload }
    }

    /// A variant that carries named fields.
    pub fn structure(name: &str, fields: Vec<FieldShape>) -> (r: VariantShape)
        ensures
            r@ == (VariantShapeModel {
                name: name@,
                payload: PayloadShapeModel::Struct(field_shapes_model(fields@)),
            }),
    {
        let payload = PayloadShape::Struct(fields);
        assert(payload@ == PayloadShapeModel::Struct(field_shapes_model(fields@)));
        VariantShape { name: name.to_owned(), payload }
    }
}

} // verus!
