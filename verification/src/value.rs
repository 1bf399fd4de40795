//! The typed value model: what can be written as XML and read back.

use vstd::prelude::*;

verus! {

/// A primitive value, which becomes the text of an element.
#[derive(Debug, PartialEq, Eq)]
pub enum Scalar {
    Bool(bool),
    Int(i64),
    Text(String),
}

/// A value of the model.
#[derive(Debug, PartialEq, Eq)]
pub enum Value {
    /// A primitive.
    Scalar(Scalar),
    /// A struct: a type name and named fields, in declaration order.
    Struct { name: String, fields: Vec<Field> },
    /// One alternative of an enum, under the variant's name.
    Variant { name: String, payload: Payload },
    /// An ordered sequence of values. It has no tag of its own.
    Sequence(Vec<Value>),
    /// A value that may be absent. A present value is written exactly as
    /// the value itself.
    Optional(Option<Box<Value>>),
}

/// What a variant carries.
#[derive(Debug, PartialEq, Eq)]
pub enum Payload {
    /// Nothing.
    Unit,
    /// One unnamed value.
    Single(Box<Value>),
    /// Named fields.
    Struct(Vec<Field>),
}

/// A field of a struct or of a struct-like variant.
#[derive(Debug, PartialEq, Eq)]
pub struct Field {
    /// The field's name, after any renaming: the tag of its element.
    pub name: String,
    pub value: Value,
    /// The field stands for the body of the enclosing element: its value is
    /// written directly under the enclosing tag, with no element of its own.
    pub flatten: bool,
    /// When the value is an absent optional, nothing at all is written.
    pub omit_if_absent: bool,
}

/// The mathematical model of a [`Scalar`].
pub ghost enum ScalarModel {
    Bool(bool),
    Int(int),
    Text(Seq<char>),
}

/// The mathematical model of a [`Value`].
pub ghost enum ValueModel {
    Scalar(ScalarModel),
    Struct { name: Seq<char>, fields: Seq<FieldModel> },
    Variant { name: Seq<char>, payload: PayloadModel },
    Sequence(Seq<ValueModel>),
    Optional(Option<Box<ValueModel>>),
}

/// The mathematical model of a [`Payload`].
pub ghost enum PayloadModel {
    Unit,
    Single(Box<ValueModel>),
    Struct(Seq<FieldModel>),
}

/// The mathematical model of a [`Field`].
pub ghost struct FieldModel {
    pub name: Seq<char>,
    pub value: ValueModel,
    pub flatten: bool,
    pub omit_if_absent: bool,
}

/// The model of a value.
pub open spec fn value_model(v: Value) -> ValueModel
    decreases v,
{
    match v {
        Value::Scalar(s) => ValueModel::Scalar(s@),
        Value::Struct { name, fields } => ValueModel::Struct {
            name: name@,
            fields: fields_model(fields@),
        },
        Value::Variant { name, payload } => ValueModel::Variant {
            name: name@,
            payload: payload_model(payload),
        },
        Value::Sequence(items) => ValueModel::Sequence(values_model(items@)),
        Value::Optional(None) => ValueModel::Optional(None),
        Value::Optional(Some(inner)) => ValueModel::Optional(Some(Box::new(value_model(*inner)))),
    }
}

/// The model of a payload.
pub open spec fn payload_model(p: Payload) -> PayloadModel
    decreases p,
{
    match p {
        Payload::Unit => PayloadModel::Unit,
        Payload::Single(inner) => PayloadModel::Single(Box::new(value_model(*inner))),
        Payload::Struct(fields) => PayloadModel::Struct(fields_model(fields@)),
    }
}

/// The model of a field.
pub open spec fn field_model(f: Field) -> FieldModel
    decreases f,
{
    FieldModel {
        name: f.name@,
        value: value_model(f.value),
        flatten: f.flatten,
        omit_if_absent: f.omit_if_absent,
    }
}

/// The models of a sequence of values, in order.
pub open spec fn values_model(vs: Seq<Value>) -> Seq<ValueModel>
    decreases vs,
{
    Seq::new(
        vs.len(),
        |i: int|
            if 0 <= i < vs.len() {
                value_model(vs[i])
            } else {
                ValueModel::Optional(None)
            },
    )
}

/// The models of a sequence of fields, in order.
pub open spec fn fields_model(fs: Seq<Field>) -> Seq<FieldModel>
    decreases fs,
{
    Seq::new(
        fs.len(),
        |i: int|
            if 0 <= i < fs.len() {
                field_model(fs[i])
            } else {
                FieldModel {
                    name: Seq::empty(),
                    value: ValueModel::Optional(None),
                    flatten: false,
                    omit_if_absent: false,
                }
            },
    )
}

impl View for Scalar {
    type V = ScalarModel;

    open spec fn view(&self) -> ScalarModel {
        match self {
            Scalar::Bool(b) => ScalarModel::Bool(*b),
            Scalar::Int(n) => ScalarModel::Int(*n as int),
            Scalar::Text(s) => ScalarModel::Text(s@),
        }
    }
}

impl View for Value {
    type V = ValueModel;

    open spec fn view(&self) -> ValueModel {
        value_model(*self)
    }
}

impl View for Payload {
    type V = PayloadModel;

    open spec fn view(&self) -> PayloadModel {
        payload_model(*self)
    }
}

impl View for Field {
    type V = FieldModel;

    open spec fn view(&self) -> FieldModel {
        field_model(*self)
    }
}

impl Value {
    /// A string.
    pub fn text(s: &str) -> (r: Value)
        ensures
            r@ == ValueModel::Scalar(ScalarModel::Text(s@)),
    {
        Value::Scalar(Scalar::Text(s.to_owned()))
    }

    /// An integer.
    pub fn integer(n: i64) -> (r: Value)
        ensures
            r@ == ValueModel::Scalar(ScalarModel::Int(n as int)),
    {
        Value::Scalar(Scalar::Int(n))
    }

    /// A boolean.
    pub fn boolean(b: bool) -> (r: Value)
        ensures
            r@ == ValueModel::Scalar(ScalarModel::Bool(b)),
    {
        Value::Scalar(Scalar::Bool(b))
    }

    /// A struct with the given type name and fields.
    pub fn structure(name: &str, fields: Vec<Field>) -> (r: Value)
        ensures
            r@ == (ValueModel::Struct { name: name@, fields: fields_model(fields@) }),
    {
        Value::Struct { name: name.to_owned(), fields }
    }

    /// A variant that carries nothing.
    pub fn unit_variant(name: &str) -> (r: Value)
        ensures
            r@ == (ValueModel::Variant { name: name@, payload: PayloadModel::Unit }),
    {
        let payload = Payload::Unit;
        assert(payload@ == PayloadModel::Unit);
        Value::Variant { name: name.to_owned(), payload }
    }

    /// A variant that carries one unnamed value.
    pub fn newtype_variant(name: &str, value: Value) -> (r: Value)
        ensures
            r@ == (ValueModel::Variant {
                name: name@,
                payload: PayloadModel::Single(Box::new(value@)),
            }),
    {
        let payload = Payload::Single(Box::new(value));
        assert(payload@ == PayloadModel::Single(Box::new(value@)));
        Value::Variant { name: name.to_owned(), payload }
    }

    /// A variant that carries named fields.
    pub fn struct_variant(name: &str, fields: Vec<Field>) -> (r: Value)
        ensures
            r@ == (ValueModel::Variant {
                name: name@,
                payload: PayloadModel::Struct(fields_model(fields@)),
            }),
    {
        let payload = Payload::Struct(fields);
        assert(payload@ == PayloadModel::Struct(fields_model(fields@)));
        Value::Variant { name: name.to_owned(), payload }
    }

    /// A sequence of the given items.
    pub fn sequence(items: Vec<Value>) -> (r: Value)
        ensures
            r@ == ValueModel::Sequence(values_model(items@)),
    {
        Value::Sequence(items)
    }

    /// An optional value that is present.
    pub fn some(value: Value) -> (r: Value)
        ensures
            r@ == ValueModel::Optional(Some(Box::new(value@))),
    {
        Value::Optional(Some(Box::new(value)))
    }

    /// An optional value that is absent.
    pub fn none() -> (r: Value)
        ensures
            r@ == ValueModel::Optional(None),
    {
        Value::Optional(None)
    }
}

impl Field {
    /// A field with an element of its own, written whatever its value.
    pub fn new(name: &str, value: Value) -> (r: Field)
        ensures
            r@ == (FieldModel { name: name@, value: value@, flatten: false, omit_if_absent: false }),
    {
        Field { name: name.to_owned(), value, flatten: false, omit_if_absent: false }
    }

    /// A field with an element of its own, left out where its value is an
    /// absent optional.
    pub fn optional(name: &str, value: Value) -> (r: Field)
        ensures
            r@ == (FieldModel { name: name@, value: value@, flatten: false, omit_if_absent: true }),
    {
        Field { name: name.to_owned(), value, flatten: false, omit_if_absent: true }
    }

    /// A field that stands for the body of the enclosing element. It goes
    /// by the name `$value`, which is never written.
    pub fn body(value: Value) -> (r: Field)
        ensures
            r@ == (FieldModel {
                name: body_name(),
                value: value@,
                flatten: true,
                omit_if_absent: false,
            }),
    {
        Field { name: "$value".to_owned(), value, flatten: true, omit_if_absent: false }
    }
}

/// The name that a field goes by when it stands for the body.
pub open spec fn body_name() -> Seq<char> {
    "$value"@
}

} // verus!
