//! Deciding whether the laws apply: whether the values of a shape can be
//! told apart when they are read, whether a value is of a shape, and
//! whether what a value writes comes through the reader as it is.

use crate::de::rules::names_field;
use crate::de::{tag_names_field, variant_index};
use crate::error::Error;
use crate::laws::{
    body_tags_free, conforms, content_shape_ok, field_conforms, field_shape_ok, fields_conform,
    fields_ok, item_shape_ok, payload_conforms, payload_shape_ok, scalar_conforms, variants_ok,
};
use crate::reader::{decode_text, name_char, name_start, normalize_run, ParserConfig};
use crate::scalar::{format_bool, format_int};
use crate::ser::{document_events, scalar_text};
use crate::shape::{
    field_shapes_model, variant_shapes_model, FieldShape, FieldShapeModel, PayloadShape,
    ScalarKind, Shape, ShapeModel, VariantShape,
};
use crate::strings::chars_of;
use crate::text_laws::{
    content_writable, field_writable, fields_writable, is_kept, is_name, item_writable,
    payload_writable, scalar_writable, theorem_text_round_trip,
};
use crate::value::{
    fields_model, values_model, Field, FieldModel, Payload, Scalar, Value, ValueModel,
};
use crate::writer::{is_root, render, to_string};
use vstd::prelude::*;

verus! {

/// Whether values of `shape` can be told apart as the content of an
/// element.
pub fn is_content_shape(shape: &Shape) -> (r: bool)
    ensures
        r == content_shape_ok(shape@),
    decreases shape, 0nat,
{
    match shape {
        Shape::Scalar(_) => true,
        Shape::Struct { name, fields } => fields_are_ok(fields),
        Shape::Enum { variants } => variants_are_ok(variants),
        Shape::Sequence(item) => is_item_shape(item),
        Shape::Optional(_) => false,
    }
}

/// Whether values of `shape` can be told apart as items of a sequence, or
/// as the root of a document.
pub fn is_item_shape(shape: &Shape) -> (r: bool)
    ensures
        r == item_shape_ok(shape@),
    decreases shape, 0nat,
{
    match shape {
        Shape::Struct { name, fields } => fields_are_ok(fields),
        Shape::Enum { variants } => variants_are_ok(variants),
        _ => false,
    }
}

fn variants_are_ok(variants: &Vec<VariantShape>) -> (r: bool)
    ensures
        r == variants_ok(variant_shapes_model(variants@)),
    decreases variants, 1nat,
{
    let ghost model = variant_shapes_model(variants@);
    let mut i: usize = 0;
    while i < variants.len()
        invariant
            i <= variants.len(),
            model == variant_shapes_model(variants@),
            forall|k: int| 0 <= k < i ==> payload_shape_ok((#[trigger] model[k]).payload),
        decreases variants.len() - i,
    {
        assert(model[i as int] == variants[i as int]@);
        let ok = match &variants[i].payload {
            PayloadShape::Unit => true,
            PayloadShape::Single(inner) => is_content_shape(inner),
            PayloadShape::Struct(fields) => fields_are_ok(fields),
        };
        if !ok {
            assert(!payload_shape_ok(model[i as int].payload));
            return false;
        }
        i += 1;
    }
    true
}

fn body_tags_are_free(fields: &Vec<FieldShape>, item: &Shape) -> (r: bool)
    ensures
        r == body_tags_free(field_shapes_model(fields@), item@),
{
    match item {
        Shape::Struct { name, .. } => !tag_names_field(fields, name),
        Shape::Enum { variants } => {
            let ghost shapes = field_shapes_model(fields@);
            let ghost model = variant_shapes_model(variants@);
            assert(item@ == (ShapeModel::Enum { variants: model }));
            let mut k: usize = 0;
            while k < variants.len()
                invariant
                    k <= variants.len(),
                    item@ == (ShapeModel::Enum { variants: model }),
                    shapes == field_shapes_model(fields@),
                    model == variant_shapes_model(variants@),
                    forall|n: int|
                        0 <= n < k ==> !names_field(
                            shapes,
                            (#[trigger] model[n]).name,
                        ),
                decreases variants.len() - k,
            {
                assert(model[k as int] == variants[k as int]@);
                if tag_names_field(fields, &variants[k].name) {
                    assert(names_field(shapes, model[k as int].name));
                    assert(!body_tags_free(shapes, item@));
                    return false;
                }
                k += 1;
            }
            true
        },
        _ => true,
    }
}

fn field_is_ok(fields: &Vec<FieldShape>, i: usize) -> (r: bool)
    requires
        i < fields.len(),
    ensures
        r == field_shape_ok(field_shapes_model(fields@), field_shapes_model(fields@)[i as int]),
    decreases fields, 0nat,
{
    let f = &fields[i];
    assert(field_shapes_model(fields@)[i as int] == f@);
    if f.flatten {
        match &f.shape {
            Shape::Sequence(item) => is_item_shape(item) && body_tags_are_free(fields, item),
            _ => false,
        }
    } else {
        match &f.shape {
            Shape::Optional(inner) => is_content_shape(inner),
            _ => is_content_shape(&f.shape),
        }
    }
}

/// Whether two fields can stand in one struct: they do not both stand for
/// the body, and do not both have an element under the same name.
spec fn compatible(model: Seq<FieldShapeModel>, i: int, j: int) -> bool {
    &&& !(model[i].flatten && model[j].flatten)
    &&& !(!model[i].flatten && !model[j].flatten && model[i].name == model[j].name)
}

fn fields_are_ok(fields: &Vec<FieldShape>) -> (r: bool)
    ensures
        r == fields_ok(field_shapes_model(fields@)),
    decreases fields, 1nat,
{
    let ghost model = field_shapes_model(fields@);
    let n = fields.len();
    let mut i: usize = 0;
    while i < n
        invariant
            i <= n,
            n == fields.len(),
            model == field_shapes_model(fields@),
            forall|k: int| 0 <= k < i ==> field_shape_ok(model, #[trigger] model[k]),
        decreases n - i,
    {
        if !field_is_ok(fields, i) {
            assert(!field_shape_ok(model, model[i as int]));
            return false;
        }
        i += 1;
    }
    let mut a: usize = 0;
    while a < n
        invariant
            a <= n,
            n == fields.len(),
            model == field_shapes_model(fields@),
            forall|k: int| 0 <= k < n ==> field_shape_ok(model, #[trigger] model[k]),
            forall|x: int, y: int| 0 <= x < a && x < y < n ==> compatible(model, x, y),
        decreases n - a,
    {
        let mut b: usize = a + 1;
        while b < n
            invariant
                a < b <= n,
                n == fields.len(),
                model == field_shapes_model(fields@),
                forall|y: int| a < y < b ==> compatible(model, a as int, y),
            decreases n - b,
        {
            assert(model[a as int] == fields[a as int]@);
            assert(model[b as int] == fields[b as int]@);
            let clash = if fields[a].flatten {
                fields[b].flatten
            } else {
                !fields[b].flatten && fields[a].name == fields[b].name
            };
            if clash {
                proof {
                    let x = a as int;
                    let y = b as int;
                    assert(!compatible(model, x, y));
                    if model[x].flatten {
                        assert(model[x].flatten && model[y].flatten && x != y);
                    } else {
                        assert(model[x].name == model[y].name);
                    }
                    assert(!fields_ok(model));
                }
                return false;
            }
            b += 1;
        }
        a += 1;
    }
    proof {
        assert forall|x: int, y: int|
            0 <= x < y < model.len() && !model[x].flatten && !model[y].flatten implies #[trigger] model[x].name
            != #[trigger] model[y].name by {
            assert(compatible(model, x, y));
        }
        assert forall|x: int, y: int|
            0 <= x < model.len() && 0 <= y < model.len() && (#[trigger] model[x]).flatten && (
            #[trigger] model[y]).flatten implies x == y by {
            if x < y {
                assert(compatible(model, x, y));
            } else if y < x {
                assert(compatible(model, y, x));
            }
        }
    }
    true
}

/// A sequence is of a shape exactly where each of its items is of the
/// shape of the items.
proof fn lemma_sequence_conforms(items: Seq<ValueModel>, item: ShapeModel)
    ensures
        conforms(ValueModel::Sequence(items), ShapeModel::Sequence(Box::new(item))) == (forall|
            k: int,
        |
            0 <= k < items.len() ==> conforms(#[trigger] items[k], item)),
{
    let v = ValueModel::Sequence(items);
    let s = ShapeModel::Sequence(Box::new(item));
    if conforms(v, s) {
        assert forall|k: int| 0 <= k < items.len() implies conforms(#[trigger] items[k], item) by {
            assert(v->Sequence_0[k] == items[k]);
        }
    }
    if !conforms(v, s) {
        let k = choose|k: int| 0 <= k < v->Sequence_0.len() && !conforms(
            #[trigger] v->Sequence_0[k],
            item,
        );
        assert(v->Sequence_0[k] == items[k]);
    }
}

/// What a sequence writes comes through the reader as it is exactly where
/// what each of its items writes does.
proof fn lemma_sequence_writable(items: Seq<ValueModel>, config: ParserConfig)
    ensures
        content_writable(ValueModel::Sequence(items), config) == (forall|k: int|
            0 <= k < items.len() ==> item_writable(#[trigger] items[k], config)),
{
    let v = ValueModel::Sequence(items);
    if content_writable(v, config) {
        assert forall|k: int| 0 <= k < items.len() implies item_writable(
            #[trigger] items[k],
            config,
        ) by {
            assert(v->Sequence_0[k] == items[k]);
        }
    }
    if !content_writable(v, config) {
        let k = choose|k: int| 0 <= k < v->Sequence_0.len() && !item_writable(
            #[trigger] v->Sequence_0[k],
            config,
        );
        assert(v->Sequence_0[k] == items[k]);
    }
}

/// Whether `value` is a value of `shape`.
pub fn has_shape(value: &Value, shape: &Shape) -> (r: bool)
    ensures
        r == conforms(value@, shape@),
    decreases shape, 0nat,
{
    match shape {
        Shape::Scalar(kind) => match value {
            Value::Scalar(s) => match s {
                Scalar::Bool(_) => *kind == ScalarKind::Bool,
                Scalar::Int(_) => *kind == ScalarKind::Int,
                Scalar::Text(_) => *kind == ScalarKind::Text,
            },
            _ => false,
        },
        Shape::Struct { name, fields } => match value {
            Value::Struct { name: n, fields: vs } => *n == *name && fields_have_shapes(vs, fields),
            _ => false,
        },
        Shape::Enum { variants } => match value {
            Value::Variant { name, payload } => match variant_index(variants, name) {
                Some(i) => {
                    assert(variant_shapes_model(variants@)[i as int] == variants[i as int]@);
                    payload_has_shape(payload, &variants[i].payload)
                },
                None => false,
            },
            _ => false,
        },
        Shape::Sequence(item) => match value {
            Value::Sequence(items) => {
                proof {
                    lemma_sequence_conforms(values_model(items@), item@);
                }
                items_have_shape(items, item)
            },
            _ => false,
        },
        Shape::Optional(inner) => match value {
            Value::Optional(None) => true,
            Value::Optional(Some(x)) => has_shape(x, inner),
            _ => false,
        },
    }
}

fn items_have_shape(items: &Vec<Value>, item: &Shape) -> (r: bool)
    ensures
        r == (forall|k: int|
            0 <= k < items.len() ==> conforms(#[trigger] values_model(items@)[k], item@)),
    decreases item, 1nat,
{
    let ghost model = values_model(items@);
    let mut k: usize = 0;
    while k < items.len()
        invariant
            k <= items.len(),
            model == values_model(items@),
            forall|n: int| 0 <= n < k ==> conforms(#[trigger] model[n], item@),
        decreases items.len() - k,
    {
        assert(model[k as int] == items[k as int]@);
        if !has_shape(&items[k], item) {
            assert(!conforms(model[k as int], item@));
            return false;
        }
        k += 1;
    }
    true
}

fn payload_has_shape(payload: &Payload, shape: &PayloadShape) -> (r: bool)
    ensures
        r == payload_conforms(payload@, shape@),
    decreases shape, 0nat,
{
    match shape {
        PayloadShape::Unit => match payload {
            Payload::Unit => true,
            _ => false,
        },
        PayloadShape::Single(inner) => match payload {
            Payload::Single(x) => has_shape(x, inner),
            _ => false,
        },
        PayloadShape::Struct(fields) => match payload {
            Payload::Struct(vs) => fields_have_shapes(vs, fields),
            _ => false,
        },
    }
}

fn is_absent(value: &Value) -> (r: bool)
    ensures
        r == (value@ == ValueModel::Optional(None)),
{
    match value {
        Value::Optional(None) => true,
        _ => false,
    }
}

fn fields_have_shapes(values: &Vec<Field>, shapes: &Vec<FieldShape>) -> (r: bool)
    ensures
        r == fields_conform(fields_model(values@), field_shapes_model(shapes@)),
    decreases shapes, 1nat,
{
    let ghost vs = fields_model(values@);
    let ghost fs = field_shapes_model(shapes@);
    if values.len() != shapes.len() {
        return false;
    }
    let mut i: usize = 0;
    while i < shapes.len()
        invariant
            i <= shapes.len(),
            values.len() == shapes.len(),
            vs == fields_model(values@),
            fs == field_shapes_model(shapes@),
            forall|k: int| 0 <= k < i ==> field_conforms(#[trigger] vs[k], fs[k]),
        decreases shapes.len() - i,
    {
        let v = &values[i];
        let f = &shapes[i];
        assert(vs[i as int] == v@);
        assert(fs[i as int] == f@);
        let ok = v.name == f.name && v.flatten == f.flatten && v.omit_if_absent
            == f.omit_if_absent && has_shape(&v.value, &f.shape) && (!is_absent(&v.value)
            || f.omit_if_absent);
        if !ok {
            assert(!field_conforms(vs[i as int], fs[i as int]));
            return false;
        }
        i += 1;
    }
    true
}

/// Whether `name` can be the tag of an element.
pub fn is_xml_name(name: &str) -> (r: bool)
    ensures
        r == is_name(name@),
{
    let t = chars_of(name);
    if t.len() == 0 || !name_start(t[0]) {
        return false;
    }
    let mut i: usize = 0;
    while i < t.len()
        invariant
            i <= t.len(),
            t@ == name@,
            forall|k: int| 0 <= k < i ==> crate::reader::is_name_char(#[trigger] t@[k]),
        decreases t.len() - i,
    {
        if !name_char(t[i]) {
            return false;
        }
        i += 1;
    }
    true
}

/// Whether a run of text comes through the reader as it is.
pub fn is_kept_text(text: &str, config: &ParserConfig) -> (r: bool)
    ensures
        r == is_kept(text@, *config),
{
    let t = chars_of(text);
    if t.len() == 0 {
        return false;
    }
    match normalize_run(&t, config) {
        None => false,
        Some(kept) => kept == text.to_owned(),
    }
}

fn scalar_is_writable(s: &Scalar, config: &ParserConfig) -> (r: bool)
    ensures
        r == scalar_writable(s@, *config),
{
    let text = match s {
        Scalar::Bool(b) => format_bool(*b),
        Scalar::Int(n) => format_int(*n),
        Scalar::Text(t) => t.clone(),
    };
    assert(text@ == scalar_text(s@));
    text.as_str().is_empty() || is_kept_text(text.as_str(), config)
}

fn payload_is_writable(payload: &Payload, config: &ParserConfig) -> (r: bool)
    ensures
        r == payload_writable(payload@, *config),
    decreases payload, 0nat,
{
    match payload {
        Payload::Unit => true,
        Payload::Single(inner) => content_is_writable(inner, config),
        Payload::Struct(fields) => fields_are_writable(fields, config),
    }
}

fn items_are_writable(items: &Vec<Value>, config: &ParserConfig) -> (r: bool)
    ensures
        r == (forall|k: int|
            0 <= k < items.len() ==> item_writable(#[trigger] values_model(items@)[k], *config)),
    decreases items, 0nat,
{
    let ghost model = values_model(items@);
    let mut k: usize = 0;
    while k < items.len()
        invariant
            k <= items.len(),
            model == values_model(items@),
            forall|n: int| 0 <= n < k ==> item_writable(#[trigger] model[n], *config),
        decreases items.len() - k,
    {
        assert(model[k as int] == items[k as int]@);
        if !is_writable(&items[k], config) {
            assert(!item_writable(model[k as int], *config));
            return false;
        }
        k += 1;
    }
    true
}

/// Whether what `value` writes as the content of an element comes through
/// the reader as it is.
pub fn content_is_writable(value: &Value, config: &ParserConfig) -> (r: bool)
    ensures
        r == content_writable(value@, *config),
    decreases value, 0nat,
{
    match value {
        Value::Scalar(s) => scalar_is_writable(s, config),
        Value::Struct { name, fields } => fields_are_writable(fields, config),
        Value::Variant { name, payload } => is_xml_name(name.as_str()) && payload_is_writable(
            payload,
            config,
        ),
        Value::Sequence(items) => {
            proof {
                lemma_sequence_writable(values_model(items@), *config);
            }
            items_are_writable(items, config)
        },
        Value::Optional(None) => true,
        Value::Optional(Some(inner)) => content_is_writable(inner, config),
    }
}

/// Whether what `value` writes as an item of a sequence, or as the root
/// of a document, comes through the reader as it is.
pub fn is_writable(value: &Value, config: &ParserConfig) -> (r: bool)
    ensures
        r == item_writable(value@, *config),
    decreases value, 1nat,
{
    match value {
        Value::Struct { name, fields } => is_xml_name(name.as_str()) && fields_are_writable(
            fields,
            config,
        ),
        Value::Optional(Some(inner)) => is_writable(inner, config),
        _ => content_is_writable(value, config),
    }
}

fn fields_are_writable(fields: &Vec<Field>, config: &ParserConfig) -> (r: bool)
    ensures
        r == fields_writable(fields_model(fields@), *config),
    decreases fields, 1nat,
{
    let ghost model = fields_model(fields@);
    let mut i: usize = 0;
    while i < fields.len()
        invariant
            i <= fields.len(),
            model == fields_model(fields@),
            forall|k: int| 0 <= k < i ==> field_writable(#[trigger] model[k], *config),
        decreases fields.len() - i,
    {
        let f = &fields[i];
        assert(model[i as int] == f@);
        let omitted = f.omit_if_absent && is_absent(&f.value);
        let ok = omitted || ((f.flatten || is_xml_name(f.name.as_str())) && content_is_writable(
            &f.value,
            config,
        ));
        if !ok {
            assert(!field_writable(model[i as int], *config));
            return false;
        }
        i += 1;
    }
    true
}

/// Writes a value as an XML document, where that document is sure to be
/// read back as the same value: where the values of `shape` can be told
/// apart, `value` is one of them, and what it writes comes through a
/// reader with the configuration `config` as it is. Otherwise nothing is
/// written.
pub fn to_string_checked(value: &Value, shape: &Shape, config: &ParserConfig) -> (r: Option<
    String,
>)
    ensures
        match r {
            Some(text) => {
                &&& text@ == render(document_events(value@))
                &&& decode_text(shape@, text@, *config, true) == Ok::<ValueModel, Error>(value@)
                &&& decode_text(shape@, text@, *config, false) == Ok::<ValueModel, Error>(value@)
            },
            None => !(item_shape_ok(shape@) && conforms(value@, shape@) && item_writable(
                value@,
                *config,
            )),
        },
{
    if !is_item_shape(shape) || !has_shape(value, shape) || !is_writable(value, config) {
        return None;
    }
    proof {
        theorem_text_round_trip(value@, shape@, *config, true);
        theorem_text_round_trip(value@, shape@, *config, false);
        assert(is_root(value@));
    }
    match to_string(value) {
        Ok(text) => Some(text),
        Err(_) => None,
    }
}

} // verus!
