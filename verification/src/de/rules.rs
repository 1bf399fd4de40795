//! What reading means: the value that a shape finds in a sequence of
//! nodes, or the failure that it meets first.

use crate::error::Error;
use crate::scalar::{parse_bool, parse_int};
use crate::shape::{FieldShapeModel, PayloadShapeModel, ScalarKind, ShapeModel, VariantShapeModel};
use crate::tree::{read_document, EventModel, NodeModel};
use crate::value::{FieldModel, PayloadModel, ScalarModel, ValueModel};
use vstd::prelude::*;

verus! {

/// The primitive of the given kind that a text denotes.
pub open spec fn parse_scalar(kind: ScalarKind, text: Seq<char>) -> Result<ScalarModel, Error> {
    match kind {
        ScalarKind::Text => Ok(ScalarModel::Text(text)),
        ScalarKind::Bool => match parse_bool(text) {
            Some(b) => Ok(ScalarModel::Bool(b)),
            None => Err(Error::TypeMismatch),
        },
        ScalarKind::Int => match parse_int(text) {
            Some(n) => Ok(ScalarModel::Int(n)),
            None => Err(Error::TypeMismatch),
        },
    }
}

/// The primitive that is the content `nodes` of an element: no node at all
/// is empty text, one run of text is that text, and anything else is not a
/// primitive.
pub open spec fn decode_scalar(kind: ScalarKind, nodes: Seq<NodeModel>) -> Result<
    ScalarModel,
    Error,
> {
    if nodes.len() == 0 {
        parse_scalar(kind, Seq::empty())
    } else if nodes.len() == 1 && nodes[0] is Text {
        parse_scalar(kind, nodes[0]->Text_0)
    } else {
        Err(Error::TypeMismatch)
    }
}

/// Whether `node` is an element with the tag `tag`.
pub open spec fn is_element_named(node: NodeModel, tag: Seq<char>) -> bool {
    node is Element && node->name == tag
}

/// The elements among `nodes` with the tag `tag`, in order.
pub open spec fn elements_named(nodes: Seq<NodeModel>, tag: Seq<char>) -> Seq<NodeModel>
    decreases nodes.len(),
{
    if nodes.len() == 0 {
        Seq::empty()
    } else if is_element_named(nodes.last(), tag) {
        elements_named(nodes.drop_last(), tag).push(nodes.last())
    } else {
        elements_named(nodes.drop_last(), tag)
    }
}

/// Whether some field with an element of its own is named `tag`.
pub open spec fn names_field(fields: Seq<FieldShapeModel>, tag: Seq<char>) -> bool {
    exists|i: int| 0 <= i < fields.len() && !fields[i].flatten && #[trigger] fields[i].name == tag
}

/// Whether `node` is the element of one of the fields.
pub open spec fn is_claimed(fields: Seq<FieldShapeModel>, node: NodeModel) -> bool {
    node is Element && names_field(fields, node->name)
}

/// The nodes that are the element of no field, in order: the body.
pub open spec fn unclaimed(fields: Seq<FieldShapeModel>, nodes: Seq<NodeModel>) -> Seq<NodeModel>
    decreases nodes.len(),
{
    if nodes.len() == 0 {
        Seq::empty()
    } else if is_claimed(fields, nodes.last()) {
        unclaimed(fields, nodes.drop_last())
    } else {
        unclaimed(fields, nodes.drop_last()).push(nodes.last())
    }
}

/// Whether `node` can be the next item of a sequence of `shape`: for a
/// struct an element under the struct's name, for an enum any element, for
/// a primitive a run of text.
pub open spec fn matches_item(shape: ShapeModel, node: NodeModel) -> bool
    decreases shape,
{
    match shape {
        ShapeModel::Scalar(_) => node is Text,
        ShapeModel::Struct { name, .. } => is_element_named(node, name),
        ShapeModel::Enum { .. } => node is Element,
        ShapeModel::Sequence(item) => matches_item(*item, node),
        ShapeModel::Optional(inner) => matches_item(*inner, node),
    }
}

/// How many items a sequence of `shape` finds at `nodes[from..]`: it stops
/// at the first node that cannot be an item, or at the end.
pub open spec fn item_count(shape: ShapeModel, nodes: Seq<NodeModel>, from: int) -> nat
    decreases nodes.len() - from,
{
    if 0 <= from < nodes.len() && matches_item(shape, nodes[from]) {
        1 + item_count(shape, nodes, from + 1)
    } else {
        0
    }
}

/// The index of the first variant named `tag`, from index `from` on.
pub open spec fn find_variant(variants: Seq<VariantShapeModel>, tag: Seq<char>, from: int)
    -> Option<int>
    decreases variants.len() - from,
{
    if from < 0 || from >= variants.len() {
        None
    } else if variants[from].name == tag {
        Some(from)
    } else {
        find_variant(variants, tag, from + 1)
    }
}

/// The index of the first field that stands for the body, from `from` on.
pub open spec fn find_body(fields: Seq<FieldShapeModel>, from: int) -> Option<int>
    decreases fields.len() - from,
{
    if from < 0 || from >= fields.len() {
        None
    } else if fields[from].flatten {
        Some(from)
    } else {
        find_body(fields, from + 1)
    }
}

/// The value that `shape` finds in `nodes`, the whole content of an
/// element.
pub open spec fn decode_content(shape: ShapeModel, nodes: Seq<NodeModel>, strict: bool) -> Result<
    ValueModel,
    Error,
>
    decreases shape, 0nat,
{
    match shape {
        ShapeModel::Scalar(kind) => match decode_scalar(kind, nodes) {
            Ok(s) => Ok(ValueModel::Scalar(s)),
            Err(e) => Err(e),
        },
        ShapeModel::Struct { name, fields } => match decode_fields(fields, nodes, strict) {
            Ok(values) => Ok(ValueModel::Struct { name, fields: values }),
            Err(e) => Err(e),
        },
        ShapeModel::Enum { variants } => if nodes.len() == 1 && nodes[0] is Element {
            decode_variant(variants, nodes[0]->name, nodes[0]->children, strict)
        } else {
            Err(Error::TypeMismatch)
        },
        ShapeModel::Sequence(item) => {
            let n = item_count(*item, nodes, 0);
            match decode_items(*item, nodes.take(n as int), strict) {
                Ok(items) => if n < nodes.len() {
                    Err(Error::TypeMismatch)
                } else {
                    Ok(ValueModel::Sequence(items))
                },
                Err(e) => Err(e),
            }
        },
        ShapeModel::Optional(inner) => match decode_content(*inner, nodes, strict) {
            Ok(v) => Ok(ValueModel::Optional(Some(Box::new(v)))),
            Err(e) => Err(e),
        },
    }
}

/// The value that `shape` finds in the single node `node`, an item of a
/// sequence or the root of a document. A struct asks for an element under
/// its own name.
pub open spec fn decode_item(shape: ShapeModel, node: NodeModel, strict: bool) -> Result<
    ValueModel,
    Error,
>
    decreases shape, 1nat,
{
    match shape {
        ShapeModel::Struct { name, fields } => if is_element_named(node, name) {
            match decode_fields(fields, node->children, strict) {
                Ok(values) => Ok(ValueModel::Struct { name, fields: values }),
                Err(e) => Err(e),
            }
        } else {
            Err(Error::TypeMismatch)
        },
        ShapeModel::Optional(inner) => match decode_item(*inner, node, strict) {
            Ok(v) => Ok(ValueModel::Optional(Some(Box::new(v)))),
            Err(e) => Err(e),
        },
        _ => decode_content(shape, seq![node], strict),
    }
}

/// The items that `shape` finds in `nodes`, one in each node, in order;
/// the failure of the first node that fails.
pub open spec fn decode_items(shape: ShapeModel, nodes: Seq<NodeModel>, strict: bool) -> Result<
    Seq<ValueModel>,
    Error,
>
    decreases shape, 2 + nodes.len(),
{
    if nodes.len() == 0 {
        Ok(Seq::empty())
    } else {
        match decode_items(shape, nodes.drop_last(), strict) {
            Err(e) => Err(e),
            Ok(items) => match decode_item(shape, nodes.last(), strict) {
                Err(e) => Err(e),
                Ok(v) => Ok(items.push(v)),
            },
        }
    }
}

/// The variant that an element with the tag `tag` and the children
/// `children` is: the first variant of that name, with the payload that
/// its shape finds in the children.
pub open spec fn decode_variant(
    variants: Seq<VariantShapeModel>,
    tag: Seq<char>,
    children: Seq<NodeModel>,
    strict: bool,
) -> Result<ValueModel, Error>
    decreases variants, 0nat,
{
    match find_variant(variants, tag, 0) {
        None => Err(Error::UnknownVariant),
        Some(i) => if 0 <= i < variants.len() {
            match decode_payload(variants[i].payload, children, strict) {
                Ok(payload) => Ok(ValueModel::Variant { name: tag, payload }),
                Err(e) => Err(e),
            }
        } else {
            Err(Error::UnknownVariant)
        },
    }
}

/// What a variant carries, read from the children of its element. A
/// variant that carries nothing asks for an element without content.
pub open spec fn decode_payload(shape: PayloadShapeModel, children: Seq<NodeModel>, strict: bool)
    -> Result<PayloadModel, Error>
    decreases shape, 0nat,
{
    match shape {
        PayloadShapeModel::Unit => if children.len() == 0 {
            Ok(PayloadModel::Unit)
        } else {
            Err(Error::TypeMismatch)
        },
        PayloadShapeModel::Single(inner) => match decode_content(*inner, children, strict) {
            Ok(v) => Ok(PayloadModel::Single(Box::new(v))),
            Err(e) => Err(e),
        },
        PayloadShapeModel::Struct(fields) => match decode_fields(fields, children, strict) {
            Ok(values) => Ok(PayloadModel::Struct(values)),
            Err(e) => Err(e),
        },
    }
}

/// The fields that a struct finds among the children `nodes` of its
/// element, whatever their order there. Each field is read in declaration
/// order; then the nodes that no field has taken, and that the body has
/// left, are judged.
pub open spec fn decode_fields(fields: Seq<FieldShapeModel>, nodes: Seq<NodeModel>, strict: bool)
    -> Result<Seq<FieldModel>, Error>
    decreases fields, fields.len() + 2,
{
    match decode_each(fields, fields.len(), nodes, strict) {
        Err(e) => Err(e),
        Ok(values) => {
            let rest = unclaimed(fields, nodes);
            match check_leftover_from(rest, body_count(fields, rest) as int, strict) {
                Err(e) => Err(e),
                Ok(_) => Ok(values),
            }
        },
    }
}

/// The first `n` fields, read in declaration order.
pub open spec fn decode_each(
    fields: Seq<FieldShapeModel>,
    n: nat,
    nodes: Seq<NodeModel>,
    strict: bool,
) -> Result<Seq<FieldModel>, Error>
    decreases fields, n + 1,
{
    if n == 0 || n > fields.len() {
        Ok(Seq::empty())
    } else {
        match decode_each(fields, (n - 1) as nat, nodes, strict) {
            Err(e) => Err(e),
            Ok(values) => match decode_field(fields, n - 1, nodes, strict) {
                Err(e) => Err(e),
                Ok(f) => Ok(values.push(f)),
            },
        }
    }
}

/// The field at index `i`, read from the children `nodes` of the struct's
/// element: a field with an element of its own from the elements under its
/// name, a field that stands for the body from the nodes that no field has
/// taken.
pub open spec fn decode_field(
    fields: Seq<FieldShapeModel>,
    i: int,
    nodes: Seq<NodeModel>,
    strict: bool,
) -> Result<FieldModel, Error>
    decreases fields, 0nat,
{
    if 0 <= i < fields.len() {
        let f = fields[i];
        let value = if f.flatten {
            decode_body(f.shape, unclaimed(fields, nodes), strict)
        } else {
            decode_named(f.shape, elements_named(nodes, f.name), strict)
        };
        match value {
            Ok(v) => Ok(
                FieldModel {
                    name: f.name,
                    value: v,
                    flatten: f.flatten,
                    omit_if_absent: f.omit_if_absent,
                },
            ),
            Err(e) => Err(e),
        }
    } else {
        Err(Error::MissingField)
    }
}

/// The value of a field with an element of its own, given the elements
/// `found` under its name. With none, an optional field is absent and any
/// other is missing. More than one is not what a single field asks for.
pub open spec fn decode_named(shape: ShapeModel, found: Seq<NodeModel>, strict: bool) -> Result<
    ValueModel,
    Error,
>
    decreases shape, 1nat,
{
    if found.len() == 0 {
        match shape {
            ShapeModel::Optional(_) => Ok(ValueModel::Optional(None)),
            _ => Err(Error::MissingField),
        }
    } else if found.len() > 1 || !(found[0] is Element) {
        Err(Error::TypeMismatch)
    } else {
        decode_content(shape, found[0]->children, strict)
    }
}

/// The value of a field that stands for the body, given the nodes `rest`
/// that no field has taken. A sequence takes items up to the first node
/// that cannot be one; any other shape takes all of `rest` as its content.
pub open spec fn decode_body(shape: ShapeModel, rest: Seq<NodeModel>, strict: bool) -> Result<
    ValueModel,
    Error,
>
    decreases shape, 1nat,
{
    match shape {
        ShapeModel::Sequence(item) => match decode_items(
            *item,
            rest.take(item_count(*item, rest, 0) as int),
            strict,
        ) {
            Ok(items) => Ok(ValueModel::Sequence(items)),
            Err(e) => Err(e),
        },
        _ => decode_content(shape, rest, strict),
    }
}

/// How many of the nodes `rest` that no field has taken the body takes.
pub open spec fn body_count(fields: Seq<FieldShapeModel>, rest: Seq<NodeModel>) -> nat {
    match find_body(fields, 0) {
        None => 0,
        Some(i) => if 0 <= i < fields.len() {
            match fields[i].shape {
                ShapeModel::Sequence(item) => item_count(*item, rest, 0),
                _ => rest.len(),
            }
        } else {
            0
        },
    }
}

/// The judgement on the nodes from `left[from]` on, which no field has
/// taken: text among a struct's fields is a mismatch; an element is an
/// unknown field to a strict reader and is passed over by a lenient one.
pub open spec fn check_leftover_from(left: Seq<NodeModel>, from: int, strict: bool) -> Result<
    (),
    Error,
>
    decreases left.len() - from,
{
    if from < 0 || from >= left.len() {
        Ok(())
    } else if left[from] is Text {
        Err(Error::TypeMismatch)
    } else if strict {
        Err(Error::UnknownField)
    } else {
        check_leftover_from(left, from + 1, strict)
    }
}

/// The value that `shape` finds in a document given as its root element.
pub open spec fn decode_document(shape: ShapeModel, root: NodeModel, strict: bool) -> Result<
    ValueModel,
    Error,
> {
    decode_item(shape, root, strict)
}

/// The value that `shape` finds in a document given as events.
pub open spec fn decode_events(shape: ShapeModel, events: Seq<EventModel>, strict: bool) -> Result<
    ValueModel,
    Error,
> {
    match read_document(events) {
        Ok(root) => decode_document(shape, root, strict),
        Err(e) => Err(e),
    }
}

} // verus!
