//! Reading values from element trees.
//!
//! XML text does not say what its values are, so reading is directed by a
//! shape: the shape asks for text, for one element, for the next item of a
//! repeating group, or for the choice of a variant by its tag.

pub mod rules;

use crate::de::rules::{
    body_count, check_leftover_from, decode_body, decode_content, decode_document, decode_each,
    decode_events, decode_field, decode_fields, decode_item, decode_items, decode_named,
    decode_payload, decode_scalar, decode_variant, elements_named, find_body, find_variant,
    item_count, matches_item, names_field, parse_scalar, unclaimed,
};
use crate::error::Error;
use crate::scalar::{read_bool, read_int};
use crate::shape::{
    field_shapes_model, variant_shapes_model, FieldShape, FieldShapeModel, PayloadShape, ScalarKind,
    Shape, ShapeModel, VariantShape,
};
use crate::tree::{events_model, node_model, nodes_model, read_tree, Node, NodeModel, XmlEvent};
use crate::value::{
    fields_model, values_model, Field, FieldModel, Payload, PayloadModel, Scalar, ScalarModel,
    Value, ValueModel,
};
use vstd::prelude::*;

verus! {

/// The models of a sequence of borrowed nodes, in order.
pub open spec fn refs_model(ns: Seq<&Node>) -> Seq<NodeModel> {
    Seq::new(ns.len(), |i: int| node_model(*ns[i]))
}

/// Whether the primitive that was read is what the rules describe.
pub open spec fn scalar_read(r: Result<Scalar, Error>, expected: Result<ScalarModel, Error>)
    -> bool {
    match r {
        Ok(s) => expected == Ok::<ScalarModel, Error>(s@),
        Err(e) => expected == Err::<ScalarModel, Error>(e),
    }
}

/// Whether the value that was read is what the rules describe.
pub open spec fn value_read(r: Result<Value, Error>, expected: Result<ValueModel, Error>) -> bool {
    match r {
        Ok(v) => expected == Ok::<ValueModel, Error>(v@),
        Err(e) => expected == Err::<ValueModel, Error>(e),
    }
}

/// Whether the values that were read are what the rules describe.
pub open spec fn values_read(
    r: Result<Vec<Value>, Error>,
    expected: Result<Seq<ValueModel>, Error>,
) -> bool {
    match r {
        Ok(vs) => expected == Ok::<Seq<ValueModel>, Error>(values_model(vs@)),
        Err(e) => expected == Err::<Seq<ValueModel>, Error>(e),
    }
}

/// Whether the payload that was read is what the rules describe.
pub open spec fn payload_read(r: Result<Payload, Error>, expected: Result<PayloadModel, Error>)
    -> bool {
    match r {
        Ok(p) => expected == Ok::<PayloadModel, Error>(p@),
        Err(e) => expected == Err::<PayloadModel, Error>(e),
    }
}

/// Whether the field that was read is what the rules describe.
pub open spec fn field_read(r: Result<Field, Error>, expected: Result<FieldModel, Error>) -> bool {
    match r {
        Ok(f) => expected == Ok::<FieldModel, Error>(f@),
        Err(e) => expected == Err::<FieldModel, Error>(e),
    }
}

/// Whether the fields that were read are what the rules describe.
pub open spec fn fields_read(
    r: Result<Vec<Field>, Error>,
    expected: Result<Seq<FieldModel>, Error>,
) -> bool {
    match r {
        Ok(fs) => expected == Ok::<Seq<FieldModel>, Error>(fields_model(fs@)),
        Err(e) => expected == Err::<Seq<FieldModel>, Error>(e),
    }
}

/// Once an item fails, the sequence fails with it, however many nodes
/// follow.
pub proof fn lemma_items_fail(
    shape: ShapeModel,
    nodes: Seq<NodeModel>,
    i: int,
    n: int,
    strict: bool,
)
    requires
        0 <= i < n <= nodes.len(),
        decode_items(shape, nodes.take(i), strict) is Ok,
        decode_item(shape, nodes[i], strict) is Err,
    ensures
        decode_items(shape, nodes.take(n), strict) == Err::<Seq<ValueModel>, Error>(
            decode_item(shape, nodes[i], strict)->Err_0,
        ),
    decreases n - i,
{
    assert(nodes.take(n).drop_last() =~= nodes.take(n - 1));
    assert(nodes.take(n).last() == nodes[n - 1]);
    if n > i + 1 {
        lemma_items_fail(shape, nodes, i, n - 1, strict);
    }
}

/// Once a field fails, the struct fails with it, however many fields
/// follow.
pub proof fn lemma_each_fail(
    fields: Seq<FieldShapeModel>,
    nodes: Seq<NodeModel>,
    i: int,
    n: int,
    strict: bool,
)
    requires
        0 <= i < n <= fields.len(),
        decode_each(fields, i as nat, nodes, strict) is Ok,
        decode_field(fields, i, nodes, strict) is Err,
    ensures
        decode_each(fields, n as nat, nodes, strict) == Err::<Seq<FieldModel>, Error>(
            decode_field(fields, i, nodes, strict)->Err_0,
        ),
    decreases n - i,
{
    if n > i + 1 {
        lemma_each_fail(fields, nodes, i, n - 1, strict);
    }
}

/// The children of an element, borrowed one by one.
pub fn children_refs<'a>(children: &'a Vec<Node>) -> (r: Vec<&'a Node>)
    ensures
        refs_model(r@) == nodes_model(children@),
{
    let mut out: Vec<&'a Node> = Vec::new();
    let mut i: usize = 0;
    while i < children.len()
        invariant
            i <= children.len(),
            out.len() == i,
            forall|k: int| 0 <= k < i ==> *out[k] == children[k],
        decreases children.len() - i,
    {
        out.push(&children[i]);
        i += 1;
    }
    proof {
        assert(refs_model(out@) =~= nodes_model(children@));
    }
    out
}

/// Reads a primitive of the given kind from text.
pub fn read_scalar_text(kind: ScalarKind, text: &str) -> (r: Result<Scalar, Error>)
    ensures
        scalar_read(r, parse_scalar(kind, text@)),
{
    match kind {
        ScalarKind::Text => Ok(Scalar::Text(text.to_owned())),
        ScalarKind::Bool => match read_bool(text) {
            Some(b) => Ok(Scalar::Bool(b)),
            None => Err(Error::TypeMismatch),
        },
        ScalarKind::Int => match read_int(text) {
            Some(n) => Ok(Scalar::Int(n)),
            None => Err(Error::TypeMismatch),
        },
    }
}

/// Reads a primitive from the content of an element.
pub fn read_scalar(kind: ScalarKind, nodes: &Vec<&Node>) -> (r: Result<Scalar, Error>)
    ensures
        scalar_read(r, decode_scalar(kind, refs_model(nodes@))),
{
    if nodes.len() == 0 {
        let r = read_scalar_text(kind, "");
        proof {
            reveal_strlit("");
            assert(""@ =~= Seq::<char>::empty());
        }
        r
    } else if nodes.len() == 1 {
        assert(refs_model(nodes@)[0] == node_model(*nodes[0]));
        match nodes[0] {
            Node::Text(text) => read_scalar_text(kind, text.as_str()),
            Node::Element { .. } => Err(Error::TypeMismatch),
        }
    } else {
        Err(Error::TypeMismatch)
    }
}

/// Whether some field with an element of its own is named `tag`.
pub fn tag_names_field(fields: &Vec<FieldShape>, tag: &String) -> (r: bool)
    ensures
        r == names_field(field_shapes_model(fields@), tag@),
{
    let ghost model = field_shapes_model(fields@);
    let mut i: usize = 0;
    while i < fields.len()
        invariant
            i <= fields.len(),
            model == field_shapes_model(fields@),
            forall|k: int| 0 <= k < i ==> !(!model[k].flatten && #[trigger] model[k].name == tag@),
        decreases fields.len() - i,
    {
        assert(model[i as int] == fields[i as int]@);
        if !fields[i].flatten && fields[i].name == *tag {
            proof {
                let k = i as int;
                assert(0 <= k < model.len() && !model[k].flatten && model[k].name == tag@);
            }
            return true;
        }
        i += 1;
    }
    false
}

/// The elements among `nodes` with the tag `tag`, in order.
pub fn select_named<'a>(nodes: &Vec<&'a Node>, tag: &String) -> (r: Vec<&'a Node>)
    ensures
        refs_model(r@) == elements_named(refs_model(nodes@), tag@),
{
    let ghost model = refs_model(nodes@);
    let mut out: Vec<&'a Node> = Vec::new();
    let mut i: usize = 0;
    proof {
        assert(model.take(0) =~= Seq::<NodeModel>::empty());
        assert(refs_model(out@) =~= Seq::<NodeModel>::empty());
    }
    while i < nodes.len()
        invariant
            i <= nodes.len(),
            model == refs_model(nodes@),
            refs_model(out@) == elements_named(model.take(i as int), tag@),
        decreases nodes.len() - i,
    {
        let ghost before = refs_model(out@);
        proof {
            assert(model.take(i + 1).drop_last() =~= model.take(i as int));
            assert(model.take(i + 1).last() == node_model(*nodes[i as int]));
        }
        let named = match nodes[i] {
            Node::Element { name, .. } => *name == *tag,
            Node::Text(_) => false,
        };
        if named {
            out.push(nodes[i]);
            proof {
                assert(refs_model(out@) =~= before.push(node_model(*nodes[i as int])));
            }
        }
        i += 1;
    }
    proof {
        assert(model.take(nodes.len() as int) =~= model);
    }
    out
}

/// The nodes that are the element of no field, in order.
pub fn select_unclaimed<'a>(fields: &Vec<FieldShape>, nodes: &Vec<&'a Node>) -> (r: Vec<&'a Node>)
    ensures
        refs_model(r@) == unclaimed(field_shapes_model(fields@), refs_model(nodes@)),
{
    let ghost model = refs_model(nodes@);
    let ghost shapes = field_shapes_model(fields@);
    let mut out: Vec<&'a Node> = Vec::new();
    let mut i: usize = 0;
    proof {
        assert(model.take(0) =~= Seq::<NodeModel>::empty());
        assert(refs_model(out@) =~= Seq::<NodeModel>::empty());
    }
    while i < nodes.len()
        invariant
            i <= nodes.len(),
            model == refs_model(nodes@),
            shapes == field_shapes_model(fields@),
            refs_model(out@) == unclaimed(shapes, model.take(i as int)),
        decreases nodes.len() - i,
    {
        let ghost before = refs_model(out@);
        proof {
            assert(model.take(i + 1).drop_last() =~= model.take(i as int));
            assert(model.take(i + 1).last() == node_model(*nodes[i as int]));
        }
        let claimed = match nodes[i] {
            Node::Element { name, .. } => tag_names_field(fields, name),
            Node::Text(_) => false,
        };
        if !claimed {
            out.push(nodes[i]);
            proof {
                assert(refs_model(out@) =~= before.push(node_model(*nodes[i as int])));
            }
        }
        i += 1;
    }
    proof {
        assert(model.take(nodes.len() as int) =~= model);
    }
    out
}

/// Whether `node` can be the next item of a sequence of `shape`.
pub fn item_matches(shape: &Shape, node: &Node) -> (r: bool)
    ensures
        r == matches_item(shape@, node@),
    decreases shape,
{
    match shape {
        Shape::Scalar(_) => match node {
            Node::Text(_) => true,
            Node::Element { .. } => false,
        },
        Shape::Struct { name, .. } => match node {
            Node::Element { name: tag, .. } => *tag == *name,
            Node::Text(_) => false,
        },
        Shape::Enum { .. } => match node {
            Node::Element { .. } => true,
            Node::Text(_) => false,
        },
        Shape::Sequence(item) => item_matches(item, node),
        Shape::Optional(inner) => item_matches(inner, node),
    }
}

/// How many items a sequence of `shape` finds at the front of `nodes`.
pub fn count_items(shape: &Shape, nodes: &Vec<&Node>) -> (r: usize)
    ensures
        r == item_count(shape@, refs_model(nodes@), 0),
        r <= nodes.len(),
{
    let ghost model = refs_model(nodes@);
    let mut i: usize = 0;
    while i < nodes.len()
        invariant
            i <= nodes.len(),
            model == refs_model(nodes@),
            item_count(shape@, model, 0) == i + item_count(shape@, model, i as int),
        decreases nodes.len() - i,
    {
        assert(model[i as int] == node_model(*nodes[i as int]));
        if !item_matches(shape, nodes[i]) {
            return i;
        }
        i += 1;
    }
    i
}

/// The index of the first variant named `tag`.
pub fn variant_index(variants: &Vec<VariantShape>, tag: &String) -> (r: Option<usize>)
    ensures
        match r {
            Some(i) => find_variant(variant_shapes_model(variants@), tag@, 0) == Some(i as int)
                && i < variants.len(),
            None => find_variant(variant_shapes_model(variants@), tag@, 0) is None,
        },
{
    let ghost model = variant_shapes_model(variants@);
    let mut i: usize = 0;
    while i < variants.len()
        invariant
            i <= variants.len(),
            model == variant_shapes_model(variants@),
            find_variant(model, tag@, 0) == find_variant(model, tag@, i as int),
        decreases variants.len() - i,
    {
        assert(model[i as int] == variants[i as int]@);
        if variants[i].name == *tag {
            return Some(i);
        }
        i += 1;
    }
    None
}

/// The index of the first field that stands for the body.
pub fn body_index(fields: &Vec<FieldShape>) -> (r: Option<usize>)
    ensures
        match r {
            Some(i) => find_body(field_shapes_model(fields@), 0) == Some(i as int) && i
                < fields.len(),
            None => find_body(field_shapes_model(fields@), 0) is None,
        },
{
    let ghost model = field_shapes_model(fields@);
    let mut i: usize = 0;
    while i < fields.len()
        invariant
            i <= fields.len(),
            model == field_shapes_model(fields@),
            find_body(model, 0) == find_body(model, i as int),
        decreases fields.len() - i,
    {
        assert(model[i as int] == fields[i as int]@);
        if fields[i].flatten {
            return Some(i);
        }
        i += 1;
    }
    None
}

/// Judges the nodes from `left[from]` on, which no field has taken.
pub fn judge_leftover(left: &Vec<&Node>, from: usize, strict: bool) -> (r: Result<(), Error>)
    ensures
        r == check_leftover_from(refs_model(left@), from as int, strict),
{
    let ghost model = refs_model(left@);
    let mut i: usize = from;
    while i < left.len()
        invariant
            model == refs_model(left@),
            check_leftover_from(model, from as int, strict) == check_leftover_from(
                model,
                i as int,
                strict,
            ),
        decreases left.len() - i,
    {
        assert(model[i as int] == node_model(*left[i as int]));
        match left[i] {
            Node::Text(_) => {
                return Err(Error::TypeMismatch);
            },
            Node::Element { .. } => {
                if strict {
                    return Err(Error::UnknownField);
                }
            },
        }
        i += 1;
    }
    Ok(())
}

/// Reads a value from the whole content of an element.
pub fn read_content(shape: &Shape, nodes: &Vec<&Node>, strict: bool) -> (r: Result<Value, Error>)
    ensures
        value_read(r, decode_content(shape@, refs_model(nodes@), strict)),
    decreases shape, 0nat,
{
    let ghost model = refs_model(nodes@);
    match shape {
        Shape::Scalar(kind) => {
            let s = read_scalar(*kind, nodes)?;
            Ok(Value::Scalar(s))
        },
        Shape::Struct { name, fields } => {
            let values = read_fields(fields, nodes, strict)?;
            Ok(Value::Struct { name: name.clone(), fields: values })
        },
        Shape::Enum { variants } => {
            if nodes.len() != 1 {
                return Err(Error::TypeMismatch);
            }
            assert(model[0] == node_model(*nodes[0]));
            match nodes[0] {
                Node::Element { name, children } => read_variant(variants, name, children, strict),
                Node::Text(_) => Err(Error::TypeMismatch),
            }
        },
        Shape::Sequence(item) => {
            let n = count_items(item, nodes);
            let items = read_items(item, nodes, n, strict)?;
            if n < nodes.len() {
                Err(Error::TypeMismatch)
            } else {
                Ok(Value::Sequence(items))
            }
        },
        Shape::Optional(inner) => {
            let v = read_content(inner, nodes, strict)?;
            Ok(Value::Optional(Some(Box::new(v))))
        },
    }
}

/// Reads a value from a single node: an item of a sequence, or the root
/// of a document.
pub fn read_item(shape: &Shape, node: &Node, strict: bool) -> (r: Result<Value, Error>)
    ensures
        value_read(r, decode_item(shape@, node@, strict)),
    decreases shape, 1nat,
{
    match shape {
        Shape::Struct { name, fields } => {
            match node {
                Node::Element { name: tag, children } => {
                    if *tag == *name {
                        let kids = children_refs(children);
                        let values = read_fields(fields, &kids, strict)?;
                        Ok(Value::Struct { name: name.clone(), fields: values })
                    } else {
                        Err(Error::TypeMismatch)
                    }
                },
                Node::Text(_) => Err(Error::TypeMismatch),
            }
        },
        Shape::Optional(inner) => {
            let v = read_item(inner, node, strict)?;
            Ok(Value::Optional(Some(Box::new(v))))
        },
        _ => {
            let mut one: Vec<&Node> = Vec::new();
            one.push(node);
            proof {
                assert(refs_model(one@) =~= seq![node@]);
            }
            read_content(shape, &one, strict)
        },
    }
}

/// Reads the first `count` nodes as items of a sequence.
fn read_items(shape: &Shape, nodes: &Vec<&Node>, count: usize, strict: bool) -> (r: Result<
    Vec<Value>,
    Error,
>)
    requires
        count <= nodes.len(),
    ensures
        values_read(r, decode_items(shape@, refs_model(nodes@).take(count as int), strict)),
    decreases shape, 2 + nodes.len(),
{
    let ghost model = refs_model(nodes@);
    let mut out: Vec<Value> = Vec::new();
    let mut i: usize = 0;
    proof {
        assert(model.take(0) =~= Seq::<NodeModel>::empty());
        assert(values_model(out@) =~= Seq::<ValueModel>::empty());
    }
    while i < count
        invariant
            i <= count <= nodes.len(),
            model == refs_model(nodes@),
            decode_items(shape@, model.take(i as int), strict) == Ok::<Seq<ValueModel>, Error>(
                values_model(out@),
            ),
        decreases count - i,
    {
        let ghost before = values_model(out@);
        proof {
            assert(model.take(i + 1).drop_last() =~= model.take(i as int));
            assert(model.take(i + 1).last() == model[i as int]);
            assert(model[i as int] == node_model(*nodes[i as int]));
        }
        match read_item(shape, nodes[i], strict) {
            Err(e) => {
                proof {
                    lemma_items_fail(shape@, model, i as int, count as int, strict);
                }
                return Err(e);
            },
            Ok(v) => {
                out.push(v);
                proof {
                    assert(values_model(out@) =~= before.push(v@));
                }
            },
        }
        i += 1;
    }
    Ok(out)
}

/// Reads a variant from an element with the tag `tag`.
pub fn read_variant(variants: &Vec<VariantShape>, tag: &String, children: &Vec<Node>, strict: bool)
    -> (r: Result<Value, Error>)
    ensures
        value_read(
            r,
            decode_variant(variant_shapes_model(variants@), tag@, nodes_model(children@), strict),
        ),
    decreases variants, 0nat,
{
    match variant_index(variants, tag) {
        None => Err(Error::UnknownVariant),
        Some(i) => {
            assert(variant_shapes_model(variants@)[i as int] == variants[i as int]@);
            let kids = children_refs(children);
            let payload = read_payload(&variants[i].payload, &kids, strict)?;
            Ok(Value::Variant { name: tag.clone(), payload })
        },
    }
}

/// Reads what a variant carries from the children of its element.
pub fn read_payload(shape: &PayloadShape, children: &Vec<&Node>, strict: bool) -> (r: Result<
    Payload,
    Error,
>)
    ensures
        payload_read(r, decode_payload(shape@, refs_model(children@), strict)),
    decreases shape, 0nat,
{
    match shape {
        PayloadShape::Unit => {
            if children.len() == 0 {
                Ok(Payload::Unit)
            } else {
                Err(Error::TypeMismatch)
            }
        },
        PayloadShape::Single(inner) => {
            let v = read_content(inner, children, strict)?;
            Ok(Payload::Single(Box::new(v)))
        },
        PayloadShape::Struct(fields) => {
            let values = read_fields(fields, children, strict)?;
            Ok(Payload::Struct(values))
        },
    }
}

/// Reads the fields of a struct from the children of its element.
pub fn read_fields(fields: &Vec<FieldShape>, nodes: &Vec<&Node>, strict: bool) -> (r: Result<
    Vec<Field>,
    Error,
>)
    ensures
        fields_read(r, decode_fields(field_shapes_model(fields@), refs_model(nodes@), strict)),
    decreases fields, fields.len() + 2,
{
    let ghost shapes = field_shapes_model(fields@);
    let ghost model = refs_model(nodes@);
    let mut out: Vec<Field> = Vec::new();
    let mut i: usize = 0;
    proof {
        assert(fields_model(out@) =~= Seq::<FieldModel>::empty());
    }
    while i < fields.len()
        invariant
            i <= fields.len(),
            shapes == field_shapes_model(fields@),
            model == refs_model(nodes@),
            decode_each(shapes, i as nat, model, strict) == Ok::<Seq<FieldModel>, Error>(
                fields_model(out@),
            ),
        decreases fields.len() - i,
    {
        let ghost before = fields_model(out@);
        match read_field(fields, i, nodes, strict) {
            Err(e) => {
                proof {
                    lemma_each_fail(shapes, model, i as int, fields.len() as int, strict);
                }
                return Err(e);
            },
            Ok(f) => {
                out.push(f);
                proof {
                    assert(fields_model(out@) =~= before.push(f@));
                }
            },
        }
        i += 1;
    }
    let rest = select_unclaimed(fields, nodes);
    let taken = match body_index(fields) {
        None => 0,
        Some(b) => {
            assert(shapes[b as int] == fields[b as int]@);
            match &fields[b].shape {
                Shape::Sequence(item) => count_items(item, &rest),
                _ => rest.len(),
            }
        },
    };
    assert(taken == body_count(shapes, refs_model(rest@)));
    judge_leftover(&rest, taken, strict)?;
    Ok(out)
}

/// Reads the field at index `i` from the children of the struct's
/// element.
fn read_field(fields: &Vec<FieldShape>, i: usize, nodes: &Vec<&Node>, strict: bool) -> (r:
    Result<Field, Error>)
    requires
        i < fields.len(),
    ensures
        field_read(
            r,
            decode_field(field_shapes_model(fields@), i as int, refs_model(nodes@), strict),
        ),
    decreases fields, 0nat,
{
    let f = &fields[i];
    assert(field_shapes_model(fields@)[i as int] == f@);
    let value = if f.flatten {
        let rest = select_unclaimed(fields, nodes);
        read_body(&f.shape, &rest, strict)?
    } else {
        let found = select_named(nodes, &f.name);
        read_named(&f.shape, &found, strict)?
    };
    Ok(
        Field {
            name: f.name.clone(),
            value,
            flatten: f.flatten,
            omit_if_absent: f.omit_if_absent,
        },
    )
}

/// Reads a field with an element of its own from the elements found
/// under its name.
pub fn read_named(shape: &Shape, found: &Vec<&Node>, strict: bool) -> (r: Result<Value, Error>)
    ensures
        value_read(r, decode_named(shape@, refs_model(found@), strict)),
    decreases shape, 1nat,
{
    if found.len() == 0 {
        match shape {
            Shape::Optional(_) => Ok(Value::Optional(None)),
            _ => Err(Error::MissingField),
        }
    } else if found.len() > 1 {
        Err(Error::TypeMismatch)
    } else {
        assert(refs_model(found@)[0] == node_model(*found[0]));
        match found[0] {
            Node::Element { children, .. } => {
                let kids = children_refs(children);
                read_content(shape, &kids, strict)
            },
            Node::Text(_) => Err(Error::TypeMismatch),
        }
    }
}

/// Reads a field that stands for the body from the nodes that no field
/// has taken.
pub fn read_body(shape: &Shape, rest: &Vec<&Node>, strict: bool) -> (r: Result<Value, Error>)
    ensures
        value_read(r, decode_body(shape@, refs_model(rest@), strict)),
    decreases shape, 1nat,
{
    match shape {
        Shape::Sequence(item) => {
            let n = count_items(item, rest);
            let items = read_items(item, rest, n, strict)?;
            Ok(Value::Sequence(items))
        },
        _ => read_content(shape, rest, strict),
    }
}

/// Reads a value from a document given as its root element.
pub fn from_tree(shape: &Shape, root: &Node, strict: bool) -> (r: Result<Value, Error>)
    ensures
        value_read(r, decode_document(shape@, root@, strict)),
{
    read_item(shape, root, strict)
}

/// Reads a value from a document given as events.
pub fn from_events(shape: &Shape, events: &Vec<XmlEvent>, strict: bool) -> (r: Result<
    Value,
    Error,
>)
    ensures
        value_read(r, decode_events(shape@, events_model(events@), strict)),
{
    let root = read_tree(events)?;
    from_tree(shape, &root, strict)
}

} // verus!
