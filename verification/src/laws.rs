//! What holds of the codec as a whole: reading what was written gives the
//! value back.

use crate::de::rules::{
    body_count, decode_body, decode_content, decode_document, decode_each, decode_events,
    decode_field, decode_fields, decode_item, decode_items, decode_named, decode_payload,
    decode_scalar, decode_variant, elements_named, find_body, find_variant, is_claimed,
    is_element_named, item_count, matches_item, names_field, unclaimed,
};
use crate::error::Error;
use crate::scalar::{lemma_digits_value, lemma_parse_bool_text, lemma_parse_int_text};
use crate::ser::{
    content_nodes, document_events, field_nodes, fields_nodes, is_omitted, item_nodes, items_nodes,
    payload_nodes, scalar_nodes, scalar_text,
};
use crate::shape::{FieldShapeModel, PayloadShapeModel, ScalarKind, ShapeModel, VariantShapeModel};
use crate::tree::{
    document, flatten, flatten_all, lemma_flatten_all_single, lemma_nodes_balanced,
    lemma_open_after_push, open_after, lemma_read_document, EventModel, NodeModel,
};
use crate::value::{FieldModel, PayloadModel, ScalarModel, ValueModel};
use crate::writer::{empty_tag_text, is_empty_element, render, render_from};
use vstd::prelude::*;

verus! {

/// Whether a primitive is of the given kind, and an integer one that 64
/// bits can hold.
pub open spec fn scalar_conforms(s: ScalarModel, kind: ScalarKind) -> bool {
    match s {
        ScalarModel::Bool(_) => kind == ScalarKind::Bool,
        ScalarModel::Int(n) => kind == ScalarKind::Int && i64::MIN <= n <= i64::MAX,
        ScalarModel::Text(_) => kind == ScalarKind::Text,
    }
}

/// Whether `v` is a value of the shape `s`.
pub open spec fn conforms(v: ValueModel, s: ShapeModel) -> bool
    decreases s, 0nat,
{
    match s {
        ShapeModel::Scalar(kind) => match v {
            ValueModel::Scalar(x) => scalar_conforms(x, kind),
            _ => false,
        },
        ShapeModel::Struct { name, fields } => match v {
            ValueModel::Struct { name: n, fields: vs } => n == name && fields_conform(vs, fields),
            _ => false,
        },
        ShapeModel::Enum { variants } => match v {
            ValueModel::Variant { name, payload } => match find_variant(variants, name, 0) {
                Some(i) => 0 <= i < variants.len() && payload_conforms(
                    payload,
                    variants[i].payload,
                ),
                None => false,
            },
            _ => false,
        },
        ShapeModel::Sequence(item) => match v {
            ValueModel::Sequence(items) => forall|k: int|
                0 <= k < items.len() ==> conforms(#[trigger] items[k], *item),
            _ => false,
        },
        ShapeModel::Optional(inner) => match v {
            ValueModel::Optional(None) => true,
            ValueModel::Optional(Some(x)) => conforms(*x, *inner),
            _ => false,
        },
    }
}

/// Whether `p` is a payload of the shape `s`.
pub open spec fn payload_conforms(p: PayloadModel, s: PayloadShapeModel) -> bool
    decreases s, 0nat,
{
    match s {
        PayloadShapeModel::Unit => p is Unit,
        PayloadShapeModel::Single(inner) => match p {
            PayloadModel::Single(x) => conforms(*x, *inner),
            _ => false,
        },
        PayloadShapeModel::Struct(fields) => match p {
            PayloadModel::Struct(vs) => fields_conform(vs, fields),
            _ => false,
        },
    }
}

/// Whether `vs` are fields of the shapes `fs`, one for one.
pub open spec fn fields_conform(vs: Seq<FieldModel>, fs: Seq<FieldShapeModel>) -> bool
    decreases fs, 1nat,
{
    vs.len() == fs.len() && forall|i: int|
        0 <= i < fs.len() ==> field_conforms(#[trigger] vs[i], fs[i])
}

/// Whether `v` is a field of the shape `f`: the same name and marks, a
/// value of the field's shape, and an absent value only where the field is
/// marked to be left out then.
pub open spec fn field_conforms(v: FieldModel, f: FieldShapeModel) -> bool
    decreases f, 0nat,
{
    &&& v.name == f.name
    &&& v.flatten == f.flatten
    &&& v.omit_if_absent == f.omit_if_absent
    &&& conforms(v.value, f.shape)
    &&& (v.value == ValueModel::Optional(None) ==> f.omit_if_absent)
}

/// Whether values of the shape `s` can be told apart when they stand as
/// the content of an element: no optional but as a field, and sequences
/// only of items that bring a tag.
pub open spec fn content_shape_ok(s: ShapeModel) -> bool
    decreases s, 0nat,
{
    match s {
        ShapeModel::Scalar(_) => true,
        ShapeModel::Struct { name, fields } => fields_ok(fields),
        ShapeModel::Enum { variants } => variants_ok(variants),
        ShapeModel::Sequence(item) => item_shape_ok(*item),
        ShapeModel::Optional(_) => false,
    }
}

/// Whether values of the shape `s` can stand as items of a sequence or as
/// the root of a document: structs and enums, which bring a tag.
pub open spec fn item_shape_ok(s: ShapeModel) -> bool
    decreases s, 0nat,
{
    match s {
        ShapeModel::Struct { name, fields } => fields_ok(fields),
        ShapeModel::Enum { variants } => variants_ok(variants),
        _ => false,
    }
}

/// Whether every variant carries what can be told apart.
pub open spec fn variants_ok(variants: Seq<VariantShapeModel>) -> bool
    decreases variants, 1nat,
{
    forall|i: int| 0 <= i < variants.len() ==> payload_shape_ok((#[trigger] variants[i]).payload)
}

/// Whether what a variant carries can be told apart.
pub open spec fn payload_shape_ok(p: PayloadShapeModel) -> bool
    decreases p, 0nat,
{
    match p {
        PayloadShapeModel::Unit => true,
        PayloadShapeModel::Single(inner) => content_shape_ok(*inner),
        PayloadShapeModel::Struct(fields) => fields_ok(fields),
    }
}

/// Whether the fields of a struct can be told apart: fields with an
/// element of their own have different names; at most one field stands for
/// the body, and no item of the body bears the name of a field.
pub open spec fn fields_ok(fields: Seq<FieldShapeModel>) -> bool
    decreases fields, 1nat,
{
    &&& forall|i: int| 0 <= i < fields.len() ==> field_shape_ok(fields, #[trigger] fields[i])
    &&& forall|i: int, j: int|
        0 <= i < j < fields.len() && !fields[i].flatten && !fields[j].flatten
            ==> #[trigger] fields[i].name != #[trigger] fields[j].name
    &&& forall|i: int, j: int|
        0 <= i < fields.len() && 0 <= j < fields.len() && (#[trigger] fields[i]).flatten
            && (#[trigger] fields[j]).flatten ==> i == j
}

/// Whether one field of `fields` can be told apart from the others.
pub open spec fn field_shape_ok(fields: Seq<FieldShapeModel>, f: FieldShapeModel) -> bool
    decreases f, 0nat,
{
    if f.flatten {
        match f.shape {
            ShapeModel::Sequence(item) => item_shape_ok(*item) && body_tags_free(fields, *item),
            _ => false,
        }
    } else {
        match f.shape {
            ShapeModel::Optional(inner) => content_shape_ok(*inner),
            _ => content_shape_ok(f.shape),
        }
    }
}

/// Whether no item of the shape `item` bears the name of a field.
pub open spec fn body_tags_free(fields: Seq<FieldShapeModel>, item: ShapeModel) -> bool {
    match item {
        ShapeModel::Struct { name, .. } => !names_field(fields, name),
        ShapeModel::Enum { variants } => forall|k: int|
            0 <= k < variants.len() ==> !names_field(fields, (#[trigger] variants[k]).name),
        _ => true,
    }
}

/// Whether `node` bears a tag that an item of the shape `item` can bear.
pub open spec fn item_tag_ok(item: ShapeModel, node: NodeModel) -> bool {
    match item {
        ShapeModel::Struct { name, .. } => is_element_named(node, name),
        ShapeModel::Enum { variants } => node is Element && exists|k: int|
            0 <= k < variants.len() && (#[trigger] variants[k]).name == node->name,
        _ => false,
    }
}

/// Reading the text of a primitive gives the primitive back.
pub proof fn lemma_scalar_round_trip(s: ScalarModel, kind: ScalarKind)
    requires
        scalar_conforms(s, kind),
    ensures
        decode_scalar(kind, scalar_nodes(s)) == Ok::<ScalarModel, Error>(s),
{
    let text = scalar_text(s);
    match s {
        ScalarModel::Bool(b) => {
            lemma_parse_bool_text(b);
        },
        ScalarModel::Int(n) => {
            lemma_parse_int_text(n);
            if n < 0 {
                lemma_digits_value((-n) as nat);
            } else {
                lemma_digits_value(n as nat);
            }
        },
        ScalarModel::Text(t) => {
            if t.len() == 0 {
                assert(t =~= Seq::<char>::empty());
            }
        },
    }
}

/// The first variant of a name, where there is one, bears that name.
pub proof fn lemma_find_variant(variants: Seq<VariantShapeModel>, tag: Seq<char>, from: int)
    requires
        0 <= from,
    ensures
        match find_variant(variants, tag, from) {
            Some(i) => from <= i < variants.len() && variants[i].name == tag,
            None => forall|k: int| from <= k < variants.len() ==> variants[k].name != tag,
        },
    decreases variants.len() - from,
{
    if from < variants.len() && variants[from].name != tag {
        lemma_find_variant(variants, tag, from + 1);
    }
}

/// The first field that stands for the body, where there is one.
pub proof fn lemma_find_body(fields: Seq<FieldShapeModel>, from: int)
    requires
        0 <= from,
    ensures
        match find_body(fields, from) {
            Some(i) => from <= i < fields.len() && fields[i].flatten,
            None => forall|k: int| from <= k < fields.len() ==> !fields[k].flatten,
        },
    decreases fields.len() - from,
{
    if from < fields.len() && !fields[from].flatten {
        lemma_find_body(fields, from + 1);
    }
}

/// The elements under a name among two runs of nodes.
pub proof fn lemma_elements_named_concat(a: Seq<NodeModel>, b: Seq<NodeModel>, tag: Seq<char>)
    ensures
        elements_named(a + b, tag) == elements_named(a, tag) + elements_named(b, tag),
    decreases b.len(),
{
    if b.len() == 0 {
        assert(a + b =~= a);
        assert(elements_named(a, tag) + elements_named(b, tag) =~= elements_named(a, tag));
    } else {
        lemma_elements_named_concat(a, b.drop_last(), tag);
        assert((a + b).drop_last() =~= a + b.drop_last());
        assert((a + b).last() == b.last());
        assert(elements_named(a + b, tag) =~= elements_named(a, tag) + elements_named(b, tag));
    }
}

/// The nodes that no field takes among two runs of nodes.
pub proof fn lemma_unclaimed_concat(
    fields: Seq<FieldShapeModel>,
    a: Seq<NodeModel>,
    b: Seq<NodeModel>,
)
    ensures
        unclaimed(fields, a + b) == unclaimed(fields, a) + unclaimed(fields, b),
    decreases b.len(),
{
    if b.len() == 0 {
        assert(a + b =~= a);
        assert(unclaimed(fields, a) + unclaimed(fields, b) =~= unclaimed(fields, a));
    } else {
        lemma_unclaimed_concat(fields, a, b.drop_last());
        assert((a + b).drop_last() =~= a + b.drop_last());
        assert((a + b).last() == b.last());
        assert(unclaimed(fields, a + b) =~= unclaimed(fields, a) + unclaimed(fields, b));
    }
}

/// Where no node is an element under the name, none is found.
pub proof fn lemma_elements_named_none(nodes: Seq<NodeModel>, tag: Seq<char>)
    requires
        forall|k: int| 0 <= k < nodes.len() ==> !is_element_named(#[trigger] nodes[k], tag),
    ensures
        elements_named(nodes, tag) == Seq::<NodeModel>::empty(),
    decreases nodes.len(),
{
    if nodes.len() > 0 {
        lemma_elements_named_none(nodes.drop_last(), tag);
    }
}

/// Where no field takes any of the nodes, all of them are left.
pub proof fn lemma_unclaimed_all(fields: Seq<FieldShapeModel>, nodes: Seq<NodeModel>)
    requires
        forall|k: int| 0 <= k < nodes.len() ==> !is_claimed(fields, #[trigger] nodes[k]),
    ensures
        unclaimed(fields, nodes) == nodes,
    decreases nodes.len(),
{
    if nodes.len() > 0 {
        lemma_unclaimed_all(fields, nodes.drop_last());
        assert(nodes.drop_last().push(nodes.last()) =~= nodes);
    } else {
        assert(nodes =~= Seq::<NodeModel>::empty());
    }
}

/// Where every node can be an item, the sequence takes them all.
pub proof fn lemma_item_count_all(item: ShapeModel, nodes: Seq<NodeModel>, from: int)
    requires
        0 <= from <= nodes.len(),
        forall|k: int| 0 <= k < nodes.len() ==> matches_item(item, #[trigger] nodes[k]),
    ensures
        item_count(item, nodes, from) == nodes.len() - from,
    decreases nodes.len() - from,
{
    if from < nodes.len() {
        lemma_item_count_all(item, nodes, from + 1);
    }
}

/// Each item of a sequence is written as one element, under a tag that an
/// item of the sequence's shape can bear.
pub proof fn lemma_items_tags(items: Seq<ValueModel>, item: ShapeModel)
    requires
        item_shape_ok(item),
        forall|k: int| 0 <= k < items.len() ==> conforms(#[trigger] items[k], item),
    ensures
        items_nodes(items).len() == items.len(),
        forall|k: int|
            0 <= k < items.len() ==> {
                &&& item_nodes(items[k]) == seq![#[trigger] items_nodes(items)[k]]
                &&& item_tag_ok(item, items_nodes(items)[k])
                &&& matches_item(item, items_nodes(items)[k])
            },
    decreases items.len(),
{
    if items.len() > 0 {
        let init = items.drop_last();
        let last = items.last();
        assert forall|k: int| 0 <= k < init.len() implies conforms(#[trigger] init[k], item) by {
            assert(init[k] == items[k]);
        }
        lemma_items_tags(init, item);
        assert(conforms(last, item));
        let node = item_nodes(last)[0];
        match item {
            ShapeModel::Struct { name, fields } => {
                match last {
                    ValueModel::Struct { name: n, fields: vs } => {
                        assert(item_nodes(last) =~= seq![node]);
                        assert(item_tag_ok(item, node));
                        assert(matches_item(item, node));
                    },
                    _ => {},
                }
            },
            ShapeModel::Enum { variants } => {
                match last {
                    ValueModel::Variant { name, payload } => {
                        lemma_find_variant(variants, name, 0);
                        let i = find_variant(variants, name, 0)->0;
                        assert(variants[i].name == name);
                        assert(item_nodes(last) == content_nodes(last));
                        assert(content_nodes(last) == seq![
                            NodeModel::Element { name, children: payload_nodes(payload) },
                        ]);
                        assert(item_nodes(last) =~= seq![node]);
                        assert(node->name == name);
                        assert(item_tag_ok(item, node));
                        assert(matches_item(item, node));
                    },
                    _ => {},
                }
            },
            _ => {},
        }
        assert(item_nodes(last) =~= seq![node]);
        assert(item_tag_ok(item, node));
        assert(matches_item(item, node));
        assert(items_nodes(items) =~= items_nodes(init).push(node));
        assert forall|k: int| 0 <= k < items.len() implies {
            &&& item_nodes(items[k]) == seq![#[trigger] items_nodes(items)[k]]
            &&& item_tag_ok(item, items_nodes(items)[k])
            &&& matches_item(item, items_nodes(items)[k])
        } by {
            if k < init.len() {
                assert(items[k] == init[k]);
                assert(items_nodes(items)[k] == items_nodes(init)[k]);
            } else {
                assert(items[k] == last);
                assert(items_nodes(items)[k] == node);
            }
        }
    }
}

/// What is found in a single node.
pub proof fn lemma_single_node(fields: Seq<FieldShapeModel>, node: NodeModel, tag: Seq<char>)
    ensures
        elements_named(seq![node], tag) == (if is_element_named(node, tag) {
            seq![node]
        } else {
            Seq::empty()
        }),
        unclaimed(fields, seq![node]) == (if is_claimed(fields, node) {
            Seq::empty()
        } else {
            seq![node]
        }),
{
    let one = seq![node];
    let none = Seq::<NodeModel>::empty();
    assert(one.drop_last() =~= none);
    assert(elements_named(none, tag) =~= none);
    assert(unclaimed(fields, none) =~= none);
    assert(none.push(node) =~= one);
}

/// What the first `k` fields of a struct leave among the children of its
/// element: each field with an element of its own that is not left out
/// leaves exactly that element under its name, and what no field takes is
/// what the body wrote.
#[verifier::rlimit(30)]
pub proof fn lemma_fields_summary(vs: Seq<FieldModel>, fs: Seq<FieldShapeModel>, k: int)
    requires
        fields_ok(fs),
        fields_conform(vs, fs),
        0 <= k <= fs.len(),
    ensures
        forall|i: int|
            0 <= i < fs.len() && !fs[i].flatten ==> #[trigger] elements_named(
                fields_nodes(vs.take(k)),
                fs[i].name,
            ) == (if i < k && !is_omitted(vs[i]) {
                field_nodes(vs[i])
            } else {
                Seq::empty()
            }),
        unclaimed(fs, fields_nodes(vs.take(k))) == (match find_body(fs, 0) {
            Some(b) => if b < k {
                field_nodes(vs[b])
            } else {
                Seq::empty()
            },
            None => Seq::empty(),
        }),
    decreases k,
{
    lemma_find_body(fs, 0);
    if k == 0 {
        assert(vs.take(0) =~= Seq::<FieldModel>::empty());
        assert(fields_nodes(vs.take(0)) =~= Seq::<NodeModel>::empty());
    } else {
        let j = k - 1;
        lemma_fields_summary(vs, fs, j);
        let before = fields_nodes(vs.take(j));
        let here = field_nodes(vs[j]);
        assert(vs.take(k).drop_last() =~= vs.take(j));
        assert(vs.take(k).last() == vs[j]);
        assert(fields_nodes(vs.take(k)) == before + here);
        lemma_unclaimed_concat(fs, before, here);
        assert(field_conforms(vs[j], fs[j]));
        assert(field_shape_ok(fs, fs[j]));
        if fs[j].flatten {
            match fs[j].shape {
                ShapeModel::Sequence(item) => {
                    match vs[j].value {
                        ValueModel::Sequence(items) => {
                            lemma_items_tags(items, *item);
                            assert(here == items_nodes(items));
                            assert forall|n: int| 0 <= n < here.len() implies !is_claimed(
                                fs,
                                #[trigger] here[n],
                            ) by {
                                assert(item_tag_ok(*item, items_nodes(items)[n]));
                            }
                            lemma_unclaimed_all(fs, here);
                            assert(find_body(fs, 0) == Some(j));
                            assert(Seq::<NodeModel>::empty() + here =~= here);
                            assert forall|i: int|
                                0 <= i < fs.len() && !fs[i].flatten implies #[trigger] elements_named(
                                fields_nodes(vs.take(k)),
                                fs[i].name,
                            ) == (if i < k && !is_omitted(vs[i]) {
                                field_nodes(vs[i])
                            } else {
                                Seq::empty()
                            }) by {
                                assert forall|n: int| 0 <= n < here.len() implies !is_element_named(
                                    #[trigger] here[n],
                                    fs[i].name,
                                ) by {
                                    if is_element_named(here[n], fs[i].name) {
                                        assert(names_field(fs, here[n]->name));
                                        assert(is_claimed(fs, here[n]));
                                    }
                                }
                                lemma_elements_named_none(here, fs[i].name);
                                lemma_elements_named_concat(before, here, fs[i].name);
                                let found = elements_named(before, fs[i].name);
                                assert(found + Seq::<NodeModel>::empty() =~= found);
                            }
                        },
                        _ => {},
                    }
                },
                _ => {},
            }
        } else {
            if is_omitted(vs[j]) {
                assert(before + here =~= before);
            } else {
                let e = NodeModel::Element { name: vs[j].name, children: content_nodes(vs[j].value) };
                assert(here == seq![e]);
                assert(names_field(fs, fs[j].name));
                assert(is_claimed(fs, e));
                lemma_single_node(fs, e, e->name);
                assert(unclaimed(fs, here) =~= Seq::<NodeModel>::empty());
                let rest = unclaimed(fs, before);
                assert(rest + Seq::<NodeModel>::empty() =~= rest);
                assert forall|i: int|
                    0 <= i < fs.len() && !fs[i].flatten implies #[trigger] elements_named(
                    fields_nodes(vs.take(k)),
                    fs[i].name,
                ) == (if i < k && !is_omitted(vs[i]) {
                    field_nodes(vs[i])
                } else {
                    Seq::empty()
                }) by {
                    lemma_elements_named_concat(before, here, fs[i].name);
                    lemma_single_node(fs, e, fs[i].name);
                    let found = elements_named(before, fs[i].name);
                    if i == j {
                        assert(elements_named(here, fs[i].name) =~= here);
                        assert(Seq::<NodeModel>::empty() + here =~= here);
                    } else {
                        if i < j {
                            assert(fs[i].name != fs[j].name);
                        } else {
                            assert(fs[j].name != fs[i].name);
                        }
                        assert(elements_named(here, fs[i].name) =~= Seq::<NodeModel>::empty());
                        assert(found + Seq::<NodeModel>::empty() =~= found);
                    }
                }
            }
        }
    }
}

/// Reading the content that a value was written as gives the value back.
pub proof fn lemma_content_round_trip(v: ValueModel, s: ShapeModel, strict: bool)
    requires
        content_shape_ok(s),
        conforms(v, s),
    ensures
        decode_content(s, content_nodes(v), strict) == Ok::<ValueModel, Error>(v),
    decreases s, 0nat,
{
    match s {
        ShapeModel::Scalar(kind) => {
            match v {
                ValueModel::Scalar(x) => {
                    lemma_scalar_round_trip(x, kind);
                },
                _ => {},
            }
        },
        ShapeModel::Struct { name, fields } => {
            match v {
                ValueModel::Struct { name: n, fields: vs } => {
                    lemma_fields_round_trip(vs, fields, strict);
                },
                _ => {},
            }
        },
        ShapeModel::Enum { variants } => {
            match v {
                ValueModel::Variant { name, payload } => {
                    lemma_find_variant(variants, name, 0);
                    let i = find_variant(variants, name, 0)->0;
                    assert(payload_shape_ok(variants[i].payload));
                    lemma_payload_round_trip(payload, variants[i].payload, strict);
                    let node = NodeModel::Element { name, children: payload_nodes(payload) };
                    assert(content_nodes(v) == seq![node]);
                    assert(decode_variant(variants, name, payload_nodes(payload), strict) == Ok::<
                        ValueModel,
                        Error,
                    >(v));
                },
                _ => {},
            }
        },
        ShapeModel::Sequence(item) => {
            match v {
                ValueModel::Sequence(items) => {
                    let nodes = items_nodes(items);
                    lemma_items_round_trip(items, *item, strict);
                    lemma_items_tags(items, *item);
                    lemma_item_count_all(*item, nodes, 0);
                    assert(nodes.take(nodes.len() as int) =~= nodes);
                },
                _ => {},
            }
        },
        ShapeModel::Optional(_) => {},
    }
}

/// An item is written as one node, and reading that node gives the item
/// back.
pub proof fn lemma_item_round_trip(v: ValueModel, s: ShapeModel, strict: bool)
    requires
        item_shape_ok(s),
        conforms(v, s),
    ensures
        item_nodes(v).len() == 1,
        item_nodes(v)[0] is Element,
        decode_item(s, item_nodes(v)[0], strict) == Ok::<ValueModel, Error>(v),
    decreases s, 1nat,
{
    match s {
        ShapeModel::Struct { name, fields } => {
            match v {
                ValueModel::Struct { name: n, fields: vs } => {
                    lemma_fields_round_trip(vs, fields, strict);
                },
                _ => {},
            }
        },
        ShapeModel::Enum { variants } => {
            match v {
                ValueModel::Variant { name, payload } => {
                    lemma_content_round_trip(v, s, strict);
                    let node = NodeModel::Element { name, children: payload_nodes(payload) };
                    assert(item_nodes(v) == content_nodes(v));
                    assert(content_nodes(v) == seq![node]);
                    assert(seq![item_nodes(v)[0]] =~= content_nodes(v));
                },
                _ => {},
            }
        },
        _ => {},
    }
}

/// Reading the nodes that the items of a sequence were written as gives
/// the items back, in order.
pub proof fn lemma_items_round_trip(items: Seq<ValueModel>, item: ShapeModel, strict: bool)
    requires
        item_shape_ok(item),
        forall|k: int| 0 <= k < items.len() ==> conforms(#[trigger] items[k], item),
    ensures
        decode_items(item, items_nodes(items), strict) == Ok::<Seq<ValueModel>, Error>(items),
    decreases item, 2 + items.len(),
{
    if items.len() == 0 {
        assert(items =~= Seq::<ValueModel>::empty());
    } else {
        let init = items.drop_last();
        let last = items.last();
        assert forall|k: int| 0 <= k < init.len() implies conforms(#[trigger] init[k], item) by {
            assert(init[k] == items[k]);
        }
        lemma_items_round_trip(init, item, strict);
        lemma_item_round_trip(last, item, strict);
        lemma_items_tags(init, item);
        let node = item_nodes(last)[0];
        assert(item_nodes(last) =~= seq![node]);
        let nodes = items_nodes(items);
        assert(nodes =~= items_nodes(init).push(node));
        assert(nodes.drop_last() =~= items_nodes(init));
        assert(nodes.last() == node);
        assert(init.push(last) =~= items);
    }
}

/// Reading the children that a variant's payload was written as gives the
/// payload back.
pub proof fn lemma_payload_round_trip(p: PayloadModel, s: PayloadShapeModel, strict: bool)
    requires
        payload_shape_ok(s),
        payload_conforms(p, s),
    ensures
        decode_payload(s, payload_nodes(p), strict) == Ok::<PayloadModel, Error>(p),
    decreases s, 0nat,
{
    match s {
        PayloadShapeModel::Unit => {},
        PayloadShapeModel::Single(inner) => {
            match p {
                PayloadModel::Single(x) => {
                    lemma_content_round_trip(*x, *inner, strict);
                },
                _ => {},
            }
        },
        PayloadShapeModel::Struct(fields) => {
            match p {
                PayloadModel::Struct(vs) => {
                    lemma_fields_round_trip(vs, fields, strict);
                },
                _ => {},
            }
        },
    }
}

/// Reading the children that the fields of a struct were written as gives
/// the fields back.
pub proof fn lemma_fields_round_trip(vs: Seq<FieldModel>, fs: Seq<FieldShapeModel>, strict: bool)
    requires
        fields_ok(fs),
        fields_conform(vs, fs),
    ensures
        decode_fields(fs, fields_nodes(vs), strict) == Ok::<Seq<FieldModel>, Error>(vs),
    decreases fs, fs.len() + 2,
{
    let nodes = fields_nodes(vs);
    lemma_each_round_trip(vs, fs, fs.len(), strict);
    assert(vs.take(fs.len() as int) =~= vs);
    lemma_fields_summary(vs, fs, fs.len() as int);
    lemma_find_body(fs, 0);
    let rest = unclaimed(fs, nodes);
    match find_body(fs, 0) {
        None => {
            assert(rest =~= Seq::<NodeModel>::empty());
        },
        Some(b) => {
            assert(field_conforms(vs[b], fs[b]));
            assert(field_shape_ok(fs, fs[b]));
            match fs[b].shape {
                ShapeModel::Sequence(item) => {
                    match vs[b].value {
                        ValueModel::Sequence(items) => {
                            assert(rest == items_nodes(items));
                            lemma_items_tags(items, *item);
                            lemma_item_count_all(*item, rest, 0);
                        },
                        _ => {},
                    }
                },
                _ => {},
            }
        },
    }
    assert(body_count(fs, rest) == rest.len());
}

/// Reading the first `n` fields gives them back.
pub proof fn lemma_each_round_trip(
    vs: Seq<FieldModel>,
    fs: Seq<FieldShapeModel>,
    n: nat,
    strict: bool,
)
    requires
        fields_ok(fs),
        fields_conform(vs, fs),
        n <= fs.len(),
    ensures
        decode_each(fs, n, fields_nodes(vs), strict) == Ok::<Seq<FieldModel>, Error>(
            vs.take(n as int),
        ),
    decreases fs, n + 1,
{
    if n == 0 {
        assert(vs.take(0) =~= Seq::<FieldModel>::empty());
    } else {
        lemma_each_round_trip(vs, fs, (n - 1) as nat, strict);
        lemma_field_round_trip(vs, fs, n - 1, strict);
        assert(vs.take(n - 1).push(vs[n - 1]) =~= vs.take(n as int));
    }
}

/// Reading one field from the children that the struct was written as
/// gives the field back.
#[verifier::rlimit(30)]
pub proof fn lemma_field_round_trip(
    vs: Seq<FieldModel>,
    fs: Seq<FieldShapeModel>,
    i: int,
    strict: bool,
)
    requires
        fields_ok(fs),
        fields_conform(vs, fs),
        0 <= i < fs.len(),
    ensures
        decode_field(fs, i, fields_nodes(vs), strict) == Ok::<FieldModel, Error>(vs[i]),
    decreases fs, 0nat,
{
    let nodes = fields_nodes(vs);
    assert(vs.take(fs.len() as int) =~= vs);
    lemma_fields_summary(vs, fs, fs.len() as int);
    lemma_find_body(fs, 0);
    assert(field_conforms(vs[i], fs[i]));
    assert(field_shape_ok(fs, fs[i]));
    let f = fs[i];
    let value = vs[i].value;
    if f.flatten {
        assert(find_body(fs, 0) == Some(i));
        let rest = unclaimed(fs, nodes);
        match f.shape {
            ShapeModel::Sequence(item) => {
                match value {
                    ValueModel::Sequence(items) => {
                        assert(rest == items_nodes(items));
                        lemma_items_round_trip(items, *item, strict);
                        lemma_items_tags(items, *item);
                        lemma_item_count_all(*item, rest, 0);
                        assert(rest.take(rest.len() as int) =~= rest);
                        assert(decode_body(f.shape, rest, strict) == Ok::<ValueModel, Error>(
                            value,
                        ));
                    },
                    _ => {},
                }
            },
            _ => {},
        }
    } else {
        let found = elements_named(nodes, f.name);
        if is_omitted(vs[i]) {
            assert(found =~= Seq::<NodeModel>::empty());
            assert(decode_named(f.shape, found, strict) == Ok::<ValueModel, Error>(value));
        } else {
            let e = NodeModel::Element { name: f.name, children: content_nodes(value) };
            assert(found == seq![e]);
            match f.shape {
                ShapeModel::Optional(inner) => {
                    match value {
                        ValueModel::Optional(Some(x)) => {
                            lemma_content_round_trip(*x, *inner, strict);
                            assert(content_nodes(value) == content_nodes(*x));
                        },
                        _ => {},
                    }
                },
                _ => {
                    lemma_content_round_trip(value, f.shape, strict);
                },
            }
            assert(decode_named(f.shape, found, strict) == Ok::<ValueModel, Error>(value));
        }
    }
}

/// The round-trip law on element trees: a value of a shape whose values
/// can be told apart is written as one element, and reading that element
/// by the shape gives the value back, whether the reader is strict or
/// lenient.
pub proof fn theorem_tree_round_trip(v: ValueModel, s: ShapeModel, strict: bool)
    requires
        item_shape_ok(s),
        conforms(v, s),
    ensures
        item_nodes(v).len() == 1,
        decode_document(s, item_nodes(v)[0], strict) == Ok::<ValueModel, Error>(v),
{
    lemma_item_round_trip(v, s, strict);
}

/// The round-trip law on events: reading the events that a document was
/// written as gives the value back.
pub proof fn theorem_events_round_trip(v: ValueModel, s: ShapeModel, strict: bool)
    requires
        item_shape_ok(s),
        conforms(v, s),
    ensures
        decode_events(s, document_events(v), strict) == Ok::<ValueModel, Error>(v),
{
    lemma_item_round_trip(v, s, strict);
    let root = item_nodes(v)[0];
    assert(item_nodes(v) =~= seq![root]);
    lemma_flatten_all_single(root);
    lemma_read_document(root);
    assert(document_events(v) == document(root));
}

/// An element whose tag is the name of no variant of the expected enum is
/// an unknown variant, whatever the element holds and whether the reader
/// is strict or lenient: as the content of an element, and as an item.
pub proof fn law_unknown_variant(
    variants: Seq<VariantShapeModel>,
    tag: Seq<char>,
    children: Seq<NodeModel>,
    strict: bool,
)
    requires
        forall|k: int| 0 <= k < variants.len() ==> (#[trigger] variants[k]).name != tag,
    ensures
        decode_variant(variants, tag, children, strict) == Err::<ValueModel, Error>(
            Error::UnknownVariant,
        ),
        decode_content(
            ShapeModel::Enum { variants },
            seq![NodeModel::Element { name: tag, children }],
            strict,
        ) == Err::<ValueModel, Error>(Error::UnknownVariant),
        decode_item(
            ShapeModel::Enum { variants },
            NodeModel::Element { name: tag, children },
            strict,
        ) == Err::<ValueModel, Error>(Error::UnknownVariant),
{
    lemma_find_variant(variants, tag, 0);
}

/// A field whose value is an absent optional, and which is marked to be
/// left out then, writes nothing at all. A present optional is written
/// exactly as the value itself: as content, as an item, and as a field.
pub proof fn law_optional_omission(name: Seq<char>, value: ValueModel, flatten: bool, omit: bool)
    ensures
        field_nodes(
            FieldModel { name, value: ValueModel::Optional(None), flatten, omit_if_absent: true },
        ) == Seq::<NodeModel>::empty(),
        content_nodes(ValueModel::Optional(Some(Box::new(value)))) == content_nodes(value),
        item_nodes(ValueModel::Optional(Some(Box::new(value)))) == item_nodes(value),
        !(value is Optional) ==> field_nodes(
            FieldModel {
                name,
                value: ValueModel::Optional(Some(Box::new(value))),
                flatten,
                omit_if_absent: omit,
            },
        ) == field_nodes(FieldModel { name, value, flatten, omit_if_absent: omit }),
{
}

/// A variant that carries nothing is written as one empty element: a
/// single tag with a space before the slash, no text and no children.
pub proof fn law_unit_variant(name: Seq<char>)
    ensures
        content_nodes(ValueModel::Variant { name, payload: PayloadModel::Unit }) == seq![
            NodeModel::Element { name, children: Seq::empty() },
        ],
        render(
            flatten_all(content_nodes(ValueModel::Variant { name, payload: PayloadModel::Unit })),
        ) == empty_tag_text(name),
{
    let node = NodeModel::Element { name, children: Seq::empty() };
    let v = ValueModel::Variant { name, payload: PayloadModel::Unit };
    assert(payload_nodes(PayloadModel::Unit) == Seq::<NodeModel>::empty());
    assert(content_nodes(v) == seq![
        NodeModel::Element { name, children: payload_nodes(PayloadModel::Unit) },
    ]);
    lemma_flatten_all_single(node);
    let events = flatten(node);
    assert(flatten_all(Seq::<NodeModel>::empty()) =~= Seq::<EventModel>::empty());
    assert(events =~= seq![
        EventModel::StartElement { name },
        EventModel::EndElement { name },
    ]);
    assert(is_empty_element(events, 0));
    assert(render_from(events, 2) =~= Seq::<char>::empty());
    assert(render(events) =~= empty_tag_text(name));
}

/// A variant is written as exactly one element, under the variant's name,
/// whatever it carries.
pub proof fn law_variant_element(name: Seq<char>, payload: PayloadModel)
    ensures
        content_nodes(ValueModel::Variant { name, payload }) == seq![
            NodeModel::Element { name, children: payload_nodes(payload) },
        ],
        item_nodes(ValueModel::Variant { name, payload }) == content_nodes(
            ValueModel::Variant { name, payload },
        ),
{
}

/// A sequence of structs in a field with an element of its own is written
/// as one element under the field's name, which holds one element for
/// each struct, under the struct's type name and with nothing else round
/// it.
pub proof fn law_list_of_structs(name: Seq<char>, items: Seq<ValueModel>, omit: bool)
    requires
        forall|k: int| 0 <= k < items.len() ==> (#[trigger] items[k]) is Struct,
    ensures
        field_nodes(
            FieldModel {
                name,
                value: ValueModel::Sequence(items),
                flatten: false,
                omit_if_absent: omit,
            },
        ) == seq![NodeModel::Element { name, children: items_nodes(items) }],
        items_nodes(items).len() == items.len(),
        forall|k: int|
            0 <= k < items.len() ==> item_nodes(items[k]) == seq![#[trigger] items_nodes(items)[k]],
    decreases items.len(),
{
    if items.len() > 0 {
        let init = items.drop_last();
        let last = items.last();
        assert forall|k: int| 0 <= k < init.len() implies (#[trigger] init[k]) is Struct by {
            assert(init[k] == items[k]);
        }
        law_list_of_structs(name, init, omit);
        assert(last is Struct);
        let node = item_nodes(last)[0];
        assert(item_nodes(last) =~= seq![node]);
        assert(items_nodes(items) =~= items_nodes(init).push(node));
        assert forall|k: int| 0 <= k < items.len() implies item_nodes(items[k]) == seq![
            #[trigger] items_nodes(items)[k],
        ] by {
            if k < init.len() {
                assert(items[k] == init[k]);
                assert(items_nodes(items)[k] == items_nodes(init)[k]);
            }
        }
    }
}

/// The events of a document close every tag that they open, once and
/// under its own name.
pub proof fn law_document_balanced(v: ValueModel)
    ensures
        open_after(document_events(v)) == Some(Seq::<Seq<char>>::empty()),
{
    let pre = seq![EventModel::StartDocument];
    let none = Seq::<EventModel>::empty();
    assert(open_after(none) == Some(Seq::<Seq<char>>::empty()));
    lemma_open_after_push(none, EventModel::StartDocument);
    assert(none.push(EventModel::StartDocument) =~= pre);
    lemma_nodes_balanced(pre, item_nodes(v));
}

/// Writing what was read from a document that this library wrote gives
/// the same events again.
pub proof fn law_rewrite(v: ValueModel, s: ShapeModel, strict: bool)
    requires
        item_shape_ok(s),
        conforms(v, s),
    ensures
        decode_events(s, document_events(v), strict) is Ok,
        document_events(decode_events(s, document_events(v), strict)->Ok_0) == document_events(v),
{
    theorem_events_round_trip(v, s, strict);
}

} // verus!
