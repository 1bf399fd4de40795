//! Writing values as structural events.
//!
//! A value is written depth first. What a value contributes depends on
//! where it stands: as the content of an element that its owner has opened,
//! or as an item of a sequence, which has to bring its own tag.

pub mod seq;

use crate::error::Error;
use crate::scalar::{bool_text, format_bool, format_int, int_text};
use crate::ser::seq::SeqSeralizer;
use crate::tree::{
    events_model, flatten, flatten_all, lemma_flatten_all_concat, lemma_flatten_all_single,
    open_after, EventModel, NodeModel, XmlEvent,
};
use crate::value::{
    fields_model, values_model, Field, FieldModel, Payload, PayloadModel, Scalar, ScalarModel,
    Value, ValueModel,
};
use vstd::prelude::*;

verus! {

/// The text of a primitive: `true` or `false`, decimal digits, or the
/// string itself.
pub open spec fn scalar_text(s: ScalarModel) -> Seq<char> {
    match s {
        ScalarModel::Bool(b) => bool_text(b),
        ScalarModel::Int(n) => int_text(n),
        ScalarModel::Text(t) => t,
    }
}

/// What a primitive contributes to its element: one run of text, or
/// nothing where the text is empty.
pub open spec fn scalar_nodes(s: ScalarModel) -> Seq<NodeModel> {
    if scalar_text(s).len() == 0 {
        Seq::empty()
    } else {
        seq![NodeModel::Text(scalar_text(s))]
    }
}

/// What a value contributes as the content of an element that is already
/// open.
///
/// A primitive is text. A struct is its fields. A variant is one element
/// under the variant's name. A sequence is its items, one after the other.
/// A present optional is the value itself, an absent one nothing.
pub open spec fn content_nodes(v: ValueModel) -> Seq<NodeModel>
    decreases v, 0nat,
{
    match v {
        ValueModel::Scalar(s) => scalar_nodes(s),
        ValueModel::Struct { name, fields } => fields_nodes(fields),
        ValueModel::Variant { name, payload } => seq![
            NodeModel::Element { name, children: payload_nodes(payload) },
        ],
        ValueModel::Sequence(items) => items_nodes(items),
        ValueModel::Optional(None) => Seq::empty(),
        ValueModel::Optional(Some(inner)) => content_nodes(*inner),
    }
}

/// What a value contributes as an item of a sequence or as the root of a
/// document: a struct is an element under its type name; anything else is
/// what it is as content.
pub open spec fn item_nodes(v: ValueModel) -> Seq<NodeModel>
    decreases v, 1nat,
{
    match v {
        ValueModel::Struct { name, fields } => seq![
            NodeModel::Element { name, children: fields_nodes(fields) },
        ],
        ValueModel::Optional(Some(inner)) => item_nodes(*inner),
        _ => content_nodes(v),
    }
}

/// The children of a variant's element.
pub open spec fn payload_nodes(p: PayloadModel) -> Seq<NodeModel>
    decreases p, 0nat,
{
    match p {
        PayloadModel::Unit => Seq::empty(),
        PayloadModel::Single(inner) => content_nodes(*inner),
        PayloadModel::Struct(fields) => fields_nodes(fields),
    }
}

/// The items of a sequence, each with its own tag, in order.
pub open spec fn items_nodes(items: Seq<ValueModel>) -> Seq<NodeModel>
    decreases items, 0nat,
{
    if items.len() == 0 {
        Seq::empty()
    } else {
        items_nodes(items.drop_last()) + item_nodes(items.last())
    }
}

/// The fields of a struct, in declaration order.
pub open spec fn fields_nodes(fields: Seq<FieldModel>) -> Seq<NodeModel>
    decreases fields, 0nat,
{
    if fields.len() == 0 {
        Seq::empty()
    } else {
        fields_nodes(fields.drop_last()) + field_nodes(fields.last())
    }
}

/// Whether nothing at all is written for a field: its value is an absent
/// optional and it is marked to be left out then.
pub open spec fn is_omitted(f: FieldModel) -> bool {
    f.omit_if_absent && f.value == ValueModel::Optional(None)
}

/// What a field contributes: nothing where it is left out; its value's
/// content where it stands for the body; else one element under its name.
pub open spec fn field_nodes(f: FieldModel) -> Seq<NodeModel>
    decreases f, 0nat,
{
    if is_omitted(f) {
        Seq::empty()
    } else if f.flatten {
        content_nodes(f.value)
    } else {
        seq![NodeModel::Element { name: f.name, children: content_nodes(f.value) }]
    }
}

/// The events of a whole document whose root is `v`.
pub open spec fn document_events(v: ValueModel) -> Seq<EventModel> {
    seq![EventModel::StartDocument] + flatten_all(item_nodes(v))
}

/// The models of a stack of tag names.
pub open spec fn names_model(names: Seq<String>) -> Seq<Seq<char>> {
    Seq::new(names.len(), |i: int| names[i]@)
}

/// The writer's side of the codec: the events written so far, and the
/// stack of the elements that are open.
pub struct Serializer {
    events: Vec<XmlEvent>,
    open: Vec<String>,
}

impl Serializer {
    /// Every opened tag that is not on the stack has been closed, once and
    /// under its own name.
    pub closed spec fn well_nested(&self) -> bool {
        open_after(events_model(self.events@)) == Some(names_model(self.open@))
    }

    /// The events written so far.
    pub closed spec fn events(&self) -> Seq<EventModel> {
        events_model(self.events@)
    }

    /// The names of the elements that are open, outermost first.
    pub closed spec fn open_tags(&self) -> Seq<Seq<char>> {
        names_model(self.open@)
    }

    /// A serializer that has written nothing.
    pub fn new() -> (r: Self)
        ensures
            r.well_nested(),
            r.events() == Seq::<EventModel>::empty(),
            r.open_tags() == Seq::<Seq<char>>::empty(),
    {
        let r = Serializer { events: Vec::new(), open: Vec::new() };
        proof {
            assert(events_model(r.events@) =~= Seq::<EventModel>::empty());
            assert(names_model(r.open@) =~= Seq::<Seq<char>>::empty());
        }
        r
    }

    /// Writes the document start.
    pub fn start_document(&mut self)
        requires
            old(self).well_nested(),
        ensures
            final(self).well_nested(),
            final(self).events() == old(self).events().push(EventModel::StartDocument),
            final(self).open_tags() == old(self).open_tags(),
    {
        self.events.push(XmlEvent::StartDocument);
        proof {
            assert(events_model(self.events@) =~= events_model(old(self).events@).push(
                EventModel::StartDocument,
            ));
            assert(events_model(self.events@).drop_last() =~= events_model(old(self).events@));
        }
    }

    /// Opens an element.
    pub fn start_tag(&mut self, name: &str)
        requires
            old(self).well_nested(),
        ensures
            final(self).well_nested(),
            final(self).events() == old(self).events().push(
                EventModel::StartElement { name: name@ },
            ),
            final(self).open_tags() == old(self).open_tags().push(name@),
    {
        self.events.push(XmlEvent::StartElement { name: name.to_owned() });
        self.open.push(name.to_owned());
        proof {
            assert(events_model(self.events@) =~= events_model(old(self).events@).push(
                EventModel::StartElement { name: name@ },
            ));
            assert(events_model(self.events@).drop_last() =~= events_model(old(self).events@));
            assert(names_model(self.open@) =~= names_model(old(self).open@).push(name@));
        }
    }

    /// Closes the innermost open element. Where none is open, nothing is
    /// written and the call fails.
    pub fn end_tag(&mut self) -> (r: Result<(), Error>)
        requires
            old(self).well_nested(),
        ensures
            final(self).well_nested(),
            match r {
                Ok(_) => {
                    &&& old(self).open_tags().len() > 0
                    &&& final(self).events() == old(self).events().push(
                        EventModel::EndElement { name: old(self).open_tags().last() },
                    )
                    &&& final(self).open_tags() == old(self).open_tags().drop_last()
                },
                Err(e) => {
                    &&& e == Error::MalformedXml
                    &&& old(self).open_tags().len() == 0
                    &&& final(self).events() == old(self).events()
                    &&& final(self).open_tags() == old(self).open_tags()
                },
            },
    {
        match self.open.pop() {
            None => {
                return Err(Error::MalformedXml);
            },
            Some(name) => {
                proof {
                    assert(names_model(self.open@) =~= names_model(old(self).open@).drop_last());
                    assert(names_model(old(self).open@).last() == name@);
                }
                self.events.push(XmlEvent::EndElement { name });
                proof {
                    assert(events_model(self.events@) =~= events_model(old(self).events@).push(
                        EventModel::EndElement { name: name@ },
                    ));
                    assert(events_model(self.events@).drop_last() =~= events_model(
                        old(self).events@,
                    ));
                }
                Ok(())
            },
        }
    }

    /// Writes a run of text.
    pub fn characters(&mut self, text: &str)
        requires
            old(self).well_nested(),
        ensures
            final(self).well_nested(),
            final(self).events() == old(self).events().push(EventModel::Characters(text@)),
            final(self).open_tags() == old(self).open_tags(),
    {
        self.events.push(XmlEvent::Characters(text.to_owned()));
        proof {
            assert(events_model(self.events@) =~= events_model(old(self).events@).push(
                EventModel::Characters(text@),
            ));
            assert(events_model(self.events@).drop_last() =~= events_model(old(self).events@));
        }
    }

    /// Writes a primitive as the text of the open element. Empty text
    /// writes nothing.
    pub fn serialize_scalar(&mut self, s: &Scalar) -> (r: Result<(), Error>)
        requires
            old(self).well_nested(),
        ensures
            final(self).well_nested(),
            r is Ok,
            final(self).events() == old(self).events() + flatten_all(scalar_nodes(s@)),
            final(self).open_tags() == old(self).open_tags(),
    {
        let text = match s {
            Scalar::Bool(b) => format_bool(*b),
            Scalar::Int(n) => format_int(*n),
            Scalar::Text(t) => t.clone(),
        };
        proof {
            assert(text@ == scalar_text(s@));
            if text@.len() > 0 {
                lemma_flatten_all_single(NodeModel::Text(text@));
            }
        }
        if !text.as_str().is_empty() {
            self.characters(text.as_str());
            proof {
                assert(old(self).events().push(EventModel::Characters(text@)) =~= old(
                    self,
                ).events() + flatten_all(scalar_nodes(s@)));
            }
        } else {
            proof {
                assert(old(self).events() =~= old(self).events() + flatten_all(
                    scalar_nodes(s@),
                ));
            }
        }
        Ok(())
    }

    /// Writes a value as the content of the open element.
    pub fn serialize_content(&mut self, v: &Value) -> (r: Result<(), Error>)
        requires
            old(self).well_nested(),
        ensures
            final(self).well_nested(),
            r is Ok,
            final(self).events() == old(self).events() + flatten_all(content_nodes(v@)),
            final(self).open_tags() == old(self).open_tags(),
        decreases v, 0nat,
    {
        match v {
            Value::Scalar(s) => self.serialize_scalar(s),
            Value::Struct { name, fields } => self.serialize_fields(fields),
            Value::Variant { name, payload } => {
                proof {
                    lemma_flatten_all_single(
                        NodeModel::Element { name: name@, children: payload_nodes(payload@) },
                    );
                }
                self.serialize_variant(name, payload)
            },
            Value::Sequence(items) => {
                // Each item brings its own tag: nothing is left to close.
                let written = self.serialize_items(items, false);
                proof {
                    let nodes = flatten_all(content_nodes(v@));
                    assert(old(self).events() + nodes + Seq::<EventModel>::empty() =~= old(
                        self,
                    ).events() + nodes);
                }
                written
            },
            Value::Optional(None) => {
                proof {
                    assert(old(self).events() =~= old(self).events() + flatten_all(
                        content_nodes(v@),
                    ));
                }
                Ok(())
            },
            Value::Optional(Some(inner)) => self.serialize_content(inner),
        }
    }

    /// Writes a value as an item of a sequence, or as the root of a
    /// document.
    pub fn serialize_item(&mut self, v: &Value) -> (r: Result<(), Error>)
        requires
            old(self).well_nested(),
        ensures
            final(self).well_nested(),
            r is Ok,
            final(self).events() == old(self).events() + flatten_all(item_nodes(v@)),
            final(self).open_tags() == old(self).open_tags(),
        decreases v, 1nat,
    {
        match v {
            Value::Struct { name, fields } => {
                self.start_tag(name.as_str());
                self.serialize_fields(fields)?;
                let closed = self.end_tag();
                proof {
                    let children = fields_nodes(fields_model(fields@));
                    let node = NodeModel::Element { name: name@, children };
                    lemma_flatten_all_single(node);
                    assert(final(self).events() =~= old(self).events() + flatten(node));
                    assert(final(self).open_tags() =~= old(self).open_tags());
                }
                closed
            },
            Value::Optional(Some(inner)) => self.serialize_item(inner),
            _ => self.serialize_content(v),
        }
    }

    /// Writes a variant: one element under the variant's name. A variant
    /// that carries nothing is an empty element.
    pub fn serialize_variant(&mut self, name: &String, payload: &Payload) -> (r: Result<
        (),
        Error,
    >)
        requires
            old(self).well_nested(),
        ensures
            final(self).well_nested(),
            r is Ok,
            final(self).events() == old(self).events() + flatten(
                NodeModel::Element { name: name@, children: payload_nodes(payload@) },
            ),
            final(self).open_tags() == old(self).open_tags(),
        decreases payload, 1nat,
    {
        self.start_tag(name.as_str());
        match payload {
            Payload::Unit => {
                proof {
                    assert(self.events() =~= self.events() + flatten_all(payload_nodes(payload@)));
                }
            },
            Payload::Single(inner) => {
                self.serialize_content(inner)?;
            },
            Payload::Struct(fields) => {
                self.serialize_fields(fields)?;
            },
        }
        let closed = self.end_tag();
        proof {
            let node = NodeModel::Element { name: name@, children: payload_nodes(payload@) };
            assert(final(self).events() =~= old(self).events() + flatten(node));
            assert(final(self).open_tags() =~= old(self).open_tags());
        }
        closed
    }

    /// Writes the fields of a struct, in declaration order.
    pub fn serialize_fields(&mut self, fields: &Vec<Field>) -> (r: Result<(), Error>)
        requires
            old(self).well_nested(),
        ensures
            final(self).well_nested(),
            r is Ok,
            final(self).events() == old(self).events() + flatten_all(
                fields_nodes(fields_model(fields@)),
            ),
            final(self).open_tags() == old(self).open_tags(),
        decreases fields, 1nat,
    {
        let ghost model = fields_model(fields@);
        let mut i: usize = 0;
        proof {
            assert(model.take(0) =~= Seq::<FieldModel>::empty());
            assert(self.events() =~= old(self).events() + flatten_all(
                fields_nodes(model.take(0)),
            ));
        }
        while i < fields.len()
            invariant
                i <= fields.len(),
                model == fields_model(fields@),
                self.events() == old(self).events() + flatten_all(
                    fields_nodes(model.take(i as int)),
                ),
                self.open_tags() == old(self).open_tags(),
                self.well_nested(),
            decreases fields.len() - i,
        {
            self.serialize_field(&fields[i])?;
            proof {
                let done = model.take(i as int);
                let next = model.take(i + 1);
                assert(next.drop_last() =~= done);
                assert(next.last() == fields[i as int]@);
                lemma_flatten_all_concat(fields_nodes(done), field_nodes(next.last()));
                assert(self.events() =~= old(self).events() + flatten_all(fields_nodes(next)));
            }
            i += 1;
        }
        proof {
            assert(model.take(fields.len() as int) =~= model);
        }
        Ok(())
    }

    /// Writes one field.
    ///
    /// A field whose value is a sequence has its tag opened here and closed
    /// by the sequence, once the last item is written.
    pub fn serialize_field(&mut self, f: &Field) -> (r: Result<(), Error>)
        requires
            old(self).well_nested(),
        ensures
            final(self).well_nested(),
            r is Ok,
            final(self).events() == old(self).events() + flatten_all(field_nodes(f@)),
            final(self).open_tags() == old(self).open_tags(),
        decreases f, 1nat,
    {
        let absent = match &f.value {
            Value::Optional(None) => true,
            _ => false,
        };
        assert(absent == (f@.value == ValueModel::Optional(None)));
        if f.omit_if_absent && absent {
            proof {
                assert(old(self).events() =~= old(self).events() + flatten_all(field_nodes(f@)));
            }
            return Ok(());
        }
        if f.flatten {
            return self.serialize_content(&f.value);
        }
        self.start_tag(f.name.as_str());
        let closed = match &f.value {
            Value::Sequence(items) => self.serialize_items(items, true),
            _ => {
                self.serialize_content(&f.value)?;
                self.end_tag()
            },
        };
        proof {
            let node = NodeModel::Element { name: f.name@, children: content_nodes(f@.value) };
            lemma_flatten_all_single(node);
            assert(final(self).events() =~= old(self).events() + flatten(node));
            assert(final(self).open_tags() =~= old(self).open_tags());
        }
        closed
    }

    /// Writes the items of a sequence under the element that is open. With
    /// `must_close_tag` the sequence is the whole content of that element,
    /// and the element is closed behind the last item; where no element is
    /// open then, the items are written and the call fails.
    pub fn serialize_items(&mut self, items: &Vec<Value>, must_close_tag: bool) -> (r: Result<
        (),
        Error,
    >)
        requires
            old(self).well_nested(),
        ensures
            final(self).well_nested(),
            r is Ok <==> (must_close_tag ==> old(self).open_tags().len() > 0),
            r is Err ==> r == Err::<(), Error>(Error::MalformedXml),
            final(self).events() == old(self).events() + flatten_all(
                items_nodes(values_model(items@)),
            ) + (if must_close_tag && old(self).open_tags().len() > 0 {
                seq![EventModel::EndElement { name: old(self).open_tags().last() }]
            } else {
                Seq::empty()
            }),
            final(self).open_tags() == (if must_close_tag && old(self).open_tags().len() > 0 {
                old(self).open_tags().drop_last()
            } else {
                old(self).open_tags()
            }),
        decreases items, 1nat,
    {
        let ghost model = values_model(items@);
        let mut seq = SeqSeralizer::new(self, must_close_tag);
        let mut i: usize = 0;
        proof {
            assert(model.take(0) =~= Seq::<ValueModel>::empty());
            assert(seq.ser.events() =~= old(self).events() + flatten_all(
                items_nodes(model.take(0)),
            ));
        }
        while i < items.len()
            invariant
                i <= items.len(),
                model == values_model(items@),
                seq.must_close_tag == must_close_tag,
                seq.ser.events() == old(self).events() + flatten_all(
                    items_nodes(model.take(i as int)),
                ),
                seq.ser.open_tags() == old(self).open_tags(),
                seq.ser.well_nested(),
                *final(seq.ser) == after_borrow(*self),
            decreases items.len() - i,
        {
            seq.serialize_element(&items[i])?;
            proof {
                let done = model.take(i as int);
                let next = model.take(i + 1);
                assert(next.drop_last() =~= done);
                assert(next.last() == items[i as int]@);
                lemma_flatten_all_concat(items_nodes(done), item_nodes(next.last()));
                assert(seq.ser.events() =~= old(self).events() + flatten_all(items_nodes(next)));
            }
            i += 1;
        }
        proof {
            assert(model.take(items.len() as int) =~= model);
        }
        let closed = seq.end();
        proof {
            let written = old(self).events() + flatten_all(items_nodes(model));
            if must_close_tag && old(self).open_tags().len() > 0 {
                assert(written.push(EventModel::EndElement { name: old(self).open_tags().last() })
                    =~= written + seq![
                    EventModel::EndElement { name: old(self).open_tags().last() },
                ]);
            } else {
                assert(written =~= written + Seq::<EventModel>::empty());
            }
        }
        closed
    }

    /// The events written so far, whether or not every element has been
    /// closed.
    pub fn into_events(self) -> (r: Vec<XmlEvent>)
        requires
            self.well_nested(),
        ensures
            events_model(r@) == self.events(),
            open_after(self.events()) == Some(self.open_tags()),
    {
        self.events
    }

    /// The events written, where every element has been closed. While an
    /// element is open the document is not complete, and the call fails.
    pub fn finish(self) -> (r: Result<Vec<XmlEvent>, Error>)
        requires
            self.well_nested(),
        ensures
            match r {
                Ok(events) => {
                    &&& self.open_tags().len() == 0
                    &&& events_model(events@) == self.events()
                    &&& open_after(self.events()) == Some(Seq::<Seq<char>>::empty())
                },
                Err(e) => e == Error::UnexpectedEof && self.open_tags().len() > 0,
            },
    {
        if self.open.len() > 0 {
            Err(Error::UnexpectedEof)
        } else {
            proof {
                assert(names_model(self.open@) =~= Seq::<Seq<char>>::empty());
            }
            Ok(self.events)
        }
    }
}

/// The events of a document whose root is `v`.
pub fn to_events(v: &Value) -> (r: Vec<XmlEvent>)
    ensures
        events_model(r@) == document_events(v@),
{
    let mut ser = Serializer::new();
    ser.start_document();
    let _ = ser.serialize_item(v);
    proof {
        assert(ser.events() =~= document_events(v@));
    }
    ser.into_events()
}

} // verus!
