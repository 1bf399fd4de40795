use serde_xml_rs::{
    to_events, to_string, write_events, Error, Field, SeqSeralizer, Serializer, Value, XmlEvent,
};

fn item(name: &str, source: &str) -> Value {
    Value::structure(
        "Item",
        vec![
            Field::new("name", Value::text(name)),
            Field::new("source", Value::text(source)),
        ],
    )
}

fn start(name: &str) -> XmlEvent {
    XmlEvent::StartElement { name: name.to_string() }
}

fn end(name: &str) -> XmlEvent {
    XmlEvent::EndElement { name: name.to_string() }
}

fn text(s: &str) -> XmlEvent {
    XmlEvent::Characters(s.to_string())
}

#[test]
fn unit_variant_is_an_empty_element() {
    let nodes = Value::structure(
        "Nodes",
        vec![Field::body(Value::sequence(vec![Value::unit_variant("EOF")]))],
    );
    let written = to_string(&nodes).unwrap();
    assert!(written.contains("<Nodes><EOF /></Nodes>"));
    assert_eq!(
        to_events(&nodes),
        vec![XmlEvent::StartDocument, start("Nodes"), start("EOF"), end("EOF"), end("Nodes")]
    );
}

#[test]
fn struct_like_variant_nests_its_fields() {
    let identifier = Value::struct_variant(
        "Identifier",
        vec![
            Field::new("value", Value::text("foo")),
            Field::new("index", Value::integer(5)),
        ],
    );
    assert_eq!(
        to_string(&identifier).unwrap(),
        "<?xml version=\"1.0\" encoding=\"UTF-8\"?><Identifier><value>foo</value><index>5</index></Identifier>"
    );
}

#[test]
fn single_value_variant_has_no_extra_wrapping() {
    let wrapped = Value::newtype_variant("Wrapped", item("Apple", "Store"));
    assert_eq!(
        to_string(&wrapped).unwrap(),
        "<?xml version=\"1.0\" encoding=\"UTF-8\"?><Wrapped><name>Apple</name><source>Store</source></Wrapped>"
    );
}

#[test]
fn list_of_structs_in_a_named_field() {
    let basket = Value::structure(
        "Basket",
        vec![Field::new(
            "items",
            Value::sequence(vec![item("Apple", "Store"), item("Orange", "Store")]),
        )],
    );
    assert_eq!(
        to_string(&basket).unwrap(),
        "<?xml version=\"1.0\" encoding=\"UTF-8\"?><Basket><items><Item><name>Apple</name><source>Store</source></Item><Item><name>Orange</name><source>Store</source></Item></items></Basket>"
    );
}

#[test]
fn struct_in_a_field_takes_the_field_name() {
    let order = Value::structure("Order", vec![Field::new("first", item("Apple", "Store"))]);
    assert_eq!(
        to_string(&order).unwrap(),
        "<?xml version=\"1.0\" encoding=\"UTF-8\"?><Order><first><name>Apple</name><source>Store</source></first></Order>"
    );
}

#[test]
fn absent_optional_marked_for_omission_writes_nothing() {
    let absent = Value::structure(
        "Delete",
        vec![
            Field::new("key", Value::text("k")),
            Field::optional("quiet", Value::none()),
        ],
    );
    assert_eq!(
        to_string(&absent).unwrap(),
        "<?xml version=\"1.0\" encoding=\"UTF-8\"?><Delete><key>k</key></Delete>"
    );
}

#[test]
fn present_optional_is_written_as_the_value_itself() {
    let present = Value::structure(
        "Delete",
        vec![Field::optional("quiet", Value::some(Value::boolean(true)))],
    );
    let plain = Value::structure("Delete", vec![Field::new("quiet", Value::boolean(true))]);
    assert_eq!(to_string(&present).unwrap(), to_string(&plain).unwrap());
    assert_eq!(
        to_string(&present).unwrap(),
        "<?xml version=\"1.0\" encoding=\"UTF-8\"?><Delete><quiet>true</quiet></Delete>"
    );
}

#[test]
fn absent_optional_not_marked_is_an_empty_element() {
    let absent = Value::structure("Delete", vec![Field::new("quiet", Value::none())]);
    assert_eq!(
        to_string(&absent).unwrap(),
        "<?xml version=\"1.0\" encoding=\"UTF-8\"?><Delete><quiet /></Delete>"
    );
}

#[test]
fn struct_without_fields_is_an_empty_element() {
    let empty = Value::structure("Empty", vec![]);
    assert_eq!(
        to_string(&empty).unwrap(),
        "<?xml version=\"1.0\" encoding=\"UTF-8\"?><Empty />"
    );
}

#[test]
fn value_that_is_no_element_cannot_be_a_document() {
    assert_eq!(to_string(&Value::text("alone")), Err(Error::TypeMismatch));
    assert_eq!(to_string(&Value::sequence(vec![])), Err(Error::TypeMismatch));
    assert_eq!(to_string(&Value::none()), Err(Error::TypeMismatch));
    assert!(to_string(&Value::some(Value::unit_variant("A"))).is_ok());
}

#[test]
fn sequence_that_owns_the_tag_closes_it() {
    let mut ser = Serializer::new();
    ser.start_tag("items");
    let mut seq = SeqSeralizer::new(&mut ser, true);
    seq.serialize_element(&item("Apple", "Store")).unwrap();
    seq.serialize_element(&Value::unit_variant("EOF")).unwrap();
    assert_eq!(seq.end(), Ok(()));
    let events = ser.finish().unwrap();
    assert_eq!(
        events,
        vec![
            start("items"),
            start("Item"),
            start("name"),
            text("Apple"),
            end("name"),
            start("source"),
            text("Store"),
            end("source"),
            end("Item"),
            start("EOF"),
            end("EOF"),
            end("items"),
        ]
    );
    assert_eq!(
        write_events(&events),
        "<items><Item><name>Apple</name><source>Store</source></Item><EOF /></items>"
    );
}

#[test]
fn sequence_of_independent_items_closes_nothing() {
    let mut ser = Serializer::new();
    ser.start_tag("Nodes");
    let mut seq = SeqSeralizer::new(&mut ser, false);
    seq.serialize_element(&Value::unit_variant("EOF")).unwrap();
    assert_eq!(seq.end(), Ok(()));
    // The parent tag is still open: the document is not complete.
    assert_eq!(ser.end_tag(), Ok(()));
    assert_eq!(
        ser.finish().unwrap(),
        vec![start("Nodes"), start("EOF"), end("EOF"), end("Nodes")]
    );
}

#[test]
fn empty_sequence_that_owns_the_tag_leaves_an_empty_element() {
    let mut ser = Serializer::new();
    ser.start_tag("items");
    let seq = SeqSeralizer::new(&mut ser, true);
    assert_eq!(seq.end(), Ok(()));
    assert_eq!(write_events(&ser.finish().unwrap()), "<items />");
}

#[test]
fn sequence_cannot_close_what_is_not_open() {
    let mut ser = Serializer::new();
    let seq = SeqSeralizer::new(&mut ser, true);
    assert_eq!(seq.end(), Err(Error::MalformedXml));
    assert_eq!(ser.finish().unwrap(), Vec::<XmlEvent>::new());
}

#[test]
fn closing_with_nothing_open_fails() {
    let mut ser = Serializer::new();
    assert_eq!(ser.end_tag(), Err(Error::MalformedXml));
    ser.start_tag("a");
    assert_eq!(ser.end_tag(), Ok(()));
    assert_eq!(ser.end_tag(), Err(Error::MalformedXml));
}

#[test]
fn open_element_keeps_the_document_unfinished() {
    let mut ser = Serializer::new();
    ser.start_document();
    ser.start_tag("a");
    ser.characters("text");
    assert_eq!(ser.finish(), Err(Error::UnexpectedEof));
}

#[test]
fn text_is_written_with_entities() {
    let events = vec![start("a"), text("1 < 2 && \"x\" > 'y'"), end("a")];
    assert_eq!(
        write_events(&events),
        "<a>1 &lt; 2 &amp;&amp; &quot;x&quot; &gt; &apos;y&apos;</a>"
    );
}

#[test]
fn scalar_items_share_the_open_element() {
    let list = Value::structure(
        "List",
        vec![Field::new(
            "n",
            Value::sequence(vec![Value::integer(1), Value::integer(-2)]),
        )],
    );
    assert_eq!(
        to_string(&list).unwrap(),
        "<?xml version=\"1.0\" encoding=\"UTF-8\"?><List><n>1-2</n></List>"
    );
}
