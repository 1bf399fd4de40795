use serde_xml_rs::{
    from_events, from_str, from_str_with, from_tree, read_events, read_tree, Error, Field,
    FieldShape, Node, ParserConfig, Shape, Value, VariantShape, XmlEvent,
};

fn item_shape() -> Shape {
    Shape::structure(
        "Item",
        vec![
            FieldShape::new("name", Shape::text()),
            FieldShape::new("source", Shape::text()),
        ],
    )
}

fn item(name: &str, source: &str) -> Value {
    Value::structure(
        "Item",
        vec![
            Field::new("name", Value::text(name)),
            Field::new("source", Value::text(source)),
        ],
    )
}

fn node_shape() -> Shape {
    Shape::enumeration(vec![
        VariantShape::newtype("Boolean", Shape::boolean()),
        VariantShape::structure(
            "Identifier",
            vec![
                FieldShape::new("value", Shape::text()),
                FieldShape::new("index", Shape::integer()),
            ],
        ),
        VariantShape::unit("EOF"),
    ])
}

fn nodes_shape() -> Shape {
    Shape::structure(
        "Nodes",
        vec![FieldShape::body(Shape::sequence(node_shape()))],
    )
}

fn element(name: &str, children: Vec<Node>) -> Node {
    Node::Element { name: name.to_string(), children }
}

fn start(name: &str) -> XmlEvent {
    XmlEvent::StartElement { name: name.to_string() }
}

fn end(name: &str) -> XmlEvent {
    XmlEvent::EndElement { name: name.to_string() }
}

fn text(s: &str) -> XmlEvent {
    XmlEvent::Characters(s.to_string())
}

#[test]
fn unknown_variant_is_an_error() {
    assert_eq!(
        from_str(&nodes_shape(), "<Nodes><EOF /><Bogus /></Nodes>"),
        Err(Error::UnknownVariant)
    );
    assert_eq!(from_str(&node_shape(), "<eof />"), Err(Error::UnknownVariant));
    let strict = ParserConfig::new();
    assert_eq!(
        from_str_with(&nodes_shape(), "<Nodes><Bogus>1</Bogus></Nodes>", &strict, true),
        Err(Error::UnknownVariant)
    );
}

#[test]
fn unit_variant_with_content_is_a_mismatch() {
    assert_eq!(from_str(&node_shape(), "<EOF>text</EOF>"), Err(Error::TypeMismatch));
    assert_eq!(from_str(&node_shape(), "<EOF><a /></EOF>"), Err(Error::TypeMismatch));
}

#[test]
fn text_that_is_no_number_is_a_mismatch() {
    assert_eq!(
        from_str(&node_shape(), "<Identifier><value>v</value><index>five</index></Identifier>"),
        Err(Error::TypeMismatch)
    );
    assert_eq!(
        from_str(&node_shape(), "<Boolean>yes</Boolean>"),
        Err(Error::TypeMismatch)
    );
    assert_eq!(
        from_str(&node_shape(), "<Boolean>true</Boolean>"),
        Ok(Value::newtype_variant("Boolean", Value::boolean(true)))
    );
}

#[test]
fn element_where_text_is_expected_is_a_mismatch() {
    assert_eq!(
        from_str(&item_shape(), "<Item><name><b /></name><source>s</source></Item>"),
        Err(Error::TypeMismatch)
    );
}

#[test]
fn text_where_fields_are_expected_is_a_mismatch() {
    assert_eq!(
        from_str(&item_shape(), "<Item>text<name>a</name><source>s</source></Item>"),
        Err(Error::TypeMismatch)
    );
}

#[test]
fn missing_field_is_an_error() {
    assert_eq!(
        from_str(&item_shape(), "<Item><name>Banana</name></Item>"),
        Err(Error::MissingField)
    );
}

#[test]
fn repeated_field_is_a_mismatch() {
    assert_eq!(
        from_str(
            &item_shape(),
            "<Item><name>a</name><name>b</name><source>s</source></Item>"
        ),
        Err(Error::TypeMismatch)
    );
}

#[test]
fn unknown_field_is_an_error_only_to_a_strict_reader() {
    let src = "<Item><name>Banana</name><extra>1</extra><source>Store</source></Item>";
    let config = ParserConfig::new();
    assert_eq!(
        from_str_with(&item_shape(), src, &config, true),
        Err(Error::UnknownField)
    );
    assert_eq!(
        from_str_with(&item_shape(), src, &config, false),
        Ok(item("Banana", "Store"))
    );
}

#[test]
fn absent_optional_field_is_not_present() {
    let shape = Shape::structure(
        "Delete",
        vec![
            FieldShape::new("key", Shape::text()),
            FieldShape::optional("quiet", Shape::optional(Shape::boolean())),
        ],
    );
    assert_eq!(
        from_str(&shape, "<Delete><key>k</key></Delete>"),
        Ok(Value::structure(
            "Delete",
            vec![
                Field::new("key", Value::text("k")),
                Field::optional("quiet", Value::none()),
            ],
        ))
    );
    assert_eq!(
        from_str(&shape, "<Delete><quiet>false</quiet><key>k</key></Delete>"),
        Ok(Value::structure(
            "Delete",
            vec![
                Field::new("key", Value::text("k")),
                Field::optional("quiet", Value::some(Value::boolean(false))),
            ],
        ))
    );
}

#[test]
fn root_of_another_name_is_a_mismatch() {
    assert_eq!(
        from_str(&item_shape(), "<Thing><name>a</name><source>b</source></Thing>"),
        Err(Error::TypeMismatch)
    );
}

#[test]
fn sequence_of_structs_stops_at_the_first_other_tag() {
    let shape = Shape::structure(
        "Items",
        vec![FieldShape::body(Shape::sequence(item_shape()))],
    );
    let src = "<Items><Item><name>a</name><source>b</source></Item><Other /><Item><name>c</name><source>d</source></Item></Items>";
    let config = ParserConfig::new();
    assert_eq!(
        from_str_with(&shape, src, &config, false),
        Ok(Value::structure(
            "Items",
            vec![Field::body(Value::sequence(vec![item("a", "b")]))],
        ))
    );
    assert_eq!(from_str_with(&shape, src, &config, true), Err(Error::UnknownField));
}

#[test]
fn named_list_must_hold_only_its_items() {
    let shape = Shape::structure(
        "Basket",
        vec![FieldShape::new("items", Shape::sequence(item_shape()))],
    );
    assert_eq!(
        from_str(&shape, "<Basket><items><Item><name>a</name><source>b</source></Item></items></Basket>"),
        Ok(Value::structure(
            "Basket",
            vec![Field::new("items", Value::sequence(vec![item("a", "b")]))],
        ))
    );
    assert_eq!(
        from_str(&shape, "<Basket><items /></Basket>"),
        Ok(Value::structure(
            "Basket",
            vec![Field::new("items", Value::sequence(vec![]))],
        ))
    );
    assert_eq!(
        from_str(&shape, "<Basket><items><Other /></items></Basket>"),
        Err(Error::TypeMismatch)
    );
}

#[test]
fn text_that_ends_early_is_an_unexpected_end() {
    assert_eq!(from_str(&item_shape(), ""), Err(Error::UnexpectedEof));
    assert_eq!(from_str(&item_shape(), "   \n "), Err(Error::UnexpectedEof));
    assert_eq!(
        from_str(&item_shape(), "<Item><name>Banana</name>"),
        Err(Error::UnexpectedEof)
    );
    assert_eq!(from_str(&item_shape(), "<Item><na"), Err(Error::UnexpectedEof));
    assert_eq!(from_str(&item_shape(), "<?xml version=\"1.0\""), Err(Error::UnexpectedEof));
}

#[test]
fn text_outside_the_subset_is_malformed() {
    assert_eq!(
        from_str(&item_shape(), "<Item><name>Banana</source></Item>"),
        Err(Error::MalformedXml)
    );
    assert_eq!(from_str(&item_shape(), "<Item a=\"1\"></Item>"), Err(Error::MalformedXml));
    assert_eq!(
        from_str(&item_shape(), "<Item><name>&bogus;</name><source>s</source></Item>"),
        Err(Error::MalformedXml)
    );
    assert_eq!(from_str(&item_shape(), "</Item>"), Err(Error::MalformedXml));
    assert_eq!(from_str(&item_shape(), "text<Item />"), Err(Error::MalformedXml));
    assert_eq!(from_str(&item_shape(), "<Item /><Item />"), Err(Error::MalformedXml));
    assert_eq!(from_str(&item_shape(), "<!-- c --><Item />"), Err(Error::MalformedXml));
    assert_eq!(from_str(&item_shape(), "<1tem />"), Err(Error::MalformedXml));
}

#[test]
fn events_of_a_document() {
    let config = ParserConfig::new();
    assert_eq!(
        read_events("<a><b>x &amp; y</b><c /></a>", &config),
        Ok(vec![
            XmlEvent::StartDocument,
            start("a"),
            start("b"),
            text("x & y"),
            end("b"),
            start("c"),
            end("c"),
            end("a"),
        ])
    );
}

#[test]
fn whitespace_between_tags_follows_the_configuration() {
    let src = "<a> <b> x </b> </a>";
    let keep = ParserConfig::new().whitespace_to_characters(true);
    assert_eq!(
        read_events(src, &keep),
        Ok(vec![
            XmlEvent::StartDocument,
            start("a"),
            text(" "),
            start("b"),
            text(" x "),
            end("b"),
            text(" "),
            end("a"),
        ])
    );
    let drop = ParserConfig::new();
    assert_eq!(
        read_events(src, &drop),
        Ok(vec![
            XmlEvent::StartDocument,
            start("a"),
            start("b"),
            text(" x "),
            end("b"),
            end("a"),
        ])
    );
    let trim = ParserConfig::new().trim_whitespace(true).whitespace_to_characters(true);
    assert_eq!(
        read_events(src, &trim),
        Ok(vec![
            XmlEvent::StartDocument,
            start("a"),
            start("b"),
            text("x"),
            end("b"),
            end("a"),
        ])
    );
}

#[test]
fn tree_of_events() {
    let events = vec![
        XmlEvent::StartDocument,
        start("a"),
        start("b"),
        text("x"),
        end("b"),
        start("c"),
        end("c"),
        end("a"),
    ];
    assert_eq!(
        read_tree(&events),
        Ok(element(
            "a",
            vec![
                element("b", vec![Node::Text("x".to_string())]),
                element("c", vec![]),
            ],
        ))
    );
}

#[test]
fn events_that_are_no_tree() {
    assert_eq!(read_tree(&vec![]), Err(Error::UnexpectedEof));
    assert_eq!(read_tree(&vec![XmlEvent::StartDocument]), Err(Error::UnexpectedEof));
    assert_eq!(read_tree(&vec![start("a"), end("a")]), Err(Error::MalformedXml));
    assert_eq!(
        read_tree(&vec![XmlEvent::StartDocument, start("a")]),
        Err(Error::UnexpectedEof)
    );
    assert_eq!(
        read_tree(&vec![XmlEvent::StartDocument, start("a"), end("b")]),
        Err(Error::MalformedXml)
    );
    assert_eq!(
        read_tree(&vec![XmlEvent::StartDocument, start("a"), end("a"), end("a")]),
        Err(Error::MalformedXml)
    );
    assert_eq!(
        read_tree(&vec![XmlEvent::StartDocument, text("x")]),
        Err(Error::MalformedXml)
    );
    assert_eq!(
        read_tree(&vec![XmlEvent::StartDocument, start("a"), end("a"), start("b"), end("b")]),
        Err(Error::MalformedXml)
    );
    assert_eq!(
        read_tree(&vec![XmlEvent::StartDocument, start("a"), XmlEvent::StartDocument, end("a")]),
        Err(Error::MalformedXml)
    );
}

#[test]
fn value_from_a_tree_and_from_events() {
    let tree = element(
        "Item",
        vec![
            element("name", vec![Node::Text("Banana".to_string())]),
            element("source", vec![]),
        ],
    );
    assert_eq!(from_tree(&item_shape(), &tree, true), Ok(item("Banana", "")));
    let events = vec![
        XmlEvent::StartDocument,
        start("Item"),
        start("source"),
        text("Store"),
        end("source"),
        start("name"),
        text("Banana"),
        end("name"),
        end("Item"),
    ];
    assert_eq!(from_events(&item_shape(), &events, true), Ok(item("Banana", "Store")));
}

#[test]
fn error_messages() {
    assert_eq!(Error::UnexpectedEof.message(), "unexpected end of input");
    assert_eq!(Error::UnknownField.message(), "unknown field");
    assert_eq!(Error::MissingField.message(), "missing field");
    assert_eq!(Error::UnknownVariant.message(), "unknown variant");
    assert_eq!(Error::TypeMismatch.message(), "type mismatch");
    assert_eq!(Error::MalformedXml.message(), "malformed XML");
}
