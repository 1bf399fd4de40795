use serde_xml_rs::{
    from_str, from_str_with, to_string, Field, FieldShape, ParserConfig, Shape, Value, VariantShape,
};

fn item_shape() -> Shape {
    Shape::structure(
        "Item",
        vec![
            FieldShape::new("name", Shape::text()),
            FieldShape::new("source", Shape::text()),
        ],
    )
}

fn item(name: &str, source: &str) -> Value {
    Value::structure(
        "Item",
        vec![
            Field::new("name", Value::text(name)),
            Field::new("source", Value::text(source)),
        ],
    )
}

fn items_shape() -> Shape {
    Shape::structure(
        "Items",
        vec![FieldShape::body(Shape::sequence(item_shape()))],
    )
}

fn node_shape() -> Shape {
    Shape::enumeration(vec![
        VariantShape::newtype("Boolean", Shape::boolean()),
        VariantShape::structure(
            "Identifier",
            vec![
                FieldShape::new("value", Shape::text()),
                FieldShape::new("index", Shape::integer()),
            ],
        ),
        VariantShape::unit("EOF"),
    ])
}

fn nodes_shape() -> Shape {
    Shape::structure(
        "Nodes",
        vec![FieldShape::body(Shape::sequence(node_shape()))],
    )
}

fn object_identifier_shape() -> Shape {
    Shape::structure(
        "ObjectIdentifier",
        vec![
            FieldShape::new("key", Shape::text()),
            FieldShape::optional("version_id", Shape::optional(Shape::text())),
        ],
    )
}

fn delete_shape() -> Shape {
    Shape::structure(
        "Delete",
        vec![
            FieldShape::new("objects", Shape::sequence(object_identifier_shape())),
            FieldShape::optional("quiet", Shape::optional(Shape::boolean())),
        ],
    )
}

fn object_identifier(key: &str, version_id: Option<&str>) -> Value {
    let version = match version_id {
        Some(v) => Value::some(Value::text(v)),
        None => Value::none(),
    };
    Value::structure(
        "ObjectIdentifier",
        vec![
            Field::new("key", Value::text(key)),
            Field::optional("version_id", version),
        ],
    )
}

#[test]
fn basic_struct() {
    let src = r#"<?xml version="1.0" encoding="UTF-8"?><Item><name>Banana</name><source>Store</source></Item>"#;
    let should_be = item("Banana", "Store");

    let item = from_str(&item_shape(), src).unwrap();
    assert_eq!(item, should_be);

    let reserialized_item = to_string(&item).unwrap();
    assert_eq!(src, reserialized_item);
}

#[test]
fn round_trip_list_of_enums() {
    let nodes = Value::structure(
        "Nodes",
        vec![Field::body(Value::sequence(vec![
            Value::newtype_variant("Boolean", Value::boolean(true)),
            Value::struct_variant(
                "Identifier",
                vec![
                    Field::new("value", Value::text("foo")),
                    Field::new("index", Value::integer(5)),
                ],
            ),
            Value::unit_variant("EOF"),
        ]))],
    );

    let should_be = r#"<?xml version="1.0" encoding="UTF-8"?><Nodes><Boolean>true</Boolean><Identifier><value>foo</value><index>5</index></Identifier><EOF /></Nodes>"#;

    let serialized_nodes = to_string(&nodes).unwrap();
    assert_eq!(serialized_nodes, should_be);

    let deserialized_nodes = from_str(&nodes_shape(), serialized_nodes.as_str()).unwrap();
    assert_eq!(deserialized_nodes, nodes);
}

#[test]
fn whitespace_preserving_config() {
    let src = r#"
    <?xml version="1.0" encoding="UTF-8"?>
    <Item>
        <name>  space banana  </name>
        <source>   fantasy costco   </source>
    </Item>"#;

    let item_should_be = item("  space banana  ", "   fantasy costco   ");
    let config = ParserConfig::new()
        .trim_whitespace(false)
        .whitespace_to_characters(false);

    let item = from_str_with(&item_shape(), src, &config, false).unwrap();
    assert_eq!(item, item_should_be);

    let serialized_should_be =
        "<?xml version=\"1.0\" encoding=\"UTF-8\"?><Item><name>  space banana  </name><source>   fantasy costco   </source></Item>";
    let reserialized_item = to_string(&item).unwrap();
    assert_eq!(reserialized_item, serialized_should_be);
}

#[test]
fn round_trip_list_of_structs() {
    let src = r#"<?xml version="1.0" encoding="UTF-8"?><Items><Item><name>Apple</name><source>Store</source></Item><Item><name>Orange</name><source>Store</source></Item></Items>"#;
    let should_be = Value::structure(
        "Items",
        vec![Field::body(Value::sequence(vec![
            item("Apple", "Store"),
            item("Orange", "Store"),
        ]))],
    );

    let items = from_str(&items_shape(), src).unwrap();
    assert_eq!(items, should_be);

    let reserialized_items = to_string(&items).unwrap();
    assert_eq!(src, reserialized_items);
}

#[test]
fn round_trip_nested_list_with_optionals() {
    let src = r#"<?xml version="1.0" encoding="UTF-8"?><Delete><objects><ObjectIdentifier><key>foo</key><version_id>version1</version_id></ObjectIdentifier><ObjectIdentifier><key>bar</key></ObjectIdentifier><ObjectIdentifier><key>baz</key><version_id>version2</version_id></ObjectIdentifier></objects><quiet>true</quiet></Delete>"#;
    let should_be = Value::structure(
        "Delete",
        vec![
            Field::new(
                "objects",
                Value::sequence(vec![
                    object_identifier("foo", Some("version1")),
                    object_identifier("bar", None),
                    object_identifier("baz", Some("version2")),
                ]),
            ),
            Field::optional("quiet", Value::some(Value::boolean(true))),
        ],
    );

    let delete = from_str(&delete_shape(), src).unwrap();
    assert_eq!(delete, should_be);

    let reserialized = to_string(&delete).unwrap();
    assert_eq!(src, reserialized);
}

#[test]
fn round_trip_holds_for_strict_and_lenient_readers() {
    let value = Value::structure(
        "Nodes",
        vec![Field::body(Value::sequence(vec![
            Value::unit_variant("EOF"),
            Value::newtype_variant("Boolean", Value::boolean(false)),
        ]))],
    );
    let text = to_string(&value).unwrap();
    let config = ParserConfig::new();
    assert_eq!(from_str_with(&nodes_shape(), &text, &config, true).unwrap(), value);
    assert_eq!(from_str_with(&nodes_shape(), &text, &config, false).unwrap(), value);
    let again = to_string(&from_str(&nodes_shape(), &text).unwrap()).unwrap();
    assert_eq!(again, text);
}

#[test]
fn round_trip_of_reserved_characters() {
    let value = item("a<b & \"c\" 'd' >e", "x");
    let text = to_string(&value).unwrap();
    assert_eq!(
        text,
        "<?xml version=\"1.0\" encoding=\"UTF-8\"?><Item><name>a&lt;b &amp; &quot;c&quot; &apos;d&apos; &gt;e</name><source>x</source></Item>"
    );
    assert_eq!(from_str(&item_shape(), &text).unwrap(), value);
}

#[test]
fn round_trip_of_empty_text() {
    let value = item("", "Store");
    let text = to_string(&value).unwrap();
    assert_eq!(
        text,
        "<?xml version=\"1.0\" encoding=\"UTF-8\"?><Item><name /><source>Store</source></Item>"
    );
    assert_eq!(from_str(&item_shape(), &text).unwrap(), value);
}

#[test]
fn round_trip_of_integers_at_the_limits() {
    let shape = Shape::structure(
        "Range",
        vec![
            FieldShape::new("low", Shape::integer()),
            FieldShape::new("high", Shape::integer()),
        ],
    );
    let value = Value::structure(
        "Range",
        vec![
            Field::new("low", Value::integer(i64::MIN)),
            Field::new("high", Value::integer(i64::MAX)),
        ],
    );
    let text = to_string(&value).unwrap();
    assert_eq!(
        text,
        "<?xml version=\"1.0\" encoding=\"UTF-8\"?><Range><low>-9223372036854775808</low><high>9223372036854775807</high></Range>"
    );
    assert_eq!(from_str(&shape, &text).unwrap(), value);
}

#[test]
fn fields_are_read_in_any_order() {
    let src = "<Item><source>Store</source><name>Banana</name></Item>";
    assert_eq!(from_str(&item_shape(), src).unwrap(), item("Banana", "Store"));
}

#[test]
fn empty_element_is_read_like_a_pair_of_tags() {
    let unit = Value::structure(
        "Nodes",
        vec![Field::body(Value::sequence(vec![Value::unit_variant("EOF")]))],
    );
    assert_eq!(from_str(&nodes_shape(), "<Nodes><EOF /></Nodes>").unwrap(), unit);
    assert_eq!(from_str(&nodes_shape(), "<Nodes><EOF/></Nodes>").unwrap(), unit);
    assert_eq!(from_str(&nodes_shape(), "<Nodes><EOF></EOF></Nodes>").unwrap(), unit);
}

#[test]
fn trimming_reader_drops_whitespace_at_the_ends() {
    let src = "<Item>\n  <name>  space banana  </name>\n  <source>Store</source>\n</Item>";
    assert_eq!(from_str(&item_shape(), src).unwrap(), item("space banana", "Store"));
}
