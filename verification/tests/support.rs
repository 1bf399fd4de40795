use serde_xml_rs::support::{content_is_writable, is_content_shape, is_kept_text, is_xml_name};
use serde_xml_rs::{
    from_str_with, has_shape, is_item_shape, is_writable, to_string, to_string_checked, Field,
    FieldShape, ParserConfig, Shape, Value, VariantShape,
};

fn item_shape() -> Shape {
    Shape::structure(
        "Item",
        vec![
            FieldShape::new("name", Shape::text()),
            FieldShape::new("source", Shape::text()),
        ],
    )
}

fn item(name: &str, source: &str) -> Value {
    Value::structure(
        "Item",
        vec![
            Field::new("name", Value::text(name)),
            Field::new("source", Value::text(source)),
        ],
    )
}

fn node_shape() -> Shape {
    Shape::enumeration(vec![
        VariantShape::newtype("Boolean", Shape::boolean()),
        VariantShape::unit("EOF"),
    ])
}

#[test]
fn shapes_whose_values_can_be_told_apart() {
    assert!(is_item_shape(&item_shape()));
    assert!(is_item_shape(&node_shape()));
    assert!(is_item_shape(&Shape::structure(
        "Nodes",
        vec![
            FieldShape::new("count", Shape::integer()),
            FieldShape::body(Shape::sequence(node_shape())),
            FieldShape::optional("note", Shape::optional(Shape::text())),
            FieldShape::new("items", Shape::sequence(item_shape())),
        ],
    )));
    assert!(is_content_shape(&Shape::text()));
    assert!(is_content_shape(&Shape::sequence(item_shape())));
}

#[test]
fn shapes_whose_values_cannot_be_told_apart() {
    // Only structs and enums bring a tag.
    assert!(!is_item_shape(&Shape::text()));
    assert!(!is_item_shape(&Shape::sequence(item_shape())));
    assert!(!is_content_shape(&Shape::optional(Shape::text())));
    assert!(!is_content_shape(&Shape::sequence(Shape::text())));
    // Two fields under one name.
    assert!(!is_item_shape(&Shape::structure(
        "Pair",
        vec![
            FieldShape::new("a", Shape::text()),
            FieldShape::new("a", Shape::integer()),
        ],
    )));
    // Two fields that stand for the body.
    assert!(!is_item_shape(&Shape::structure(
        "Both",
        vec![
            FieldShape::body(Shape::sequence(item_shape())),
            FieldShape::body(Shape::sequence(node_shape())),
        ],
    )));
    // An item of the body under the name of a field.
    assert!(!is_item_shape(&Shape::structure(
        "Clash",
        vec![
            FieldShape::new("Item", Shape::text()),
            FieldShape::body(Shape::sequence(item_shape())),
        ],
    )));
    assert!(!is_item_shape(&Shape::structure(
        "Clash",
        vec![
            FieldShape::body(Shape::sequence(node_shape())),
            FieldShape::new("EOF", Shape::text()),
        ],
    )));
    // A body that is no sequence.
    assert!(!is_item_shape(&Shape::structure(
        "Mixed",
        vec![FieldShape::body(Shape::text())],
    )));
    // An optional inside an optional.
    assert!(!is_item_shape(&Shape::structure(
        "Twice",
        vec![FieldShape::optional(
            "a",
            Shape::optional(Shape::optional(Shape::text())),
        )],
    )));
}

#[test]
fn values_of_a_shape() {
    assert!(has_shape(&item("a", "b"), &item_shape()));
    assert!(has_shape(&Value::unit_variant("EOF"), &node_shape()));
    assert!(has_shape(
        &Value::newtype_variant("Boolean", Value::boolean(true)),
        &node_shape()
    ));
    assert!(has_shape(
        &Value::sequence(vec![item("a", "b"), item("c", "d")]),
        &Shape::sequence(item_shape())
    ));
    assert!(has_shape(&Value::none(), &Shape::optional(Shape::text())));
    assert!(has_shape(
        &Value::some(Value::text("x")),
        &Shape::optional(Shape::text())
    ));
}

#[test]
fn values_of_another_shape() {
    assert!(!has_shape(&item("a", "b"), &node_shape()));
    assert!(!has_shape(&Value::text("a"), &Shape::integer()));
    assert!(!has_shape(&Value::unit_variant("Other"), &node_shape()));
    assert!(!has_shape(&Value::newtype_variant("EOF", Value::text("x")), &node_shape()));
    assert!(!has_shape(
        &Value::newtype_variant("Boolean", Value::integer(1)),
        &node_shape()
    ));
    // A field too few, a field under another name, a field in another order.
    assert!(!has_shape(
        &Value::structure("Item", vec![Field::new("name", Value::text("a"))]),
        &item_shape()
    ));
    assert!(!has_shape(
        &Value::structure(
            "Item",
            vec![
                Field::new("source", Value::text("b")),
                Field::new("name", Value::text("a")),
            ],
        ),
        &item_shape()
    ));
    assert!(!has_shape(
        &Value::structure(
            "Thing",
            vec![
                Field::new("name", Value::text("a")),
                Field::new("source", Value::text("b")),
            ],
        ),
        &item_shape()
    ));
    assert!(!has_shape(
        &Value::sequence(vec![item("a", "b"), Value::text("c")]),
        &Shape::sequence(item_shape())
    ));
    // An absent value in a field that is not marked to be left out.
    let shape = Shape::structure(
        "Delete",
        vec![FieldShape::new("quiet", Shape::optional(Shape::boolean()))],
    );
    assert!(!has_shape(
        &Value::structure("Delete", vec![Field::new("quiet", Value::none())]),
        &shape
    ));
    assert!(has_shape(
        &Value::structure(
            "Delete",
            vec![Field::new("quiet", Value::some(Value::boolean(true)))],
        ),
        &shape
    ));
}

#[test]
fn names_of_elements() {
    assert!(is_xml_name("Item"));
    assert!(is_xml_name("_a-b.c:d9"));
    assert!(is_xml_name("élément"));
    assert!(!is_xml_name(""));
    assert!(!is_xml_name("9lives"));
    assert!(!is_xml_name("-a"));
    assert!(!is_xml_name("two words"));
    assert!(!is_xml_name("a<b"));
    assert!(!is_xml_name("$value"));
}

#[test]
fn text_that_the_reader_keeps() {
    let plain = ParserConfig::new();
    let trimming = ParserConfig::new().trim_whitespace(true);
    let keeping = ParserConfig::new().whitespace_to_characters(true);
    assert!(is_kept_text("x", &plain));
    assert!(is_kept_text("  space banana  ", &plain));
    assert!(!is_kept_text("  space banana  ", &trimming));
    assert!(is_kept_text("space banana", &trimming));
    assert!(!is_kept_text("x\n", &trimming));
    assert!(!is_kept_text("   ", &plain));
    assert!(!is_kept_text("   ", &trimming));
    assert!(is_kept_text("   ", &keeping));
    assert!(!is_kept_text("", &plain));
    assert!(!is_kept_text("", &keeping));
}

#[test]
fn values_that_come_through_the_reader() {
    let plain = ParserConfig::new();
    let trimming = ParserConfig::new().trim_whitespace(true);
    assert!(is_writable(&item("  a  ", ""), &plain));
    assert!(!is_writable(&item("  a  ", ""), &trimming));
    assert!(!is_writable(&item(" ", "b"), &plain));
    assert!(is_writable(&Value::unit_variant("EOF"), &plain));
    assert!(!is_writable(&Value::unit_variant("E O F"), &plain));
    assert!(!is_writable(&Value::structure("no name", vec![]), &plain));
    assert!(content_is_writable(&Value::structure("no name", vec![]), &plain));
    assert!(!is_writable(
        &Value::structure("A", vec![Field::new("b c", Value::text("x"))]),
        &plain
    ));
    // The name of a field that is left out, or that stands for the body,
    // is never written.
    assert!(is_writable(
        &Value::structure("A", vec![Field::optional("b c", Value::none())]),
        &plain
    ));
    assert!(is_writable(
        &Value::structure("A", vec![Field::body(Value::sequence(vec![item("a", "b")]))]),
        &plain
    ));
    assert!(!is_writable(
        &Value::structure("A", vec![Field::body(Value::sequence(vec![item(" ", "b")]))]),
        &plain
    ));
    assert!(is_writable(&Value::integer(-5), &trimming));
    assert!(is_writable(&Value::boolean(true), &trimming));
}

#[test]
fn checked_writing_gives_what_is_read_back() {
    let value = item("  space banana  ", "Store");
    let plain = ParserConfig::new();
    let text = to_string_checked(&value, &item_shape(), &plain).unwrap();
    assert_eq!(text, to_string(&value).unwrap());
    assert_eq!(from_str_with(&item_shape(), &text, &plain, true), Ok(value));
}

#[test]
fn checked_writing_refuses_what_would_not_be_read_back() {
    let plain = ParserConfig::new();
    let trimming = ParserConfig::new().trim_whitespace(true);
    // The text would be trimmed.
    assert_eq!(
        to_string_checked(&item("  space banana  ", "Store"), &item_shape(), &trimming),
        None
    );
    // The value is of another shape.
    assert_eq!(to_string_checked(&Value::unit_variant("EOF"), &item_shape(), &plain), None);
    // Two strings in a row are read back as one.
    let list = Shape::structure(
        "List",
        vec![FieldShape::new("s", Shape::sequence(Shape::text()))],
    );
    let two = Value::structure(
        "List",
        vec![Field::new(
            "s",
            Value::sequence(vec![Value::text("a"), Value::text("b")]),
        )],
    );
    assert_eq!(to_string_checked(&two, &list, &plain), None);
    assert_eq!(
        to_string(&two).unwrap(),
        "<?xml version=\"1.0\" encoding=\"UTF-8\"?><List><s>ab</s></List>"
    );
}
