use serde_xml_rs::{
    from_str_with, has_shape, is_item_shape, is_writable, to_string, to_string_checked, Field,
    FieldShape, ParserConfig, Shape, Value, VariantShape,
};

/// A small generator of numbers, the same on every run.
struct Numbers(u64);

impl Numbers {
    fn next(&mut self, bound: u64) -> u64 {
        self.0 = self.0.wrapping_mul(6364136223846793005).wrapping_add(1442695040888963407);
        (self.0 >> 33) % bound
    }
}

const TEXTS: [&str; 8] = ["", "a", "two words", "1 < 2 & 3 > 2", "\"quoted\" 'text'", "x", "é", "a\nb"];

fn scalar(numbers: &mut Numbers) -> (Shape, Value) {
    match numbers.next(3) {
        0 => (Shape::boolean(), Value::boolean(numbers.next(2) == 0)),
        1 => {
            let n = numbers.next(2000) as i64 - 1000;
            (Shape::integer(), Value::integer(n * 1_000_003))
        }
        _ => (Shape::text(), Value::text(TEXTS[numbers.next(8) as usize])),
    }
}

fn fields(numbers: &mut Numbers, depth: u32, prefix: &str) -> (Vec<FieldShape>, Vec<Field>) {
    let mut shapes = Vec::new();
    let mut values = Vec::new();
    let count = numbers.next(4);
    for i in 0..count {
        let name = format!("{}{}", prefix, i);
        match numbers.next(4) {
            0 => {
                let (shape, value) = content(numbers, depth);
                shapes.push(FieldShape::new(&name, shape));
                values.push(Field::new(&name, value));
            }
            1 => {
                let (shape, value) = content(numbers, depth);
                shapes.push(FieldShape::optional(&name, Shape::optional(shape)));
                if numbers.next(2) == 0 {
                    values.push(Field::optional(&name, Value::some(value)));
                } else {
                    values.push(Field::optional(&name, Value::none()));
                }
            }
            _ => {
                let (shape, items) = list(numbers, depth);
                shapes.push(FieldShape::new(&name, Shape::sequence(shape)));
                values.push(Field::new(&name, Value::sequence(items)));
            }
        }
    }
    if numbers.next(3) == 0 {
        let (shape, items) = list(numbers, depth);
        shapes.push(FieldShape::body(Shape::sequence(shape)));
        values.push(Field::body(Value::sequence(items)));
    }
    (shapes, values)
}

/// A shape of items, and some items of it.
fn list(numbers: &mut Numbers, depth: u32) -> (Shape, Vec<Value>) {
    let shape = if numbers.next(2) == 0 {
        let (shapes, _) = fields(numbers, depth.saturating_sub(1), "f");
        Shape::structure("Item", shapes)
    } else {
        Shape::enumeration(vec![
            VariantShape::unit("None"),
            VariantShape::newtype("One", Shape::integer()),
            VariantShape::structure("Pair", vec![
                FieldShape::new("left", Shape::text()),
                FieldShape::new("right", Shape::boolean()),
            ]),
        ])
    };
    let mut items = Vec::new();
    for _ in 0..numbers.next(4) {
        items.push(value_of(numbers, &shape));
    }
    (shape, items)
}

fn content(numbers: &mut Numbers, depth: u32) -> (Shape, Value) {
    if depth == 0 || numbers.next(3) == 0 {
        return scalar(numbers);
    }
    let (shape, _) = list(numbers, depth - 1);
    let value = value_of(numbers, &shape);
    (shape, value)
}

/// Some value of the given shape.
fn value_of(numbers: &mut Numbers, shape: &Shape) -> Value {
    match shape {
        Shape::Scalar(kind) => match kind {
            serde_xml_rs::ScalarKind::Bool => Value::boolean(numbers.next(2) == 0),
            serde_xml_rs::ScalarKind::Int => Value::integer(numbers.next(100) as i64 - 50),
            serde_xml_rs::ScalarKind::Text => Value::text(TEXTS[numbers.next(8) as usize]),
        },
        Shape::Struct { name, fields } => Value::structure(name, fields_of(numbers, fields)),
        Shape::Enum { variants } => {
            let variant = &variants[numbers.next(variants.len() as u64) as usize];
            match &variant.payload {
                serde_xml_rs::PayloadShape::Unit => Value::unit_variant(&variant.name),
                serde_xml_rs::PayloadShape::Single(inner) => {
                    Value::newtype_variant(&variant.name, value_of(numbers, inner))
                }
                serde_xml_rs::PayloadShape::Struct(fields) => {
                    Value::struct_variant(&variant.name, fields_of(numbers, fields))
                }
            }
        }
        Shape::Sequence(item) => {
            let mut items = Vec::new();
            for _ in 0..numbers.next(3) {
                items.push(value_of(numbers, item));
            }
            Value::sequence(items)
        }
        Shape::Optional(inner) => {
            if numbers.next(2) == 0 {
                Value::none()
            } else {
                Value::some(value_of(numbers, inner))
            }
        }
    }
}

fn fields_of(numbers: &mut Numbers, shapes: &Vec<FieldShape>) -> Vec<Field> {
    let mut values = Vec::new();
    for shape in shapes {
        values.push(Field {
            name: shape.name.clone(),
            value: value_of(numbers, &shape.shape),
            flatten: shape.flatten,
            omit_if_absent: shape.omit_if_absent,
        });
    }
    values
}

#[test]
fn round_trip_of_generated_values() {
    let mut numbers = Numbers(2024);
    let config = ParserConfig::new().whitespace_to_characters(true);
    let mut written = 0;
    for _ in 0..400 {
        let (shapes, values) = fields(&mut numbers, 3, "field");
        let shape = Shape::structure("Root", shapes);
        let value = Value::structure("Root", values);
        assert!(is_item_shape(&shape));
        assert!(has_shape(&value, &shape));
        assert!(is_writable(&value, &config));
        let text = to_string_checked(&value, &shape, &config).unwrap();
        written += 1;
        assert_eq!(text, to_string(&value).unwrap());
        assert_eq!(from_str_with(&shape, &text, &config, true).as_ref(), Ok(&value));
        assert_eq!(from_str_with(&shape, &text, &config, false).as_ref(), Ok(&value));
    }
    assert_eq!(written, 400);
}

#[test]
fn generated_values_under_a_trimming_reader() {
    let mut numbers = Numbers(7);
    let config = ParserConfig::new().trim_whitespace(true).whitespace_to_characters(true);
    let mut refused = 0;
    for _ in 0..400 {
        let (shapes, values) = fields(&mut numbers, 3, "field");
        let shape = Shape::structure("Root", shapes);
        let value = Value::structure("Root", values);
        match to_string_checked(&value, &shape, &config) {
            Some(text) => {
                assert_eq!(from_str_with(&shape, &text, &config, true).as_ref(), Ok(&value));
            }
            None => {
                assert!(!is_writable(&value, &config));
                refused += 1;
            }
        }
    }
    // No text of the generator has whitespace at its ends: all get through.
    assert_eq!(refused, 0);
}
