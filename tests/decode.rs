use quick_csv::{Csv, Error, IntKind, Row, Shape, Value, Variant};

fn first_row(data: &str) -> Row {
    Csv::from_string(data).next().unwrap().unwrap()
}

fn decode(data: &str, shape: &Shape) -> Result<Value, Error> {
    first_row(data).decode_shape(shape)
}

fn tuple(shapes: Vec<Shape>) -> Shape {
    Shape::Tuple(shapes)
}

fn opt(shape: Shape) -> Shape {
    Shape::Opt(Box::new(shape))
}

fn str_value(s: &str) -> Value {
    Value::Str(s.to_string())
}

#[test]
fn decode_int() {
    let v = decode("1", &tuple(vec![Shape::Int(IntKind::Usize)])).unwrap();
    assert_eq!(v, Value::Tuple(vec![Value::Int(1)]));
}

#[test]
fn decode_many_int() {
    let v = decode("1,2", &tuple(vec![Shape::Int(IntKind::Usize), Shape::Int(IntKind::I16)])).unwrap();
    assert_eq!(v, Value::Tuple(vec![Value::Int(1), Value::Int(2)]));
}

#[test]
fn decode_char() {
    assert_eq!(decode("a", &Shape::Char).unwrap(), Value::Char('a'));
}

#[test]
fn decode_char_too_long() {
    assert!(matches!(decode("ab", &Shape::Char), Err(Error::Decode(_))));
    assert!(matches!(decode("é", &Shape::Char), Err(Error::Decode(_))));
}

#[test]
fn decode_str() {
    let v = decode("abc", &tuple(vec![Shape::Str])).unwrap();
    assert_eq!(v, Value::Tuple(vec![str_value("abc")]));
}

#[test]
fn decode_opt_int() {
    let v = decode("a", &tuple(vec![opt(Shape::Int(IntKind::Usize))])).unwrap();
    assert_eq!(v, Value::Tuple(vec![Value::Opt(None)]));
}

#[test]
fn decode_opt_char() {
    let v = decode("ab", &tuple(vec![opt(Shape::Char)])).unwrap();
    assert_eq!(v, Value::Tuple(vec![Value::Opt(None)]));
}

#[test]
fn decode_opt_empty() {
    let v = decode("\"\"", &tuple(vec![opt(Shape::Str)])).unwrap();
    assert_eq!(v, Value::Tuple(vec![Value::Opt(None)]));
}

#[test]
fn decode_opt_present() {
    let v = decode("7", &opt(Shape::Int(IntKind::U8))).unwrap();
    assert_eq!(v, Value::Opt(Some(Box::new(Value::Int(7)))));
}

fn val_shape() -> Shape {
    Shape::Enum(vec![
        Variant { name: "Unsigned".to_string(), args: vec![Shape::Int(IntKind::Usize)] },
        Variant { name: "Signed".to_string(), args: vec![Shape::Int(IntKind::Isize)] },
        Variant { name: "Bool".to_string(), args: vec![Shape::Bool] },
    ])
}

#[test]
fn decode_opt_val() {
    // the tag does not match: the option is absent and its field taken
    let mut row_cols = first_row("1.0");
    let v = row_cols.decode_shape(&tuple(vec![opt(val_shape())])).unwrap();
    assert_eq!(v, Value::Tuple(vec![Value::Opt(None)]));
    row_cols = first_row("1.0");
    let mut cols = row_cols.columns().unwrap();
    assert_eq!(cols.decode_shape(&opt(val_shape())).unwrap(), Value::Opt(None));
    assert_eq!(cols.len(), 0);
}

#[test]
fn decode_val_variants() {
    let shape = tuple(vec![val_shape(), val_shape()]);
    let v = decode("Bool,false,Signed,-5", &shape).unwrap();
    assert_eq!(
        v,
        Value::Tuple(vec![
            Value::Variant(2, vec![Value::Bool(false)]),
            Value::Variant(1, vec![Value::Int(-5)]),
        ])
    );
}

#[test]
fn decode_tail() {
    let shape = tuple(vec![Shape::Str, Shape::Tail(Box::new(Shape::Int(IntKind::Usize)))]);
    let v = decode("abc,1,2,3,4", &shape).unwrap();
    assert_eq!(
        v,
        Value::Tuple(vec![
            str_value("abc"),
            Value::List(vec![Value::Int(1), Value::Int(2), Value::Int(3), Value::Int(4)]),
        ])
    );
}

#[test]
fn decode_myenum() {
    let my_enum = || {
        Shape::Enum(vec![
            Variant { name: "Enum1".to_string(), args: vec![] },
            Variant { name: "Enum2".to_string(), args: vec![] },
        ])
    };
    let shape = tuple(vec![my_enum(), my_enum(), my_enum()]);
    let v = decode("Enum1,Enum1,Enum2", &shape).unwrap();
    assert_eq!(
        v,
        Value::Tuple(vec![
            Value::Variant(0, vec![]),
            Value::Variant(0, vec![]),
            Value::Variant(1, vec![]),
        ])
    );
}

#[test]
fn decode_enum_unknown_tag() {
    assert!(matches!(decode("Other", &val_shape()), Err(Error::Decode(_))));
}

#[test]
fn decode_end_of_row() {
    let shape = tuple(vec![Shape::Str, Shape::Str, Shape::Str]);
    assert!(matches!(decode("a,b", &shape), Err(Error::UnexpectedEndOfRow)));
}

#[test]
fn decode_bool() {
    assert_eq!(decode("true", &Shape::Bool).unwrap(), Value::Bool(true));
    assert_eq!(decode("false", &Shape::Bool).unwrap(), Value::Bool(false));
    assert!(matches!(decode("True", &Shape::Bool), Err(Error::Decode(_))));
}

#[test]
fn decode_integer_text() {
    assert_eq!(decode("+5", &Shape::Int(IntKind::U8)).unwrap(), Value::Int(5));
    assert_eq!(decode("007", &Shape::Int(IntKind::U16)).unwrap(), Value::Int(7));
    assert_eq!(decode("-128", &Shape::Int(IntKind::I8)).unwrap(), Value::Int(-128));
    assert_eq!(decode("255", &Shape::Int(IntKind::U8)).unwrap(), Value::Int(255));
    assert_eq!(
        decode("-9223372036854775808", &Shape::Int(IntKind::I64)).unwrap(),
        Value::Int(-9223372036854775808)
    );
    assert_eq!(
        decode("18446744073709551615", &Shape::Int(IntKind::U64)).unwrap(),
        Value::Int(18446744073709551615)
    );
    for (text, kind) in [
        ("256", IntKind::U8),
        ("-0", IntKind::U32),
        ("-129", IntKind::I8),
        ("\"\"", IntKind::I32),
        ("+", IntKind::I32),
        ("-", IntKind::I32),
        (" 1", IntKind::I32),
        ("1.5", IntKind::I32),
        ("18446744073709551616", IntKind::U64),
    ] {
        assert!(matches!(decode(text, &Shape::Int(kind)), Err(Error::Decode(_))), "{}", text);
    }
}

#[test]
fn decode_typed_reads() {
    let row = first_row("1,-2,x,abc,,z");
    let mut cols = row.columns().unwrap();
    assert_eq!(cols.read_u64().unwrap(), 1);
    assert_eq!(cols.read_i32().unwrap(), -2);
    assert!(matches!(cols.read_u8(), Err(Error::Decode(_))));
    assert_eq!(cols.read_str().unwrap(), "abc");
    assert_eq!(cols.read_option().unwrap(), false);
    assert_eq!(cols.read_option().unwrap(), true);
    assert_eq!(cols.read_enum_variant(&["y", "z"]).unwrap(), 1);
    assert!(matches!(cols.read_char(), Err(Error::UnexpectedEndOfRow)));
}

#[test]
fn decode_invalid_encoding() {
    let row = Csv::from_reader(quick_csv::ByteSource::new(&b"a\xff"[..])).next().unwrap().unwrap();
    assert!(matches!(row.decode_shape(&Shape::Str), Err(Error::InvalidEncoding)));
}

#[test]
fn decode_enum_at_end_of_row() {
    let shape = tuple(vec![Shape::Str, val_shape()]);
    assert!(matches!(decode("a", &shape), Err(Error::UnexpectedEndOfRow)));
}

#[test]
fn decode_error_messages() {
    match decode("1,x", &tuple(vec![Shape::Int(IntKind::U8), Shape::Int(IntKind::U8)])) {
        Err(Error::Decode(m)) => assert_eq!(m, "column 2 does not convert: 'x'"),
        other => panic!("unexpected: {:?}", other),
    }
    match decode("Other", &val_shape()) {
        Err(Error::Decode(m)) => assert_eq!(m, "no variant among: Unsigned, Signed, Bool"),
        other => panic!("unexpected: {:?}", other),
    }
}
