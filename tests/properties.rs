use quick_csv::{ByteSource, Csv, Error, IntKind, Row, Shape, Value};

fn texts(row: &Row) -> Vec<String> {
    let mut cols = row.columns().unwrap();
    let mut out = Vec::new();
    while let Some(c) = cols.next() {
        out.push(c.to_string());
    }
    out
}

fn rows(mut rdr: Csv) -> Vec<Vec<String>> {
    let mut out = Vec::new();
    while let Some(r) = rdr.next() {
        out.push(texts(&r.unwrap()));
    }
    out
}

#[test]
fn unquoted_rows_come_back_in_order() {
    let expected = vec![vec!["a", "bb", "c"], vec!["d", "", "f"], vec!["g", "h", "i"]];
    for capacity in [1, 2, 5, 100] {
        let rdr = Csv::from_reader(ByteSource::with_capacity(b"a,bb,c\nd,,f\ng,h,i\n", capacity));
        assert_eq!(rows(rdr), expected);
    }
}

#[test]
fn quoted_delimiter_is_kept() {
    let mut rdr = Csv::from_string("\"a,b\"");
    let row = rdr.next().unwrap().unwrap();
    assert_eq!(row.len(), 1);
    assert_eq!(texts(&row), vec!["a,b"]);
}

#[test]
fn doubled_quote_is_one_quote() {
    let mut rdr = Csv::from_string("\"a\"\"b\"");
    assert_eq!(texts(&rdr.next().unwrap().unwrap()), vec!["a\"b"]);
}

#[test]
fn line_endings_are_equivalent() {
    for data in ["a,b\n", "a,b\r\n", "a,b"] {
        assert_eq!(rows(Csv::from_string(data)), vec![vec!["a", "b"]], "{:?}", data);
    }
}

#[test]
fn strict_and_flexible_field_counts() {
    let mut strict = Csv::from_string("a\nx,y");
    assert!(strict.next().unwrap().is_ok());
    assert!(matches!(strict.next(), Some(Err(Error::ColumnMismatch(1, 2)))));
    assert_eq!(rows(Csv::from_string("a\nx,y").flexible(true)), vec![vec!["a"], vec!["x", "y"]]);
}

#[test]
fn optional_number_that_does_not_parse_is_absent() {
    let row = Csv::from_string("a").next().unwrap().unwrap();
    let v = row.decode_shape(&Shape::Opt(Box::new(Shape::Int(IntKind::U32)))).unwrap();
    assert_eq!(v, Value::Opt(None));
}

#[test]
fn malformed_quoting() {
    let mut rdr = Csv::from_string("  \"a\"  ");
    assert!(matches!(rdr.next(), Some(Err(Error::UnexpectedQuote))));
    let mut rdr = Csv::from_string("\"a\"b");
    assert!(matches!(rdr.next(), Some(Err(Error::UnescapedQuote))));
}

#[test]
fn empty_input_with_header() {
    let mut rdr = Csv::from_string("").has_header(true);
    assert_eq!(rdr.headers(), Vec::<String>::new());
    assert!(rdr.next().is_none());
}

#[test]
fn header_row_is_set_aside() {
    let mut rdr = Csv::from_string("x,y\n1,2\n").has_header(true);
    assert_eq!(rdr.headers(), vec!["x".to_string(), "y".to_string()]);
    assert_eq!(rows(rdr), vec![vec!["1", "2"]]);
}

#[test]
fn unquoted_rows_without_final_line_feed() {
    for capacity in [1, 3, 100] {
        let rdr = Csv::from_reader(ByteSource::with_capacity(b"a,b\nc,d", capacity));
        assert_eq!(rows(rdr), vec![vec!["a", "b"], vec!["c", "d"]]);
    }
}
