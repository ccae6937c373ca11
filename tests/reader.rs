use quick_csv::{ByteSource, Csv, Error, Row, Shape, Value};
use std::io::{self, Read, Seek};

fn strings(row: &Row) -> Vec<String> {
    match row.decode_shape(&Shape::Tail(Box::new(Shape::Str))).unwrap() {
        Value::List(vs) => vs
            .into_iter()
            .map(|v| match v {
                Value::Str(s) => s,
                other => panic!("not a string: {:?}", other),
            })
            .collect(),
        other => panic!("not a list: {:?}", other),
    }
}

fn all_rows(mut rdr: Csv) -> Vec<Vec<String>> {
    let mut rows = Vec::new();
    while let Some(r) = rdr.next() {
        rows.push(strings(&r.unwrap()));
    }
    rows
}

fn parses_to(rdr: Csv, expected: Vec<Vec<&str>>) {
    let got = all_rows(rdr);
    let expected: Vec<Vec<String>> = expected
        .into_iter()
        .map(|r| r.into_iter().map(|f| f.to_string()).collect())
        .collect();
    assert_eq!(got, expected);
}

fn count_rows(mut rdr: Csv) -> usize {
    let mut n = 0;
    while let Some(_) = rdr.next() {
        n += 1;
    }
    n
}

#[test]
fn no_headers_no_skip_one_record() {
    let mut d = Csv::from_string("a,b");
    d.headers();
    assert_eq!(count_rows(d), 1);
}

#[test]
fn no_headers_no_skip() {
    let mut d = Csv::from_string("a,b\nc,d");
    d.headers();
    assert_eq!(count_rows(d), 2);
}

#[test]
fn byte_strings() {
    let mut d = Csv::from_string("abc,xyz");
    let r = d.next().unwrap().unwrap();
    let mut cols = r.bytes_columns();
    let mut c = Vec::new();
    while let Some(f) = cols.next() {
        c.push(f);
    }
    assert_eq!(c, vec![b"abc", b"xyz"]);
}

#[test]
fn byte_strings_invalid_utf8() {
    let mut d = Csv::from_reader(ByteSource::new(&b"a\xffbc,xyz"[..]));
    let r = d.next().unwrap().unwrap();
    let mut cols = r.bytes_columns();
    let mut c = Vec::new();
    while let Some(f) = cols.next() {
        c.push(f);
    }
    assert_eq!(c, vec![&b"a\xffbc"[..], &b"xyz"[..]]);
}

#[test]
#[should_panic]
fn invalid_utf8() {
    let mut d = Csv::from_reader(ByteSource::new(&b"a\xffbc,xyz"[..]));
    let _ = d.next().unwrap().unwrap().columns().unwrap();
}

fn pairs(bytes: &[u8]) -> Vec<(usize, usize)> {
    let mut d = Csv::from_reader(ByteSource::new(bytes));
    let mut vals = Vec::new();
    let shape = Shape::Tuple(vec![Shape::Int(quick_csv::IntKind::Usize), Shape::Int(quick_csv::IntKind::Usize)]);
    while let Some(r) = d.next() {
        match r.unwrap().decode_shape(&shape).unwrap() {
            Value::Tuple(vs) => match (&vs[0], &vs[1]) {
                (Value::Int(a), Value::Int(b)) => vals.push((*a as usize, *b as usize)),
                other => panic!("unexpected values: {:?}", other),
            },
            other => panic!("unexpected value: {:?}", other),
        }
    }
    vals
}

#[test]
fn seeking() {
    let data = "1,2\n3,4\n5,6\n";
    let mut buf = io::Cursor::new(data.as_bytes().to_vec());

    {
        let mut bytes = Vec::new();
        Read::by_ref(&mut buf).read_to_end(&mut bytes).unwrap();
        let vals = pairs(&bytes);
        assert_eq!(vals, vec!((1, 2), (3, 4), (5, 6)));
    }

    buf.seek(io::SeekFrom::Start(0)).unwrap();
    {
        let mut bytes = Vec::new();
        Read::by_ref(&mut buf).read_to_end(&mut bytes).unwrap();
        let vals = pairs(&bytes);
        assert_eq!(vals, vec!((1, 2), (3, 4), (5, 6)));
    }
}

#[test]
fn one_row_one_field() {
    parses_to(Csv::from_string("a"), vec![vec!["a"]]);
}

#[test]
fn one_row_many_fields() {
    parses_to(Csv::from_string("a,b,c"), vec![vec!["a", "b", "c"]]);
}

#[test]
fn one_row_trailing_comma() {
    parses_to(Csv::from_string("a,b,"), vec![vec!["a", "b", ""]]);
}

#[test]
fn one_row_one_field_lf() {
    parses_to(Csv::from_string("a\n"), vec![vec!["a"]]);
}

#[test]
fn one_row_many_fields_lf() {
    parses_to(Csv::from_string("a,b,c\n"), vec![vec!["a", "b", "c"]]);
}

#[test]
fn one_row_trailing_comma_lf() {
    parses_to(Csv::from_string("a,b,\n"), vec![vec!["a", "b", ""]]);
}

#[test]
fn one_row_one_field_crlf() {
    parses_to(Csv::from_string("a\r\n"), vec![vec!["a"]]);
}

#[test]
fn one_row_many_fields_crlf() {
    parses_to(Csv::from_string("a,b,c\r\n"), vec![vec!["a", "b", "c"]]);
}

#[test]
fn one_row_trailing_comma_crlf() {
    parses_to(Csv::from_string("a,b,\r\n"), vec![vec!["a", "b", ""]]);
}

#[test]
fn one_row_one_field_cr() {
    parses_to(Csv::from_string("a\r"), vec![vec!["a"]]);
}

#[test]
fn one_row_many_fields_cr() {
    parses_to(Csv::from_string("a,b,c\r"), vec![vec!["a", "b", "c"]]);
}

#[test]
fn one_row_trailing_comma_cr() {
    parses_to(Csv::from_string("a,b,\r"), vec![vec!["a", "b", ""]]);
}

#[test]
fn many_rows_one_field() {
    parses_to(Csv::from_string("a\nb"), vec![vec!["a"], vec!["b"]]);
}

#[test]
fn many_rows_many_fields() {
    parses_to(Csv::from_string("a,b,c\nx,y,z"), vec![vec!["a", "b", "c"], vec!["x", "y", "z"]]);
}

#[test]
fn many_rows_trailing_comma() {
    parses_to(Csv::from_string("a,b,\nx,y,"), vec![vec!["a", "b", ""], vec!["x", "y", ""]]);
}

#[test]
fn many_rows_one_field_lf() {
    parses_to(Csv::from_string("a\nb\n"), vec![vec!["a"], vec!["b"]]);
}

#[test]
fn many_rows_many_fields_lf() {
    parses_to(Csv::from_string("a,b,c\nx,y,z\n"), vec![vec!["a", "b", "c"], vec!["x", "y", "z"]]);
}

#[test]
fn many_rows_trailing_comma_lf() {
    parses_to(Csv::from_string("a,b,\nx,y,\n"), vec![vec!["a", "b", ""], vec!["x", "y", ""]]);
}

#[test]
fn many_rows_one_field_crlf() {
    parses_to(Csv::from_string("a\r\nb\r\n"), vec![vec!["a"], vec!["b"]]);
}

#[test]
fn many_rows_many_fields_crlf() {
    parses_to(
        Csv::from_string("a,b,c\r\nx,y,z\r\n"),
        vec![vec!["a", "b", "c"], vec!["x", "y", "z"]],
    );
}

#[test]
fn many_rows_trailing_comma_crlf() {
    parses_to(Csv::from_string("a,b,\r\nx,y,\r\n"), vec![vec!["a", "b", ""], vec!["x", "y", ""]]);
}

#[test]
fn empty_string_no_headers() {
    parses_to(Csv::from_string(""), vec![]);
}

#[test]
fn empty_string_headers() {
    let mut rdr = Csv::from_string("").has_header(true);
    assert!(rdr.headers().is_empty());
    parses_to(rdr, vec![]);
}

#[test]
fn empty_lines() {
    parses_to(Csv::from_string("\n\n\n\n"), vec![vec![""], vec![""], vec![""], vec![""]]);
}

#[test]
fn quote_empty() {
    parses_to(Csv::from_string("\"\""), vec![vec![""]]);
}

#[test]
fn quote_lf() {
    parses_to(Csv::from_string("\"\"\n"), vec![vec![""]]);
}

#[test]
fn quote_space() {
    parses_to(Csv::from_string("\" \""), vec![vec![" "]]);
}

#[test]
fn quote_inner_space() {
    parses_to(Csv::from_string("\" a \""), vec![vec![" a "]]);
}

#[test]
fn quote_outer_space() {
    let mut rdr = Csv::from_string("  \"a\"  ");
    assert!(matches!(rdr.next(), Some(Err(Error::UnexpectedQuote))));
    assert!(rdr.next().is_none());
}

#[test]
fn delimiter_tabs() {
    parses_to(Csv::from_string("a\tb").delimiter(b'\t'), vec![vec!["a", "b"]]);
}

#[test]
fn delimiter_weird() {
    parses_to(Csv::from_string("azb").delimiter(b'z'), vec![vec!["a", "b"]]);
}

#[test]
fn headers_absent() {
    let mut rdr = Csv::from_string("a\nb").has_header(true);
    assert_eq!(rdr.headers(), vec!["a".to_string()]);
    parses_to(rdr, vec![vec!["b"]]);
}

#[test]
fn flexible_rows() {
    parses_to(Csv::from_string("a\nx,y").flexible(true), vec![vec!["a"], vec!["x", "y"]]);
}

#[test]
fn flexible_rows2() {
    parses_to(Csv::from_string("a,b\nx").flexible(true), vec![vec!["a", "b"], vec!["x"]]);
}

#[test]
fn nonflexible() {
    let mut rdr = Csv::from_string("a\nx,y");
    assert_eq!(strings(&rdr.next().unwrap().unwrap()), vec!["a".to_string()]);
    assert!(matches!(rdr.next(), Some(Err(Error::ColumnMismatch(1, 2)))));
    assert!(rdr.next().is_none());
}

#[test]
fn nonflexible2() {
    let mut rdr = Csv::from_string("a,b\nx");
    assert!(rdr.next().unwrap().is_ok());
    assert!(matches!(rdr.next(), Some(Err(Error::ColumnMismatch(2, 1)))));
}

#[test]
fn column_count_and_current_line() {
    let mut rdr = Csv::from_string("a,b,c\nd,e,f\n");
    assert_eq!(rdr.column_count(), None);
    assert_eq!(rdr.current_line(), 0);
    let row = rdr.next().unwrap().unwrap();
    assert_eq!(row.len(), 3);
    assert!(!row.is_empty());
    assert_eq!(rdr.column_count(), Some(3));
    assert_eq!(rdr.current_line(), 1);
    rdr.next().unwrap().unwrap();
    assert_eq!(rdr.current_line(), 2);
    assert!(rdr.next().is_none());
    assert_eq!(rdr.current_line(), 2);
}

#[test]
fn quoted_field_across_refills() {
    // small refills split the quoted field, which holds a delimiter and a line feed
    for capacity in 1..8 {
        let mut rdr = Csv::from_reader(ByteSource::with_capacity(b"x,\"a,b\nc\",y\n1,2,3", capacity));
        let row = rdr.next().unwrap().unwrap();
        let mut cols = row.columns().unwrap();
        assert_eq!(cols.next(), Some("x"));
        assert_eq!(cols.next(), Some("a,b\nc"));
        assert_eq!(cols.next(), Some("y"));
        assert_eq!(cols.next(), None);
        assert_eq!(strings(&rdr.next().unwrap().unwrap()), vec!["1", "2", "3"]);
        assert!(rdr.next().is_none());
    }
}

#[test]
fn unterminated_quote_at_end_of_stream() {
    let mut rdr = Csv::from_string("\"abc");
    let row = rdr.next().unwrap().unwrap();
    let mut cols = row.bytes_columns();
    assert_eq!(cols.next(), Some(&b"abc"[..]));
    assert_eq!(cols.next(), None);
}

#[test]
fn unterminated_quote_keeps_text() {
    let mut rdr = Csv::from_reader(ByteSource::new(b"\"\xc3\xa9"));
    let row = rdr.next().unwrap().unwrap();
    let mut cols = row.columns().unwrap();
    assert_eq!(cols.next(), Some("\u{e9}"));
}

#[test]
fn escaped_quote_across_refills() {
    for capacity in 1..10 {
        let mut rdr = Csv::from_reader(ByteSource::with_capacity(b"\"a\"\"b\",c\nd,e", capacity));
        let row = rdr.next().unwrap().unwrap();
        let mut cols = row.columns().unwrap();
        assert_eq!(cols.next(), Some("a\"b"), "capacity {}", capacity);
        assert_eq!(cols.next(), Some("c"));
        assert_eq!(strings(&rdr.next().unwrap().unwrap()), vec!["d", "e"]);
    }
}

#[test]
fn quote_after_refill_inside_field_is_unexpected() {
    for capacity in 1..4 {
        let mut rdr = Csv::from_reader(ByteSource::with_capacity(b"ab\"c", capacity));
        assert!(matches!(rdr.next(), Some(Err(Error::UnexpectedQuote))));
    }
}

#[test]
fn carriage_return_delimiter_at_line_end() {
    let mut rdr = Csv::from_string("a\rb\r\n").delimiter(b'\r');
    let row = rdr.next().unwrap().unwrap();
    assert_eq!(row.len(), 2);
    assert_eq!(strings(&row), vec!["a", "b"]);
}

#[test]
fn reading_goes_on_after_column_mismatch() {
    let mut rdr = Csv::from_string("a\nx,y\nz");
    assert!(rdr.next().unwrap().is_ok());
    assert!(matches!(rdr.next(), Some(Err(Error::ColumnMismatch(1, 2)))));
    assert_eq!(strings(&rdr.next().unwrap().unwrap()), vec!["z"]);
    assert!(rdr.next().is_none());
}

#[test]
fn lone_quote_field_is_empty() {
    let mut rdr = Csv::from_string("\"");
    let row = rdr.next().unwrap().unwrap();
    let mut cols = row.bytes_columns();
    assert_eq!(cols.len(), 1);
    assert_eq!(cols.next(), Some(&b""[..]));
    assert_eq!(cols.len(), 0);
}

#[test]
fn error_descriptions() {
    assert_eq!(Error::UnescapedQuote.description(), "A CSV column has an unescaped quote");
    assert_eq!(Error::InvalidEncoding.description(), "stream did not contain valid UTF-8");
}
