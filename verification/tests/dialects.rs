use csv_records::decoder::RecordDecoder;
use csv_records::reader::{Dialect, RecordReader, Terminator};

fn rows(dialect: Dialect, num_columns: usize, csv: &[u8]) -> Vec<Vec<String>> {
    let mut decoder = RecordDecoder::new(RecordReader::with_dialect(dialect), num_columns, false);
    let (read, bytes) = decoder.decode(csv, 10).unwrap();
    let (last, _) = decoder.decode(&[], 10 - read).unwrap();
    assert_eq!(bytes, csv.len());
    assert_eq!(decoder.len(), read + last);
    let records = decoder.flush().unwrap();
    records
        .iter()
        .into_iter()
        .map(|record| (0..num_columns).map(|i| record.get(i).to_owned()).collect())
        .collect()
}

#[test]
fn standard_dialect() {
    assert_eq!(
        rows(Dialect::new(), 2, b"a,\"b\"\"c\"\r\n\n1,2"),
        [["a", "b\"c"], ["1", "2"]]
    );
}

#[test]
fn other_delimiter() {
    let dialect = Dialect { delimiter: b';', ..Dialect::new() };
    assert_eq!(rows(dialect, 2, b"a,b;c\n"), [["a,b", "c"]]);
}

#[test]
fn other_terminator() {
    let dialect = Dialect { terminator: Terminator::Any(b'|'), ..Dialect::new() };
    assert_eq!(rows(dialect, 2, b"a,b\nc|d,e|"), [["a", "b\nc"], ["d", "e"]]);
}

#[test]
fn other_quote() {
    let dialect = Dialect { quote: b'\'', ..Dialect::new() };
    assert_eq!(rows(dialect, 2, b"'a,b',\"c\"\n"), [["a,b", "\"c\""]]);
}

#[test]
fn escaped_quotes() {
    let dialect = Dialect { escape: Some(b'\\'), double_quote: false, ..Dialect::new() };
    assert_eq!(rows(dialect, 2, b"\"a\\\"b\",c\n"), [["a\"b", "c"]]);
}

#[test]
fn quotes_without_meaning() {
    let dialect = Dialect { quoting: false, ..Dialect::new() };
    assert_eq!(rows(dialect, 2, b"\"a,b\"\n"), [["\"a", "b\""]]);
}

#[test]
fn comments_are_skipped() {
    let dialect = Dialect { comment: Some(b'#'), ..Dialect::new() };
    assert_eq!(rows(dialect, 1, b"#x,y\na\n"), [["a"]]);
}

#[test]
fn byte_order_mark_is_skipped() {
    assert_eq!(rows(Dialect::new(), 2, b"\xef\xbb\xbfa,b\n"), [["a", "b"]]);
}
