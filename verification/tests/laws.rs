use arrow_schema::ArrowError;
use csv_records::decoder::RecordDecoder;
use csv_records::error::CsvError;
use csv_records::handler::{CsvRecord, CsvRecordError, CsvRecordErrorHandler};
use csv_records::reader::RecordReader;
use std::sync::{Arc, Mutex};

#[derive(Default)]
struct Lines {
    lines: Mutex<Vec<(usize, usize, Vec<u8>)>>,
}

impl CsvRecordErrorHandler for Lines {
    fn handle(&self, error: &CsvRecordError<'_>) -> Result<(), ArrowError> {
        let line = (error.line_number, error.byte_offset, error.record.to_vec());
        self.lines.lock().unwrap().push(line);
        Ok(())
    }

    fn handle_record(&self, record: &CsvRecord<'_>) -> Result<(), ArrowError> {
        let line = (record.line_number, record.byte_offset, record.record.to_vec());
        self.lines.lock().unwrap().push(line);
        Ok(())
    }
}

fn given_out(decoder: &mut RecordDecoder) -> Vec<String> {
    let records = decoder.flush().unwrap();
    records.iter().iter().map(|record| record.to_string()).collect()
}

/// Decodes `csv` in pieces of `len` bytes and at most `to_read` records, and gives the numbers of
/// records and bytes read.
fn in_pieces(
    decoder: &mut RecordDecoder,
    csv: &[u8],
    len: usize,
    to_read: usize,
) -> (usize, usize) {
    let mut rows = 0;
    let mut bytes = 0;
    for piece in csv.chunks(len) {
        if rows == to_read {
            break;
        }
        let (more_rows, more_bytes) = decoder.decode(piece, to_read - rows).unwrap();
        rows += more_rows;
        bytes += more_bytes;
    }
    (rows, bytes)
}

const CSV: &[u8] = b"a,\"b,\"\"c\"\r\n\r\nlong field,\n\"x\ny\",z\r\nlast,one\n";

#[test]
fn pieces_give_what_the_whole_gives() {
    for to_read in [2, 4, 9] {
        let mut whole = RecordDecoder::new(RecordReader::new(), 2, false);
        let expected = whole.decode(CSV, to_read).unwrap();
        let expected_rows = given_out(&mut whole);
        for len in 1..CSV.len() {
            let mut decoder = RecordDecoder::new(RecordReader::new(), 2, false);
            assert_eq!(in_pieces(&mut decoder, CSV, len, to_read), expected);
            assert_eq!(given_out(&mut decoder), expected_rows);
        }
    }
}

#[test]
fn skipped_records_leave_nothing() {
    let csv = b"1,ok\nbad\n2,extra,value,and,more,fields\n3,\"fine\"\n,,\n4,end\n";
    for len in [1, 2, 3, 7, 100] {
        let handler = Arc::new(Lines::default());
        let mut decoder = RecordDecoder::new(RecordReader::new(), 2, false)
            .with_record_error_handler(Some(handler.clone()));
        assert_eq!(in_pieces(&mut decoder, csv, len, 3), (3, csv.len()));
        assert_eq!(given_out(&mut decoder), ["[1,ok]", "[3,fine]", "[4,end]"]);

        let lines = handler.lines.lock().unwrap();
        let mut offset = 0;
        for (i, (line_number, byte_offset, record)) in lines.iter().enumerate() {
            assert_eq!((*line_number, *byte_offset), (i + 1, offset));
            assert_eq!(&csv[offset..offset + record.len()], record.as_slice());
            offset += record.len();
        }
        assert_eq!(offset, csv.len());
    }
}

#[test]
fn skipping_in_pieces_gives_what_the_whole_gives() {
    let csv = b"1,ok\r\nbad\r\n2,\"x\ny\",z\r\n3,fine\r\n\r\nworse\r\n4,end\r\n";
    let handler = Arc::new(Lines::default());
    let mut whole = RecordDecoder::new(RecordReader::new(), 2, false)
        .with_record_error_handler(Some(handler.clone()));
    let expected = whole.decode(csv, 9).unwrap();
    let expected_rows = given_out(&mut whole);
    assert_eq!(expected_rows, ["[1,ok]", "[3,fine]", "[4,end]"]);
    let expected_lines = handler.lines.lock().unwrap().clone();
    assert_eq!(expected_lines.len(), 6);
    for len in 1..csv.len() {
        let handler = Arc::new(Lines::default());
        let mut decoder = RecordDecoder::new(RecordReader::new(), 2, false)
            .with_record_error_handler(Some(handler.clone()));
        assert_eq!(in_pieces(&mut decoder, csv, len, 9), expected);
        assert_eq!(given_out(&mut decoder), expected_rows);
        assert_eq!(*handler.lines.lock().unwrap(), expected_lines);
    }
}

#[test]
fn malformed_record_that_the_end_completes() {
    let handler = Arc::new(Lines::default());
    let mut decoder = RecordDecoder::new(RecordReader::new(), 2, false)
        .with_record_error_handler(Some(handler.clone()));
    assert_eq!(decoder.decode(b"a,b\nc", 5).unwrap(), (1, 5));
    assert_eq!(decoder.decode(b"", 4).unwrap(), (0, 0));
    assert_eq!(handler.lines.lock().unwrap().len(), 2);
    assert_eq!(given_out(&mut decoder), ["[a,b]"]);
}

#[test]
fn handlers_see_nothing_else_change() {
    let handler = Arc::new(Lines::default());
    let mut with = RecordDecoder::new(RecordReader::new(), 2, true)
        .with_record_error_handler(Some(handler));
    let mut without = RecordDecoder::new(RecordReader::new(), 2, true);
    assert_eq!(with.decode(CSV, 9).unwrap(), without.decode(CSV, 9).unwrap());
    assert_eq!(given_out(&mut with), given_out(&mut without));
}

#[test]
fn long_fields_and_many_rows() {
    let field = "x".repeat(5000);
    let mut csv = String::new();
    for i in 0..300 {
        csv.push_str(&format!("{i},{field}\n"));
    }
    let mut decoder = RecordDecoder::new(RecordReader::new(), 2, false);
    assert_eq!(decoder.decode(csv.as_bytes(), 1000).unwrap(), (300, csv.len()));
    let records = decoder.flush().unwrap();
    assert_eq!(records.len(), 300);
    for (i, record) in records.iter().iter().enumerate() {
        assert_eq!(record.get(0), i.to_string());
        assert_eq!(record.get(1), field);
    }
}

#[test]
fn nothing_is_read_for_no_records() {
    let mut decoder = RecordDecoder::new(RecordReader::new(), 2, false);
    assert_eq!(decoder.decode(b"a,b\n", 0).unwrap(), (0, 0));
    assert!(decoder.is_empty());
    assert_eq!(decoder.decode(b"a,b\nc,d\n", 1).unwrap(), (1, 4));
    assert!(!decoder.is_empty());
}

#[test]
fn missing_fields_are_empty() {
    let mut decoder = RecordDecoder::new(RecordReader::new(), 3, true);
    assert_eq!(decoder.decode(b"a\nb,c\nd,e,f\n", 3).unwrap(), (3, 12));
    assert_eq!(given_out(&mut decoder), ["[a,,]", "[b,c,]", "[d,e,f]"]);
}

#[test]
fn giving_out_leaves_nothing() {
    let mut decoder = RecordDecoder::new(RecordReader::new(), 1, false);
    assert_eq!(decoder.decode(b"a\nb\nc\n", 2).unwrap(), (2, 4));
    assert_eq!(given_out(&mut decoder), ["[a]", "[b]"]);
    assert!(decoder.is_empty());
    assert_eq!(decoder.flush().unwrap().len(), 0);
    assert_eq!(decoder.decode(b"c\n", 2).unwrap(), (1, 2));
    assert_eq!(given_out(&mut decoder), ["[c]"]);
}

#[test]
fn clearing_keeps_lines_and_the_current_record() {
    let mut decoder = RecordDecoder::new(RecordReader::new(), 2, false);
    assert_eq!(decoder.decode(b"a,b\nc,", 2).unwrap(), (1, 6));
    decoder.clear();
    assert_eq!((decoder.len(), decoder.current_field, decoder.line_number), (0, 1, 2));
}

#[test]
fn offsets_stay_bounded() {
    let handler = Arc::new(Lines::default());
    let mut decoder = RecordDecoder::new(RecordReader::new(), 2, false)
        .with_record_error_handler(Some(handler));
    let csv = format!("{}\na,b\n", "x,".repeat(16_000));
    assert_eq!(decoder.decode(csv.as_bytes(), 1).unwrap(), (1, csv.len()));
    assert!(decoder.offsets.len() <= 1 + 2 + 16_384);
    assert_eq!(given_out(&mut decoder), ["[a,b]"]);
}

#[test]
fn fields_that_are_text_only_together() {
    let mut decoder = RecordDecoder::new(RecordReader::new(), 2, false);
    assert_eq!(decoder.decode(b"\xc3,\xa9\n", 1).unwrap(), (1, 4));
    assert_eq!(decoder.flush().unwrap_err(), CsvError::InvalidUtf8 { line: 1, field: 1 });

    let mut decoder = RecordDecoder::new(RecordReader::new(), 3, false);
    assert_eq!(decoder.decode(b"a,b,c\n\xc3\xa9,,\xe2\x82\n\xac,e,f\n", 3).unwrap(), (3, 19));
    assert_eq!(decoder.flush().unwrap_err(), CsvError::InvalidUtf8 { line: 2, field: 3 });
}

#[test]
fn ends_past_the_data_are_given_out() {
    let mut decoder = RecordDecoder::new(RecordReader::new(), 2, false);
    assert_eq!(decoder.decode(b"a,b\nc,", 9).unwrap(), (1, 6));
    decoder.clear();
    assert_eq!(decoder.decode(b"d\n", 9).unwrap(), (1, 2));
    let records = decoder.flush().unwrap();
    assert_eq!((records.len(), records.offsets, records.data), (1, [0, 2].as_slice(), "d"));
}

#[test]
fn fields_that_are_text_by_themselves() {
    let mut decoder = RecordDecoder::new(RecordReader::new(), 2, false);
    assert_eq!(decoder.decode(b"a,\xc3\xa9\n,\xe2\x82\xac\n", 2).unwrap(), (2, 10));
    let records = decoder.flush().unwrap();
    let first = records.get(0);
    assert_eq!((first.get(0), first.try_get(1), first.try_get(2)), ("a", Some("\u{e9}"), None));
    assert_eq!(first.to_string(), "[a,\u{e9}]");
    assert_eq!(first.try_get(usize::MAX), None);
    assert_eq!(records.get(1).to_string(), "[,\u{20ac}]");
}

/// Decodes a stream to its end in pieces of `len` bytes, at most `to_read` records per call, and
/// gives out the buffered records whenever a call completed some. Gives the records and the totals.
fn to_the_end(
    decoder: &mut RecordDecoder,
    stream: &[u8],
    len: usize,
    to_read: usize,
) -> (Vec<String>, usize, usize) {
    let mut given = Vec::new();
    let (mut rows, mut bytes) = (0, 0);
    loop {
        let end = stream.len().min(bytes + len);
        let piece = &stream[bytes..end];
        let (more_rows, more_bytes) = decoder.decode(piece, to_read).unwrap();
        rows += more_rows;
        bytes += more_bytes;
        if more_rows > 0 && decoder.current_field == 0 && decoder.delimiter.record_len == 0 {
            given.extend(given_out(decoder));
        }
        if piece.is_empty() {
            break;
        }
    }
    given.extend(given_out(decoder));
    (given, rows, bytes)
}

#[test]
fn streams_are_delivered_however_they_are_cut() {
    let stream = b"a,b\r\n\"c\nd\",e\n\n,\nlong field,short\nlast,unterminated";
    let expected = ["[a,b]", "[c\nd,e]", "[,]", "[long field,short]", "[last,unterminated]"];
    for len in 1..=stream.len() {
        for to_read in 1..4 {
            let mut decoder = RecordDecoder::new(RecordReader::new(), 2, false);
            let (given, rows, bytes) = to_the_end(&mut decoder, stream, len, to_read);
            assert_eq!(given, expected);
            assert_eq!((rows, bytes), (5, stream.len()));
        }
    }
}

#[test]
fn skipping_is_cutting_out() {
    let stream = b"a,b\nbad\nc,d\n1,2,3\ne,f\nworse";
    let cut = b"a,b\nc,d\ne,f\n";
    for len in 1..=stream.len() {
        let mut strict = RecordDecoder::new(RecordReader::new(), 2, false);
        let mut skipping = RecordDecoder::new(RecordReader::new(), 2, false)
            .with_record_error_handler(Some(Arc::new(Lines::default())));
        let (given, rows, bytes) = to_the_end(&mut skipping, stream, len, 2);
        assert_eq!((rows, bytes), (3, stream.len()));
        assert_eq!((given, rows), {
            let (given, rows, _) = to_the_end(&mut strict, cut, len, 2);
            (given, rows)
        });
    }
}

#[test]
fn notices_number_the_lines_of_a_stream() {
    let stream = b"a,b\nbad\n\nc,d\n1,2,3\ne,f\nworse";
    let handler = Arc::new(Lines::default());
    let mut decoder = RecordDecoder::new(RecordReader::new(), 2, false)
        .with_record_error_handler(Some(handler.clone()));
    to_the_end(&mut decoder, stream, 5, 1);
    let lines = handler.lines.lock().unwrap();
    let mut told = Vec::new();
    for (i, (line_number, byte_offset, record)) in lines.iter().enumerate() {
        assert_eq!((*line_number, *byte_offset), (i + 1, told.len()));
        told.extend_from_slice(record);
    }
    assert_eq!(lines.len(), 6);
    assert_eq!(told, stream);
}

#[test]
fn handlers_are_told_of_each_record_once() {
    let handler = Arc::new(Lines::default());
    let mut decoder = RecordDecoder::new(RecordReader::new(), 2, false)
        .with_record_error_handler(Some(handler.clone()));
    assert_eq!(decoder.decode(CSV, 2).unwrap().0, 2);
    assert_eq!(handler.lines.lock().unwrap().len(), 2);
    assert_eq!(decoder.decode(b"", 2).unwrap(), (0, 0));
    assert_eq!(handler.lines.lock().unwrap().len(), 2);
}

#[test]
fn len_counts_valid_records() {
    let mut decoder = RecordDecoder::new(RecordReader::new(), 2, true);
    assert_eq!(decoder.decode(b"a,b\nc\n", 9).unwrap(), (2, 6));
    assert_eq!(decoder.len(), 2);
    assert_eq!(decoder.decode(b"d,", 9).unwrap(), (0, 2));
    assert!(decoder.flush().is_err());
    assert_eq!(decoder.len(), 2);
    decoder.clear();
    assert_eq!(decoder.len(), 0);
    assert!(decoder.decode(b"e\nf,g\n1,2,3\nh,i\n", 9).is_err());
    assert_eq!(decoder.len(), 2);
}

const MARKED: &[u8] = b"\xef\xbb\xbfa,b\nbad\nc,d\n1,2,3\ne,f";

#[test]
fn marks_are_no_data() {
    for len in 3..=MARKED.len() {
        let handler = Arc::new(Lines::default());
        let mut decoder = RecordDecoder::new(RecordReader::new(), 2, false)
            .with_record_error_handler(Some(handler.clone()));
        let (given, rows, bytes) = to_the_end(&mut decoder, MARKED, len, 2);
        assert_eq!(given, ["[a,b]", "[c,d]", "[e,f]"]);
        assert_eq!((rows, bytes), (3, MARKED.len()));

        let lines = handler.lines.lock().unwrap();
        let mut told = Vec::new();
        for (i, (line_number, byte_offset, record)) in lines.iter().enumerate() {
            assert_eq!((*line_number, *byte_offset), (i + 1, told.len()));
            told.extend_from_slice(record);
        }
        assert_eq!((lines.len(), lines[0].2.as_slice()), (5, b"\xef\xbb\xbfa,b\n".as_slice()));
        assert_eq!(told, MARKED);

        let mut strict = RecordDecoder::new(RecordReader::new(), 2, false);
        let (cut, _, _) = to_the_end(&mut strict, b"\xef\xbb\xbfa,b\nc,d\ne,f", len, 2);
        assert_eq!(cut, given);
    }
}

#[test]
fn marks_that_are_cut_are_data() {
    for len in 1..3 {
        let mut decoder = RecordDecoder::new(RecordReader::new(), 2, true);
        let (given, _, _) = to_the_end(&mut decoder, b"\xef\xbb\xbfa,b\n", len, 2);
        assert_eq!(given, ["[\u{feff}a,b]"]);
    }
}

#[test]
fn handlers_see_nothing_else_change_behind_marks() {
    let csv = b"\xef\xbb\xbfa,b\nc,d\n";
    let handler = Arc::new(Lines::default());
    let mut without = RecordDecoder::new(RecordReader::new(), 2, false);
    let mut with = RecordDecoder::new(RecordReader::new(), 2, false)
        .with_record_error_handler(Some(handler.clone()));
    assert_eq!(with.decode(csv, 9).unwrap(), without.decode(csv, 9).unwrap());
    assert_eq!(handler.lines.lock().unwrap().len(), 2);
    assert_eq!(given_out(&mut with), given_out(&mut without));
    let mark = b"\xef\xbb\xbf";
    assert_eq!(with.decode(mark, 9).unwrap(), without.decode(mark, 9).unwrap());
}

#[test]
fn records_behind_the_last_one_asked_for_do_not_matter() {
    let mut strict = RecordDecoder::new(RecordReader::new(), 2, false);
    assert_eq!(strict.decode(b"a,b\nc,d\nbad\n", 2).unwrap(), (2, 8));
    assert!(strict.decode(b"bad\n", 1).is_err());

    let mut wide = RecordDecoder::new(RecordReader::new(), 2, false);
    assert_eq!(wide.decode(b"a,b,c,", 2).unwrap(), (0, 6));

    let excess = format!("a,b\n{}\n", ",".repeat(16_386));
    let mut skipping = RecordDecoder::new(RecordReader::new(), 2, false)
        .with_record_error_handler(Some(Arc::new(Lines::default())));
    assert_eq!(skipping.decode(excess.as_bytes(), 1).unwrap(), (1, 4));
    assert!(skipping.decode(&excess.as_bytes()[4..], 1).is_err());
}

#[test]
fn notices_go_on_behind_an_end() {
    let handler = Arc::new(Lines::default());
    let mut decoder = RecordDecoder::new(RecordReader::new(), 2, false)
        .with_record_error_handler(Some(handler.clone()));
    let pieces: [&[u8]; 5] = [b"a,b\nc", b"", b"d,e\n", b"", b"f,g"];
    for piece in pieces {
        decoder.decode(piece, 9).unwrap();
    }
    decoder.decode(b"h\n", 0).unwrap();
    decoder.decode(b"", 9).unwrap();
    let lines = handler.lines.lock().unwrap();
    assert_eq!(
        lines.as_slice(),
        [
            (1, 0, b"a,b\n".to_vec()),
            (2, 4, b"c".to_vec()),
            (3, 5, b"d,e\n".to_vec()),
            (4, 9, b"f,g".to_vec()),
        ]
    );
    assert_eq!(decoder.len(), 3);
}

#[test]
fn notices_without_columns() {
    let handler = Arc::new(Lines::default());
    let mut decoder = RecordDecoder::new(RecordReader::new(), 0, false)
        .with_record_error_handler(Some(handler.clone()));
    assert_eq!(decoder.decode(b"a\nb,", 9).unwrap(), (0, 4));
    assert_eq!(decoder.decode(b"", 9).unwrap(), (0, 0));
    assert_eq!(decoder.len(), 0);
    let lines = handler.lines.lock().unwrap();
    assert_eq!(lines.as_slice(), [(1, 0, b"a\n".to_vec()), (2, 2, b"b,".to_vec())]);
}
