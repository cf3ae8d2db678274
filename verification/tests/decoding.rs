use arrow_schema::ArrowError;
use csv_records::decoder::RecordDecoder;
use csv_records::error::{
    recovery_limit_error, CsvError, DecodeError, MAX_RECOVERABLE_EXCESS_FIELDS,
};
use csv_records::handler::{CsvRecord, CsvRecordError, CsvRecordErrorHandler};
use csv_records::reader::RecordReader;
use std::io::{BufRead, BufReader, Cursor};
use std::sync::{Arc, Mutex};

#[derive(Debug, Clone, Eq, PartialEq)]
struct OwnedRecordError {
    line_number: usize,
    byte_offset: usize,
    expected_fields: usize,
    actual_fields: usize,
    record: Vec<u8>,
}

#[derive(Debug, Clone, Eq, PartialEq)]
struct OwnedRecord {
    line_number: usize,
    byte_offset: usize,
    record: Vec<u8>,
}

#[derive(Debug, Default)]
struct CollectRecords {
    errors: Mutex<Vec<OwnedRecordError>>,
    records: Mutex<Vec<OwnedRecord>>,
}

impl CsvRecordErrorHandler for CollectRecords {
    fn handle(&self, error: &CsvRecordError<'_>) -> Result<(), ArrowError> {
        self.errors.lock().unwrap().push(OwnedRecordError {
            line_number: error.line_number,
            byte_offset: error.byte_offset,
            expected_fields: error.expected_fields,
            actual_fields: error.actual_fields,
            record: error.record.to_vec(),
        });
        Ok(())
    }

    fn handle_record(&self, record: &CsvRecord<'_>) -> Result<(), ArrowError> {
        self.records.lock().unwrap().push(OwnedRecord {
            line_number: record.line_number,
            byte_offset: record.byte_offset,
            record: record.record.to_vec(),
        });
        Ok(())
    }
}

fn csv_text(error: &CsvError) -> String {
    ArrowError::CsvError(error.message()).to_string()
}

fn text(error: &DecodeError) -> String {
    match error {
        DecodeError::Csv(error) => csv_text(error),
        DecodeError::Handler(error) => error.to_string(),
    }
}

#[test]
fn test_basic() {
    let csv = [
        "foo,bar,baz",
        "a,b,c",
        "12,3,5",
        "\"asda\"\"asas\",\"sdffsnsd\", as",
    ]
    .join("\n");

    let mut expected = vec![
        vec!["foo", "bar", "baz"],
        vec!["a", "b", "c"],
        vec!["12", "3", "5"],
        vec!["asda\"asas", "sdffsnsd", " as"],
    ]
    .into_iter();

    let mut reader = BufReader::with_capacity(3, Cursor::new(csv.as_bytes()));
    let mut decoder = RecordDecoder::new(RecordReader::new(), 3, false);

    loop {
        let to_read = 3;
        let mut read = 0;
        loop {
            let buf = reader.fill_buf().unwrap();
            let (records, bytes) = decoder.decode(buf, to_read - read).unwrap();

            reader.consume(bytes);
            read += records;

            if read == to_read || bytes == 0 {
                break;
            }
        }
        if read == 0 {
            break;
        }

        let b = decoder.flush().unwrap();
        b.iter().into_iter().zip(&mut expected).for_each(|(record, expected)| {
            let actual = (0..3)
                .map(|field_idx| record.get(field_idx))
                .collect::<Vec<_>>();
            assert_eq!(actual, expected)
        });
    }
    assert!(expected.next().is_none());
}

#[test]
fn test_invalid_fields() {
    let csv = "a,b\nb,c\na\n";
    let mut decoder = RecordDecoder::new(RecordReader::new(), 2, false);
    let err = text(&decoder.decode(csv.as_bytes(), 4).unwrap_err());

    let expected = "Csv error: incorrect number of fields for line 3, expected 2 got 1";

    assert_eq!(err, expected);

    // Test with initial skip
    let mut decoder = RecordDecoder::new(RecordReader::new(), 2, false);
    let (skipped, bytes) = decoder.decode(csv.as_bytes(), 1).unwrap();
    assert_eq!(skipped, 1);
    decoder.clear();

    let remaining = &csv.as_bytes()[bytes..];
    let err = text(&decoder.decode(remaining, 3).unwrap_err());
    assert_eq!(err, expected);
}

#[test]
fn test_invalid_fields_handler_skips_records_across_input_chunks() {
    let csv = b"1,ok\n2,extra,value\n3\n4,after\n";
    let handler = Arc::new(CollectRecords::default());
    let mut decoder = RecordDecoder::new(RecordReader::new(), 2, false)
        .with_record_error_handler(Some(handler.clone()));
    let mut reader = BufReader::with_capacity(3, Cursor::new(csv));

    loop {
        let buf = reader.fill_buf().unwrap();
        let (_, bytes) = decoder.decode(buf, 4 - decoder.len()).unwrap();
        reader.consume(bytes);
        if bytes == 0 || decoder.len() == 4 {
            break;
        }
    }

    let records = decoder.flush().unwrap();
    let actual = records
        .iter()
        .into_iter()
        .map(|record| [record.get(0).to_owned(), record.get(1).to_owned()])
        .collect::<Vec<_>>();
    assert_eq!(
        actual,
        [
            [String::from("1"), String::from("ok")],
            [String::from("4"), String::from("after")],
        ]
    );

    let errors = handler.errors.lock().unwrap();
    assert_eq!(
        *errors,
        [
            OwnedRecordError {
                line_number: 2,
                byte_offset: 5,
                expected_fields: 2,
                actual_fields: 3,
                record: b"2,extra,value\n".to_vec(),
            },
            OwnedRecordError {
                line_number: 3,
                byte_offset: 19,
                expected_fields: 2,
                actual_fields: 1,
                record: b"3\n".to_vec(),
            },
        ]
    );
    drop(errors);

    let records = handler.records.lock().unwrap();
    assert_eq!(
        *records,
        [
            OwnedRecord {
                line_number: 1,
                byte_offset: 0,
                record: b"1,ok\n".to_vec(),
            },
            OwnedRecord {
                line_number: 4,
                byte_offset: 21,
                record: b"4,after\n".to_vec(),
            },
        ]
    );
}

#[test]
fn test_invalid_fields_handler_bounds_offsets_across_input_chunks() {
    let mut csv = Vec::with_capacity(2 * (MAX_RECOVERABLE_EXCESS_FIELDS + 3));
    for _ in 0..MAX_RECOVERABLE_EXCESS_FIELDS + 3 {
        csv.extend_from_slice(b"x,");
    }
    csv.push(b'\n');

    let handler = Arc::new(CollectRecords::default());
    let mut decoder = RecordDecoder::new(RecordReader::new(), 2, false)
        .with_record_error_handler(Some(handler));
    let mut input_offset = 0_usize;
    let error = loop {
        let input_end = input_offset.saturating_add(17).min(csv.len());
        match decoder.decode(&csv[input_offset..input_end], 1) {
            Ok((_, bytes_read)) => {
                assert!(bytes_read > 0);
                input_offset += bytes_read;
            }
            Err(error) => break error,
        }
    };

    assert_eq!(text(&error), csv_text(&recovery_limit_error(1)));
    assert_eq!(decoder.offsets.len(), 1 + 2 + MAX_RECOVERABLE_EXCESS_FIELDS);
}

#[test]
fn test_skip_insufficient_rows() {
    let csv = "a\nv\n";
    let mut decoder = RecordDecoder::new(RecordReader::new(), 1, false);
    let (read, bytes) = decoder.decode(csv.as_bytes(), 3).unwrap();
    assert_eq!(read, 2);
    assert_eq!(bytes, csv.len());
}

#[test]
fn test_truncated_rows() {
    let csv = "a,b\nv\n,1\n,2\n,3\n";
    let mut decoder = RecordDecoder::new(RecordReader::new(), 2, true);
    let (read, bytes) = decoder.decode(csv.as_bytes(), 5).unwrap();
    assert_eq!(read, 5);
    assert_eq!(bytes, csv.len());
}

/// Stages the decoder so that the end of the second row does not fit its type when it is counted
/// from the start of the data.
#[test]
fn test_flush_offset_overflow_returns_csv_error() {
    let mut decoder = RecordDecoder::new(RecordReader::new(), 1, false);
    decoder.offsets = vec![0, usize::MAX, 1];
    decoder.offsets_len = 3;
    decoder.num_rows = 2;
    let err = decoder.flush().unwrap_err();
    assert_eq!(
        csv_text(&err),
        "Csv error: CSV record offsets overflowed usize while flushing"
    );
}
