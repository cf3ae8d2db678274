use arrow_schema::ArrowError;
use csv_records::decoder::RecordDecoder;
use csv_records::error::{recovery_limit_error, CsvError, DecodeError};
use csv_records::handler::{CsvRecord, CsvRecordError, CsvRecordErrorHandler};
use csv_records::model::{Progress, Reading};
use csv_records::reader::{ReadResult, RecordReader};
use std::sync::Arc;

struct Lenient;

impl CsvRecordErrorHandler for Lenient {
    fn handle(&self, _: &CsvRecordError<'_>) -> Result<(), ArrowError> {
        Ok(())
    }

    fn handle_record(&self, _: &CsvRecord<'_>) -> Result<(), ArrowError> {
        Ok(())
    }
}

/// Refuses malformed records, and records that start with `!`.
struct Refusing;

impl CsvRecordErrorHandler for Refusing {
    fn handle(&self, error: &CsvRecordError<'_>) -> Result<(), ArrowError> {
        Err(ArrowError::ParseError(format!("line {}", error.line_number)))
    }

    fn handle_record(&self, record: &CsvRecord<'_>) -> Result<(), ArrowError> {
        if record.record.first() == Some(&b'!') {
            return Err(ArrowError::ParseError(format!("byte {}", record.byte_offset)));
        }
        Ok(())
    }
}

fn decoder(num_columns: usize) -> RecordDecoder {
    RecordDecoder::new(RecordReader::new(), num_columns, false)
}

fn recovering(num_columns: usize) -> RecordDecoder {
    decoder(num_columns).with_record_error_handler(Some(Arc::new(Lenient)))
}

fn csv_error(result: Result<(usize, usize), DecodeError>) -> CsvError {
    match result {
        Err(DecodeError::Csv(error)) => error,
        other => panic!("{other:?}"),
    }
}

#[test]
fn wrong_number_of_fields() {
    let error = csv_error(decoder(2).decode(b"a,b\nc\n", 2));
    assert_eq!(error, CsvError::IncorrectFieldCount { line: 2, expected: 2, got: 1 });
    assert_eq!(error.message(), "incorrect number of fields for line 2, expected 2 got 1");

    let error = csv_error(decoder(2).decode(b"a,b,c\nd,e\n", 3));
    assert_eq!(error, CsvError::IncorrectFieldCount { line: 1, expected: 2, got: 3 });
}

#[test]
fn more_fields_than_all_rows_hold() {
    let error = csv_error(decoder(2).decode(b"a,b,c,d,e\n", 2));
    assert_eq!(error, CsvError::TooManyFields { line: 1, expected: 2, more_than: 4 });
    assert_eq!(
        error.message(),
        "incorrect number of fields for line 1, expected 2 got more than 4"
    );
}

#[test]
fn field_offsets_that_cannot_be_counted() {
    let mut decoder = recovering(2);
    let error = csv_error(decoder.decode(b"a,b\n", usize::MAX));
    assert_eq!(error, CsvError::OffsetCapacityOverflow);
    assert_eq!(error.message(), "CSV field offset capacity overflowed");
    assert_eq!(decoder.decode(b"a,b\n", 1).unwrap(), (1, 4));

    let error = csv_error(recovering(usize::MAX).decode(b"a,b\n", 1));
    assert_eq!(error, CsvError::OffsetCapacityOverflow);
}

#[test]
fn positions_that_cannot_be_counted() {
    let mut decoder = recovering(1);
    decoder.stream_offset = usize::MAX - 1;
    let error = csv_error(decoder.decode(b"a\n\n", 2));
    assert_eq!(error, CsvError::ByteOffsetOverflow);
    assert_eq!(error.message(), "CSV input byte offset overflowed");
}

#[test]
fn records_too_long_to_be_skipped() {
    assert_eq!(
        recovery_limit_error(12).message(),
        "malformed CSV record on line 12 exceeds the recovery limit of 16384 excess fields"
    );
}

#[test]
fn records_given_out_in_the_middle_of_one() {
    let mut decoder = decoder(2);
    assert_eq!(decoder.decode(b"a,b\nc,", 2).unwrap(), (1, 6));
    let error = decoder.flush().unwrap_err();
    assert_eq!(error, CsvError::PartialRecord);
    assert_eq!(error.message(), "Cannot flush part way through record");
    assert_eq!(decoder.len(), 1);
    assert_eq!(decoder.decode(b"d\n", 2).unwrap(), (1, 2));
    assert_eq!(decoder.flush().unwrap().len(), 2);
}

#[test]
fn data_that_is_not_text() {
    let mut decoder = decoder(2);
    assert_eq!(decoder.decode(b"a,b\n", 2).unwrap(), (1, 4));
    assert_eq!(decoder.flush().unwrap().len(), 1);
    assert_eq!(decoder.decode(b"c,d\n,\xff\n", 2).unwrap(), (2, 7));
    let error = decoder.flush().unwrap_err();
    assert_eq!(error, CsvError::InvalidUtf8 { line: 3, field: 2 });
    assert_eq!(error.message(), "Encountered invalid UTF-8 data for line 3 and field 2");
}

#[test]
fn data_that_is_not_text_behind_empty_fields() {
    let mut decoder = decoder(3);
    assert_eq!(decoder.decode(b",,\n,,\xc3(\n", 2).unwrap(), (2, 8));
    assert_eq!(
        decoder.flush().unwrap_err(),
        CsvError::InvalidUtf8 { line: 2, field: 3 }
    );
}

#[test]
fn refusal_of_a_malformed_record() {
    let mut decoder = decoder(2).with_record_error_handler(Some(Arc::new(Refusing)));
    match decoder.decode(b"a,b\nc\n", 2) {
        Err(DecodeError::Handler(error)) => {
            assert_eq!(error.to_string(), ArrowError::ParseError("line 2".into()).to_string())
        }
        other => panic!("{other:?}"),
    }
    assert_eq!(decoder.len(), 1);
}

#[test]
fn refusal_of_a_record() {
    let mut decoder = decoder(2).with_record_error_handler(Some(Arc::new(Refusing)));
    match decoder.decode(b"a,b\n!,d\n", 2) {
        Err(DecodeError::Handler(error)) => {
            assert_eq!(error.to_string(), ArrowError::ParseError("byte 4".into()).to_string())
        }
        other => panic!("{other:?}"),
    }
    assert_eq!(decoder.len(), 1);
}

#[test]
fn verdicts_without_a_handler() {
    let mut decoder = decoder(2);
    decoder.offsets = vec![0, 1, 2, 0, 0];
    decoder.offsets_len = 2;
    decoder.current_field = 1;
    assert_eq!(decoder.advance_strict(ReadResult::InputEmpty), Ok(Progress::Exhausted));
    assert_eq!(decoder.advance_strict(ReadResult::End), Ok(Progress::Exhausted));
    assert_eq!(decoder.advance_strict(ReadResult::OutputFull), Ok(Progress::OutputFull));
    assert_eq!(
        decoder.advance_strict(ReadResult::OutputEndsFull),
        Err(CsvError::TooManyFields { line: 1, expected: 2, more_than: 1 })
    );
    assert_eq!(
        decoder.advance_strict(ReadResult::Record),
        Err(CsvError::IncorrectFieldCount { line: 1, expected: 2, got: 1 })
    );
    decoder.truncated_rows = true;
    assert_eq!(decoder.advance_strict(ReadResult::Record), Ok(Progress::Row));
    assert_eq!(decoder.offsets, [0, 1, 1, 0, 0]);
    assert_eq!(
        (decoder.offsets_len, decoder.current_field, decoder.line_number, decoder.num_rows),
        (3, 0, 2, 1)
    );
}

#[test]
fn verdicts_with_a_handler() {
    let mut decoder = recovering(2);
    decoder.offsets = vec![0, 1, 2, 3];
    decoder.offsets_len = 4;
    decoder.current_field = 3;
    decoder.data = vec![b'a', b'b', b'c'];
    decoder.data_len = 3;
    assert_eq!(
        decoder.advance_recovering(ReadResult::OutputEndsFull, b"a,b,c,"),
        Ok(Reading::OffsetsGrown)
    );
    assert_eq!(decoder.offsets.len(), 6);
    assert_eq!(decoder.record_bytes, b"a,b,c,");
    assert_eq!(decoder.stream_offset, 6);
    assert_eq!(decoder.advance_recovering(ReadResult::Record, b"\n"), Ok(Reading::Record));
    assert_eq!(decoder.settle(Ok(())).unwrap(), false);
    assert_eq!(
        (decoder.offsets_len, decoder.data_len, decoder.current_field, decoder.line_number),
        (1, 0, 0, 2)
    );
    assert_eq!(decoder.record_byte_offset, 7);
    assert!(decoder.record_bytes.is_empty());
}
