# csv_records

Push-based decoding of CSV records, and a HyperLogLog sketch of a column of integers. The library
is written in Verus: what each function does is stated in its contract and proved.

- `src/decoder.rs`: `RecordDecoder`, which takes CSV data piece by piece, buffers whole records and
  gives them out.
- `src/records.rs`: the records given out, `StringRecords` and `StringRecord`.
- `src/handler.rs`: the handlers that are told of every record while malformed ones are skipped.
- `src/error.rs`: the errors and their texts.
- `src/hll.rs`: `HyperLogLog`.
- `src/reader.rs`, `src/text.rs`: what is relied on of `csv-core` and of the standard library.
- `src/model.rs`: what a decoder holds, and what decoding does to it.
- `src/layout.rs`, `src/progress.rs`: how buffered records lie in their buffers, and that decoding
  keeps it so.
- `src/stream.rs`, `src/skipping.rs`: the records of a stream, and that decoding buffers just these,
  without and with a handler.
- `src/sessions.rs`, `src/notices.rs`: what holds over any sequence of calls in which decoding
  succeeds: which records are delivered, how many are buffered, and what a handler is told.
- `src/cuts.rs`, `src/malformed.rs`: that it makes no difference how a stream is cut into pieces, as
  long as a byte order mark is not, and that skipping malformed records is decoding the stream
  without them.
- `src/pieces.rs`, `src/outcomes.rs`: when decoding succeeds, in one piece or in several, what it
  leaves when it does not, and that a handler changes nothing where no record is malformed.
- `app/`: conversions to the error type of Arrow, and display of records.
