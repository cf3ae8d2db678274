//! What a decoder holds, and what decoding does to it.

use crate::error::{CsvError, DecodeError, MAX_RECOVERABLE_EXCESS_FIELDS};
use crate::handler::{CsvRecordErrorHandler, Notice};
use crate::reader::{record_read, ReadResult, ReadStep, ReaderState};
use arrow_schema::ArrowError;
use vstd::prelude::*;

verus! {

/// The estimated length of a field in bytes.
pub const AVERAGE_FIELD_SIZE: usize = 8;

/// The least room for field data that a read is given.
pub const MIN_CAPACITY: usize = 1024;

/// What a decoder holds.
#[verifier::ext_equal]
pub struct DecoderState {
    /// The state of the reader.
    pub reader: ReaderState,
    /// How many fields a record has.
    pub num_columns: nat,
    /// Whether records with fewer fields are filled up.
    pub truncated_rows: bool,
    /// The line of the record being read.
    pub line_number: nat,
    /// A zero, then the field ends of the buffered records and of the record being read, each
    /// counted from the start of its record.
    pub offsets: Seq<usize>,
    /// How many field ends the buffer is sized for.
    pub offsets_size: nat,
    /// How many fields of the record being read have ended.
    pub current_field: nat,
    /// How many records are buffered.
    pub num_rows: nat,
    /// The field data of the buffered records and of the record being read.
    pub data: Seq<u8>,
    /// How many bytes of field data the buffer is sized for.
    pub data_size: nat,
    /// The bytes of the record being read, where malformed records are skipped.
    pub record_bytes: Seq<u8>,
    /// How many bytes were consumed while malformed records were skipped.
    pub stream_offset: nat,
    /// The value of `stream_offset` at the start of the record being read.
    pub record_byte_offset: nat,
    /// The length of `data` to go back to if the record being read is malformed.
    pub record_data_start: nat,
    /// The length of `offsets` to go back to if the record being read is malformed.
    pub record_offsets_start: nat,
}

pub open spec fn least(a: nat, b: nat) -> nat {
    if a <= b {
        a
    } else {
        b
    }
}

pub open spec fn greatest(a: nat, b: nat) -> nat {
    if a <= b {
        b
    } else {
        a
    }
}

/// How much room for field data the given number of rows is expected to need.
pub open spec fn data_estimate(rows: nat, num_columns: nat) -> nat {
    greatest(rows * num_columns * AVERAGE_FIELD_SIZE as nat, MIN_CAPACITY as nat)
}

/// What became of a read without error.
#[derive(Debug, Clone, Copy, PartialEq, Eq, Structural)]
pub enum Progress {
    /// The input is used up.
    Exhausted,
    /// There is no room left for field data.
    OutputFull,
    /// A record was buffered.
    Row,
}

/// What became of a read without error, where malformed records are skipped.
#[derive(Debug, Clone, Copy, PartialEq, Eq, Structural)]
pub enum Reading {
    /// The input is used up.
    Exhausted,
    /// There is no room left for field data.
    OutputFull,
    /// There was no room left for field ends; now there is.
    OffsetsGrown,
    /// A record was read and the handler has to be told.
    Record,
}

impl DecoderState {
    /// The decoder with its buffer of field ends sized for `rows` more records.
    pub open spec fn reserve_offsets(self, rows: nat) -> DecoderState {
        DecoderState { offsets_size: self.offsets.len() + rows * self.num_columns, ..self }
    }

    /// The decoder with its data buffer sized for `rows` more records.
    pub open spec fn reserve_data(self, rows: nat) -> DecoderState {
        DecoderState {
            data_size: self.data.len() + data_estimate(rows, self.num_columns),
            ..self
        }
    }

    /// How many bytes of field data a read may write.
    pub open spec fn output_room(self) -> nat {
        (self.data_size - self.data.len()) as nat
    }

    /// How many field ends a read may write.
    pub open spec fn ends_room(self) -> nat {
        (self.offsets_size - self.offsets.len()) as nat
    }

    /// The decoder after a read wrote `output` and `ends`.
    pub open spec fn absorb(self, output: Seq<u8>, ends: Seq<usize>) -> DecoderState {
        DecoderState {
            offsets: self.offsets + ends,
            current_field: self.current_field + ends.len(),
            data: self.data + output,
            ..self
        }
    }

    /// The decoder after a read.
    pub open spec fn after_read(self, step: ReadStep) -> DecoderState {
        DecoderState { reader: step.after, ..self }.absorb(step.output, step.ends)
    }

    /// Whether the record just read has a number of fields to buffer it with.
    pub open spec fn row_fits(self) -> bool {
        ||| self.current_field == self.num_columns
        ||| self.truncated_rows && self.current_field < self.num_columns
    }

    /// How many fields the record just read lacks.
    pub open spec fn missing_fields(self) -> nat {
        if self.current_field < self.num_columns {
            (self.num_columns - self.current_field) as nat
        } else {
            0
        }
    }

    /// The decoder with the record just read buffered; fields that it lacks are empty and end
    /// where its last field does.
    pub open spec fn complete_row(self) -> DecoderState {
        DecoderState {
            offsets: self.offsets + Seq::new(self.missing_fields(), |i: int| self.offsets.last()),
            current_field: 0,
            line_number: self.line_number + 1,
            num_rows: self.num_rows + 1,
            ..self
        }
    }

    /// What the end of a read means to a decoder that takes every malformed record for an error.
    pub open spec fn strict_verdict(self, result: ReadResult) -> (
        DecoderState,
        Result<Progress, CsvError>,
    ) {
        match result {
            ReadResult::InputEmpty | ReadResult::End => (self, Ok(Progress::Exhausted)),
            ReadResult::OutputFull => (self, Ok(Progress::OutputFull)),
            ReadResult::OutputEndsFull => (
                self,
                Err(
                    CsvError::TooManyFields {
                        line: self.line_number as usize,
                        expected: self.num_columns as usize,
                        more_than: self.current_field as usize,
                    },
                ),
            ),
            ReadResult::Record => if self.row_fits() {
                (self.complete_row(), Ok(Progress::Row))
            } else {
                (
                    self,
                    Err(
                        CsvError::IncorrectFieldCount {
                            line: self.line_number as usize,
                            expected: self.num_columns as usize,
                            got: self.current_field as usize,
                        },
                    ),
                )
            },
        }
    }
}

impl DecoderState {
    /// The decoder without buffered records. The number of fields read of the current record stays,
    /// so that a decoder can be cleared in the middle of a record.
    pub open spec fn cleared(self) -> DecoderState {
        DecoderState {
            offsets: self.offsets.take(1),
            data: Seq::empty(),
            num_rows: 0,
            record_data_start: 0,
            record_offsets_start: 1,
            ..self
        }
    }

    /// The current line lies behind those of the buffered records.
    pub open spec fn numbered(self) -> bool {
        self.num_rows < self.line_number
    }
}

/// Dropping the buffered records changes nothing of what the decoder knows of the record being read,
/// of the reader and of the lines and bytes so far.
pub proof fn lemma_clearing_keeps_place(s: DecoderState)
    ensures
        s.cleared().num_rows == 0,
        s.cleared().data.len() == 0,
        s.offsets.len() > 0 ==> s.cleared().offsets == seq![s.offsets[0]],
        s.cleared().record_data_start == 0,
        s.cleared().record_offsets_start == 1,
        s.cleared().reader == s.reader,
        s.cleared().num_columns == s.num_columns,
        s.cleared().truncated_rows == s.truncated_rows,
        s.cleared().line_number == s.line_number,
        s.cleared().current_field == s.current_field,
        s.cleared().record_bytes == s.record_bytes,
        s.cleared().stream_offset == s.stream_offset,
        s.cleared().record_byte_offset == s.record_byte_offset,
{
    if s.offsets.len() > 0 {
        assert(s.offsets.take(1) =~= seq![s.offsets[0]]);
    }
}

/// A bound on how many reads are left: each consumes input, finds a full buffer that is then
/// enlarged, or is the one that meets the end of the data.
pub open spec fn reads_left(unread: nat, output_room: nat, ends_room: nat, at_end: bool) -> nat {
    8 * unread + (if output_room == 0 {
        2nat
    } else {
        0
    }) + (if ends_room == 0 {
        2nat
    } else {
        0
    }) + (if at_end {
        0nat
    } else {
        1
    })
}

/// Decodes `input[used..]` after `read` of `to_read` records, and stops at the first malformed
/// record. Gives the decoder's last state and what is returned.
pub open spec fn strict_run(
    s: DecoderState,
    input: Seq<u8>,
    used: nat,
    to_read: nat,
    read: nat,
) -> (DecoderState, Result<(usize, usize), DecodeError>)
    decreases reads_left((input.len() - used) as nat, s.output_room(), 1, false),
{
    let step = record_read(s.reader, input.skip(used as int), s.output_room(), s.ends_room());
    let used_now = used + step.consumed;
    let (t, verdict) = s.after_read(step).strict_verdict(step.result);
    match verdict {
        Err(error) => (t, Err(DecodeError::Csv(error))),
        Ok(Progress::Exhausted) => (t, Ok((read as usize, used_now as usize))),
        Ok(Progress::OutputFull) => {
            let next = t.reserve_data((to_read - read) as nat);
            if used_now <= input.len() && reads_left(
                (input.len() - used_now) as nat,
                next.output_room(),
                1,
                false,
            ) < reads_left((input.len() - used) as nat, s.output_room(), 1, false) {
                strict_run(next, input, used_now, to_read, read)
            } else {
                arbitrary()
            }
        },
        Ok(Progress::Row) => if read + 1 == to_read || used_now == input.len() {
            (t, Ok(((read + 1) as usize, used_now as usize)))
        } else if used < used_now <= input.len() {
            strict_run(t, input, used_now, to_read, read + 1)
        } else {
            arbitrary()
        },
    }
}

/// What decoding does without a record handler.
pub open spec fn strict_decode(s: DecoderState, input: Seq<u8>, to_read: nat) -> (
    DecoderState,
    Result<(usize, usize), DecodeError>,
) {
    if to_read == 0 {
        (s, Ok((0, 0)))
    } else {
        strict_run(s.reserve_offsets(to_read).reserve_data(to_read), input, 0, to_read, 0)
    }
}

impl DecoderState {
    /// How many field offsets the decoder may hold before the record being read is given up.
    pub open spec fn offsets_limit(self) -> nat {
        self.record_offsets_start + self.num_columns + MAX_RECOVERABLE_EXCESS_FIELDS as nat
    }

    /// How many field ends a read may write where malformed records are skipped.
    pub open spec fn limited_ends_room(self) -> nat {
        (least(self.offsets_size, self.offsets_limit()) - self.offsets.len()) as nat
    }

    /// The decoder after `consumed` was read of the record.
    pub open spec fn track(self, consumed: Seq<u8>) -> DecoderState {
        DecoderState {
            stream_offset: self.stream_offset + consumed.len(),
            record_bytes: self.record_bytes + consumed,
            ..self
        }
    }

    /// How large the buffer of field ends becomes when it is full.
    pub open spec fn grown_offsets_size(self) -> nat {
        least(self.offsets.len() + greatest(self.num_columns, 1), self.offsets_limit())
    }

    /// The decoder with its buffer of field ends enlarged.
    pub open spec fn grow_offsets(self) -> DecoderState {
        DecoderState { offsets_size: self.grown_offsets_size(), ..self }
    }

    /// What the end of a read of `consumed` means to a decoder that skips malformed records.
    pub open spec fn recovering_verdict(self, consumed: Seq<u8>, result: ReadResult) -> (
        DecoderState,
        Result<Reading, CsvError>,
    ) {
        let noted = self.track(consumed);
        if noted.stream_offset > usize::MAX {
            (self, Err(CsvError::ByteOffsetOverflow))
        } else {
            match result {
                ReadResult::InputEmpty | ReadResult::End => (noted, Ok(Reading::Exhausted)),
                ReadResult::OutputFull => (noted, Ok(Reading::OutputFull)),
                ReadResult::OutputEndsFull => if self.offsets.len() >= self.offsets_limit() {
                    (noted, Err(CsvError::RecoveryLimit { line: self.line_number as usize }))
                } else if self.offsets.len() + greatest(self.num_columns, 1) > usize::MAX {
                    (noted, Err(CsvError::OffsetCapacityOverflow))
                } else {
                    (noted.grow_offsets(), Ok(Reading::OffsetsGrown))
                },
                ReadResult::Record => (noted, Ok(Reading::Record)),
            }
        }
    }

    /// What a handler is told of the record just read.
    pub open spec fn notice(self) -> Notice {
        if self.row_fits() {
            Notice::Record {
                line_number: self.line_number,
                byte_offset: self.record_byte_offset,
                record: self.record_bytes,
            }
        } else {
            Notice::Malformed {
                line_number: self.line_number,
                byte_offset: self.record_byte_offset,
                expected_fields: self.num_columns,
                actual_fields: self.current_field,
                record: self.record_bytes,
            }
        }
    }

    /// The decoder at the start of the next record.
    pub open spec fn begin_record(self) -> DecoderState {
        DecoderState {
            record_bytes: Seq::empty(),
            record_byte_offset: self.stream_offset,
            record_data_start: self.data.len(),
            record_offsets_start: self.offsets.len(),
            ..self
        }
    }

    /// The decoder with the record just read dropped.
    pub open spec fn skip_record(self) -> DecoderState {
        DecoderState {
            data: self.data.take(self.record_data_start as int),
            offsets: self.offsets.take(self.record_offsets_start as int),
            current_field: 0,
            line_number: self.line_number + 1,
            record_bytes: Seq::empty(),
            record_byte_offset: self.stream_offset,
            ..self
        }
    }

    /// The decoder once the handler let it go on after a record.
    pub open spec fn settle_record(self) -> DecoderState {
        if self.row_fits() {
            self.complete_row().begin_record()
        } else {
            self.skip_record()
        }
    }
}

/// Whether decoding `input[used..]` after `read` of `to_read` records can leave the decoder as
/// `done` and return `returned`, with `handler` told the notices `told` one after the other and
/// malformed records skipped. `at_end` tells whether the last record was completed by the end of
/// the data.
pub open spec fn recovering_run<H: CsvRecordErrorHandler + ?Sized>(
    handler: &H,
    s: DecoderState,
    input: Seq<u8>,
    used: nat,
    to_read: nat,
    read: nat,
    at_end: bool,
    told: Seq<Notice>,
    done: DecoderState,
    returned: Result<(usize, usize), DecodeError>,
) -> bool
    decreases
            reads_left(
                (input.len() - used) as nat,
                s.output_room(),
                s.limited_ends_room(),
                at_end,
            ),
{
    let rest = input.skip(used as int);
    let step = record_read(s.reader, rest, s.output_room(), s.limited_ends_room());
    let used_now = used + step.consumed;
    let (t, verdict) = s.after_read(step).recovering_verdict(
        rest.take(step.consumed as int),
        step.result,
    );
    let unread = (input.len() - used_now) as nat;
    let left = reads_left(
        (input.len() - used) as nat,
        s.output_room(),
        s.limited_ends_room(),
        at_end,
    );
    if s.offsets_limit() > usize::MAX {
        told.len() == 0 && done == s && returned == Err::<(usize, usize), _>(
            DecodeError::Csv(CsvError::OffsetCapacityOverflow),
        )
    } else {
        match verdict {
            Err(error) => told.len() == 0 && done == t && returned == Err::<(usize, usize), _>(
                DecodeError::Csv(error),
            ),
            Ok(Reading::Exhausted) => {
                told.len() == 0 && done == t && returned == Ok::<_, DecodeError>(
                    (read as usize, used_now as usize),
                )
            },
            Ok(Reading::OutputFull) => {
                let next = t.reserve_data((to_read - read) as nat);
                &&& reads_left(unread, next.output_room(), next.limited_ends_room(), at_end) < left
                &&& recovering_run(
                    handler,
                    next,
                    input,
                    used_now,
                    to_read,
                    read,
                    at_end,
                    told,
                    done,
                    returned,
                )
            },
            Ok(Reading::OffsetsGrown) => {
                &&& reads_left(unread, t.output_room(), t.limited_ends_room(), at_end) < left
                &&& recovering_run(
                    handler,
                    t,
                    input,
                    used_now,
                    to_read,
                    read,
                    at_end,
                    told,
                    done,
                    returned,
                )
            },
            Ok(Reading::Record) => {
                let next = t.settle_record();
                let read_now = if t.row_fits() {
                    read + 1
                } else {
                    read
                };
                let at_end_now = at_end || step.consumed == 0;
                &&& told.len() > 0
                &&& told[0] == t.notice()
                &&& exists|reply: Result<(), ArrowError>| #[trigger]
                    handler.answers(t.notice(), reply) && match reply {
                        Err(error) => told.len() == 1 && done == t && returned == Err::<
                            (usize, usize),
                            _,
                        >(DecodeError::Handler(error)),
                        Ok(()) => if t.row_fits() && (read_now == to_read || used_now
                            == input.len()) {
                            told.len() == 1 && done == next && returned == Ok::<_, DecodeError>(
                                (read_now as usize, used_now as usize),
                            )
                        } else {
                            &&& reads_left(
                                unread,
                                next.output_room(),
                                next.limited_ends_room(),
                                at_end_now,
                            ) < left
                            &&& recovering_run(
                                handler,
                                next,
                                input,
                                used_now,
                                to_read,
                                read_now,
                                at_end_now,
                                told.drop_first(),
                                done,
                                returned,
                            )
                        },
                    }
            },
        }
    }
}

/// What decoding can do with a record handler, which is told the notices `told`.
pub open spec fn recovering_decode<H: CsvRecordErrorHandler + ?Sized>(
    handler: &H,
    s: DecoderState,
    input: Seq<u8>,
    to_read: nat,
    told: Seq<Notice>,
    done: DecoderState,
    returned: Result<(usize, usize), DecodeError>,
) -> bool {
    if to_read == 0 {
        told.len() == 0 && done == s && returned == Ok::<_, DecodeError>((0usize, 0usize))
    } else if s.offsets.len() + to_read * s.num_columns > usize::MAX {
        told.len() == 0 && done == s && returned == Err::<(usize, usize), _>(
            DecodeError::Csv(CsvError::OffsetCapacityOverflow),
        )
    } else {
        recovering_run(
            handler,
            s.reserve_offsets(to_read).reserve_data(to_read),
            input,
            0,
            to_read,
            0,
            false,
            told,
            done,
            returned,
        )
    }
}

} // verus!
