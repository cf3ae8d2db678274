//! The decoder of CSV records.

use crate::error::{
    recovery_limit_error, CsvError, DecodeError, MAX_RECOVERABLE_EXCESS_FIELDS,
};
use crate::handler::{share, CsvRecord, CsvRecordError, CsvRecordErrorHandler, Notice};
use crate::layout::{
    is_last_at_most, lemma_field_given_back, lemma_rebased_in_order, lemma_row_at, rebase_fits,
    rebased_end, row_base, whole_rows,
};
use crate::model::{
    data_estimate, greatest, reads_left, recovering_decode, recovering_run, strict_decode,
    strict_run, DecoderState, Progress, Reading, AVERAGE_FIELD_SIZE, MIN_CAPACITY,
};
use crate::progress::{
    leads_to, lemma_leads_end, lemma_leads_on, lemma_leads_past_record, lemma_recovering_read,
    lemma_recovering_record, lemma_strict_read, recovery_limits, recovery_progress, strict_limits,
    strict_progress,
};
use crate::reader::{read_is_sound, reader_state, record_read, ReadResult, RecordReader};
use crate::records::{cut_between_chars, cuts_char_first_at, first_cut, StringRecords};
use crate::sessions::is_new;
use crate::text::{is_valid_up_to, utf8_text};
use arrow_schema::ArrowError;
use std::sync::Arc;
use vstd::prelude::*;
use vstd::string::*;
use vstd::utf8::{is_char_boundary, is_char_boundary_start_end_of_seq, valid_utf8};

verus! {

/// A push-based decoder of CSV records.
///
/// Input is decoded piece by piece with [`RecordDecoder::decode`], which buffers whole records.
pub struct RecordDecoder {
    /// Splits the input into fields and records.
    pub delimiter: RecordReader,
    /// How many fields a record has.
    pub num_columns: usize,
    /// The current line number.
    pub line_number: usize,
    /// The ends of the fields, each counted from the start of its record.
    pub offsets: Vec<usize>,
    /// How many entries of `offsets` are in use.
    ///
    /// The vector is longer, so that its memory is not cleared again and again.
    pub offsets_len: usize,
    /// How many fields of the current record were read.
    pub current_field: usize,
    /// How many records are buffered.
    pub num_rows: usize,
    /// The data of the fields.
    pub data: Vec<u8>,
    /// How many bytes of `data` are in use.
    pub data_len: usize,
    /// Whether records with fewer fields than expected are filled up with empty fields.
    pub truncated_rows: bool,
    /// What malformed records are reported to. Without it they are errors.
    pub record_error_handler: Option<Arc<dyn CsvRecordErrorHandler>>,
    /// The bytes of the current record, kept only for the handler.
    pub record_bytes: Vec<u8>,
    /// How many bytes of input were consumed with a handler.
    pub stream_offset: usize,
    /// Where the current record starts in the input.
    pub record_byte_offset: usize,
    /// How much of `data` is kept when the current record is dropped.
    pub record_data_start: usize,
    /// How much of `offsets` is kept when the current record is dropped.
    pub record_offsets_start: usize,
}

impl View for RecordDecoder {
    type V = DecoderState;

    open spec fn view(&self) -> DecoderState {
        DecoderState {
            reader: self.delimiter.state(),
            num_columns: self.num_columns as nat,
            truncated_rows: self.truncated_rows,
            line_number: self.line_number as nat,
            offsets: Seq::new(
                self.offsets_len as nat,
                |i: int|
                    if i < self.offsets@.len() {
                        self.offsets@[i]
                    } else {
                        0
                    },
            ),
            offsets_size: self.offsets@.len(),
            current_field: self.current_field as nat,
            num_rows: self.num_rows as nat,
            data: self.data@.take(self.data_len as int),
            data_size: self.data@.len(),
            record_bytes: self.record_bytes@,
            stream_offset: self.stream_offset as nat,
            record_byte_offset: self.record_byte_offset as nat,
            record_data_start: self.record_data_start as nat,
            record_offsets_start: self.record_offsets_start as nat,
        }
    }
}

impl RecordDecoder {
    /// The buffers hold what is in use of them, and the places to go back to lie in them.
    pub open spec fn well_formed(&self) -> bool {
        &&& self.delimiter.well_formed()
        &&& self.offsets_len == 1 || 1 <= self.offsets_len <= self.offsets.len()
        &&& self.data_len <= self.data.len()
        &&& self.record_data_start <= self.data_len
        &&& 1 <= self.record_offsets_start <= self.offsets_len
        &&& self@.offsets[0] == 0
    }

    /// Whether everything that decoding without a handler counts stays in range.
    pub open spec fn strict_fits(&self, input_len: nat, to_read: nat) -> bool {
        &&& self.delimiter.has_count_for(input_len)
        &&& strict_limits(self@, input_len, to_read)
    }

    /// Whether everything that decoding with a handler counts stays in range.
    pub open spec fn recovery_fits(&self, input_len: nat, to_read: nat) -> bool {
        &&& self.delimiter.has_count_for(input_len)
        &&& recovery_limits(self@, input_len, to_read)
    }

    /// A decoder of records with `num_columns` fields that reads with `delimiter`. With
    /// `truncated_rows`, records may have fewer fields.
    pub fn new(delimiter: RecordReader, num_columns: usize, truncated_rows: bool) -> (decoder: Self)
        requires
            delimiter.well_formed(),
        ensures
            decoder.well_formed(),
            decoder.delimiter == delimiter,
            decoder.record_error_handler is None,
            decoder@ == (DecoderState {
                reader: delimiter.state(),
                num_columns: num_columns as nat,
                truncated_rows,
                line_number: 1,
                offsets: seq![0usize],
                offsets_size: 0,
                current_field: 0,
                num_rows: 0,
                data: Seq::empty(),
                data_size: 0,
                record_bytes: Seq::empty(),
                stream_offset: 0,
                record_byte_offset: 0,
                record_data_start: 0,
                record_offsets_start: 1,
            }),
            decoder@.numbered(),
            decoder@.bytes_tracked(),
            delimiter.record_len == 0 ==> decoder@.laid_out() && decoder@.synced(),
            delimiter.record_len == 0 && !delimiter.state().started ==> is_new(
                decoder@,
            ),
    {
        let decoder = RecordDecoder {
            delimiter,
            num_columns,
            line_number: 1,
            offsets: Vec::new(),
            offsets_len: 1,
            current_field: 0,
            data_len: 0,
            data: Vec::new(),
            num_rows: 0,
            truncated_rows,
            record_error_handler: None,
            record_bytes: Vec::new(),
            stream_offset: 0,
            record_byte_offset: 0,
            record_data_start: 0,
            record_offsets_start: 1,
        };
        assert(decoder@.offsets =~= seq![0usize]);
        assert(decoder@.data =~= Seq::empty());
        assert(0 * decoder@.num_columns == 0) by (nonlinear_arith);
        decoder
    }

    /// The decoder with `handler` told of every record, and malformed records skipped. Without a
    /// handler they are errors.
    pub fn with_record_error_handler(
        self,
        handler: Option<Arc<dyn CsvRecordErrorHandler>>,
    ) -> (decoder: Self)
        ensures
            decoder == (RecordDecoder { record_error_handler: handler, ..self }),
            decoder@ == self@,
    {
        let mut decoder = self;
        decoder.record_error_handler = handler;
        assert(decoder@.offsets =~= self@.offsets);
        decoder
    }

    /// Decodes at most `to_read` records from `input`, and gives the numbers of records and bytes
    /// read. An empty `input` tells that there is no more data.
    pub fn decode(&mut self, input: &[u8], to_read: usize) -> (r: Result<
        (usize, usize),
        DecodeError,
    >)
        requires
            old(self).well_formed(),
            old(self).record_error_handler is None && to_read > 0 ==> old(self).strict_fits(
                input@.len(),
                to_read as nat,
            ),
            old(self).record_error_handler is Some && to_read > 0 && old(self).offsets_len + to_read
                * old(self).num_columns <= usize::MAX ==> old(self).recovery_fits(
                input@.len(),
                to_read as nat,
            ),
        ensures
            final(self).well_formed(),
            final(self).record_error_handler == old(self).record_error_handler,
            final(self).num_columns == old(self).num_columns,
            final(self).truncated_rows == old(self).truncated_rows,
            match old(self).record_error_handler {
                None => (final(self)@, r) == strict_decode(old(self)@, input@, to_read as nat),
                Some(handler) => exists|told: Seq<Notice>| #[trigger]
                    recovering_decode(
                        &*handler,
                        old(self)@,
                        input@,
                        to_read as nat,
                        told,
                        final(self)@,
                        r,
                    ),
            },
            to_read == 0 ==> r == Ok::<_, DecodeError>((0usize, 0usize)) && final(self)@ == old(
                self,
            )@,
            r matches Ok((rows, bytes)) ==> {
                &&& rows <= to_read
                &&& bytes <= input@.len()
                &&& rows < to_read ==> bytes == input@.len()
                &&& final(self).delimiter.bytes_read == old(self).delimiter.bytes_read + bytes
                &&& final(self).num_rows == old(self).num_rows + rows
                &&& to_read > 0 ==> final(self).offsets_len <= final(self).offsets.len()
            },
            final(self).num_rows <= old(self).num_rows + to_read,
            final(self).delimiter.bytes_read <= old(self).delimiter.bytes_read + input@.len(),
            final(self).delimiter.record_len <= old(self).delimiter.record_len + input@.len(),
            final(self).data_len <= old(self).data_len + input@.len(),
            final(self).line_number <= old(self).line_number + input@.len() + 1,
            old(self)@.numbered() ==> final(self)@.numbered(),
            old(self).record_error_handler is None ==> {
                &&& old(self)@.offsets.is_prefix_of(final(self)@.offsets)
                &&& old(self)@.data.is_prefix_of(final(self)@.data)
                &&& final(self).line_number - old(self).line_number == final(self).num_rows - old(
                    self,
                ).num_rows
                &&& final(self).offsets_len <= old(self).offsets_len + to_read * old(
                    self,
                ).num_columns
                &&& final(self).current_field <= old(self).current_field + to_read * old(
                    self,
                ).num_columns
                &&& r is Ok && old(self)@.laid_out() ==> final(self)@.laid_out()
            },
            old(self).record_error_handler is Some ==> {
                &&& old(self)@.kept_offsets().is_prefix_of(final(self)@.offsets)
                &&& old(self)@.kept_data().is_prefix_of(final(self)@.data)
                &&& final(self).offsets@.len() <= greatest(
                    greatest(
                        old(self).offsets@.len(),
                        old(self)@.offsets.len() + to_read as nat * old(self)@.num_columns,
                    ),
                    final(self)@.offsets_limit(),
                )
                &&& final(self).record_offsets_start <= old(self).offsets_len + to_read * old(
                    self,
                ).num_columns
                &&& final(self).current_field + final(self).record_offsets_start <= old(
                    self,
                ).current_field + final(self).offsets_len
                &&& old(self).offsets_len <= old(self)@.offsets_limit() ==> final(self).offsets_len
                    <= final(self)@.offsets_limit()
                &&& r is Ok && old(self)@.laid_out() && old(self)@.synced()
                    ==> final(self)@.laid_out() && final(self)@.synced()
                &&& r is Ok && old(self)@.bytes_tracked() ==> final(self)@.bytes_tracked()
            },
    {
        match &self.record_error_handler {
            Some(handler) => {
                let handler = share(handler);
                self.decode_with_record_error_handler(input, to_read, &*handler)
            },
            None => self.decode_strict(input, to_read),
        }
    }

    /// Decodes with malformed records taken for errors.
    fn decode_strict(&mut self, input: &[u8], to_read: usize) -> (r: Result<
        (usize, usize),
        DecodeError,
    >)
        requires
            old(self).well_formed(),
            to_read > 0 ==> old(self).strict_fits(input@.len(), to_read as nat),
        ensures
            final(self).well_formed(),
            (final(self)@, r) == strict_decode(old(self)@, input@, to_read as nat),
            final(self).record_error_handler == old(self).record_error_handler,
            final(self).num_columns == old(self).num_columns,
            final(self).truncated_rows == old(self).truncated_rows,
            old(self)@.offsets.is_prefix_of(final(self)@.offsets),
            old(self)@.data.is_prefix_of(final(self)@.data),
            final(self).num_rows <= old(self).num_rows + to_read,
            final(self).delimiter.bytes_read <= old(self).delimiter.bytes_read + input@.len(),
            final(self).delimiter.record_len <= old(self).delimiter.record_len + input@.len(),
            final(self).data_len <= old(self).data_len + input@.len(),
            final(self).line_number <= old(self).line_number + input@.len() + 1,
            final(self).line_number - old(self).line_number == final(self).num_rows - old(
                self,
            ).num_rows,
            r matches Ok((rows, bytes)) ==> {
                &&& rows <= to_read
                &&& bytes <= input@.len()
                &&& rows < to_read ==> bytes == input@.len()
                &&& final(self).delimiter.bytes_read == old(self).delimiter.bytes_read + bytes
                &&& final(self).num_rows == old(self).num_rows + rows
                &&& to_read > 0 ==> final(self).offsets_len <= final(self).offsets.len()
                &&& old(self)@.laid_out() ==> final(self)@.laid_out()
            },
            final(self).offsets_len <= old(self).offsets_len + to_read * old(self).num_columns,
            final(self).current_field <= old(self).current_field + to_read * old(self).num_columns,
    {
        if to_read == 0 {
            return Ok((0, 0));
        }
        let ghost before = self@;
        self.reserve_offsets(to_read);
        self.reserve_data(to_read);
        let ghost start = self@;
        let mut used: usize = 0;
        let mut read: usize = 0;
        loop
            invariant
                self.well_formed(),
                self.record_error_handler == old(self).record_error_handler,
                before == old(self)@,
                start == before.reserve_offsets(to_read as nat).reserve_data(to_read as nat),
                to_read > 0,
                strict_progress(
                    before,
                    self@,
                    input@.len(),
                    used as nat,
                    to_read as nat,
                    read as nat,
                ),
                self.delimiter.has_count_for((input@.len() - used) as nat),
                self.delimiter.bytes_read == old(self).delimiter.bytes_read + used,
                old(self).well_formed(),
                strict_run(start, input@, 0, to_read as nat, 0) == strict_run(
                    self@,
                    input@,
                    used as nat,
                    to_read as nat,
                    read as nat,
                ),
            decreases reads_left((input@.len() - used) as nat, self@.output_room(), 1, false),
        {
            let ghost s = self@;
            let ghost step = record_read(
                s.reader,
                input@.skip(used as int),
                s.output_room(),
                s.ends_room(),
            );
            let (result, consumed) = self.read(input, used, self.offsets.len());
            proof {
                lemma_strict_read(
                    before,
                    s,
                    input@,
                    used as nat,
                    to_read as nat,
                    read as nat,
                    step,
                );
            }
            used = used + consumed;
            match self.advance_strict(result) {
                Err(error) => {
                    return Err(DecodeError::Csv(error));
                },
                Ok(Progress::Exhausted) => {
                    return Ok((read, used));
                },
                Ok(Progress::OutputFull) => {
                    self.reserve_data(to_read - read);
                },
                Ok(Progress::Row) => {
                    read = read + 1;
                    if read == to_read || used == input.len() {
                        return Ok((read, used));
                    }
                },
            }
        }
    }

    /// Decodes with `handler` told of every record and malformed records skipped.
    #[verifier::rlimit(80)]
    fn decode_with_record_error_handler<H: CsvRecordErrorHandler + ?Sized>(
        &mut self,
        input: &[u8],
        to_read: usize,
        handler: &H,
    ) -> (r: Result<(usize, usize), DecodeError>)
        requires
            old(self).well_formed(),
            to_read > 0 && old(self).offsets_len + to_read * old(self).num_columns <= usize::MAX
                ==> old(self).recovery_fits(input@.len(), to_read as nat),
        ensures
            final(self).well_formed(),
            exists|told: Seq<Notice>| #[trigger]
                recovering_decode(
                    handler,
                    old(self)@,
                    input@,
                    to_read as nat,
                    told,
                    final(self)@,
                    r,
                ),
            final(self).record_error_handler == old(self).record_error_handler,
            final(self).num_columns == old(self).num_columns,
            final(self).truncated_rows == old(self).truncated_rows,
            old(self)@.kept_offsets().is_prefix_of(final(self)@.offsets),
            old(self)@.kept_data().is_prefix_of(final(self)@.data),
            final(self).num_rows <= old(self).num_rows + to_read,
            final(self).delimiter.bytes_read <= old(self).delimiter.bytes_read + input@.len(),
            final(self).delimiter.record_len <= old(self).delimiter.record_len + input@.len(),
            final(self).data_len <= old(self).data_len + input@.len(),
            final(self).line_number <= old(self).line_number + input@.len() + 1,
            final(self).line_number - old(self).line_number >= final(self).num_rows - old(
                self,
            ).num_rows,
            final(self).offsets.len() <= greatest(
                greatest(
                    old(self).offsets@.len(),
                    old(self)@.offsets.len() + to_read as nat * old(self)@.num_columns,
                ),
                final(self)@.offsets_limit(),
            ),
            r matches Ok((rows, bytes)) ==> {
                &&& rows <= to_read
                &&& bytes <= input@.len()
                &&& rows < to_read ==> bytes == input@.len()
                &&& final(self).delimiter.bytes_read == old(self).delimiter.bytes_read + bytes
                &&& final(self).num_rows == old(self).num_rows + rows
                &&& to_read > 0 ==> final(self).offsets_len <= final(self).offsets.len()
                &&& old(self)@.laid_out() && old(self)@.synced() ==> final(self)@.laid_out()
                    && final(self)@.synced()
                &&& old(self)@.bytes_tracked() ==> final(self)@.bytes_tracked()
            },
            final(self).record_offsets_start <= old(self).offsets_len + to_read * old(
                self,
            ).num_columns,
            final(self).current_field + final(self).record_offsets_start <= old(self).current_field
                + final(self).offsets_len,
            old(self).offsets_len <= old(self)@.offsets_limit() ==> final(self).offsets_len
                <= final(self)@.offsets_limit(),
    {
        proof {
            if to_read == 0 {
                assert(recovering_decode(
                    handler,
                    self@,
                    input@,
                    0,
                    Seq::empty(),
                    self@,
                    Ok((0, 0)),
                ));
            }
        }
        if to_read == 0 {
            return Ok((0, 0));
        }
        let ghost before = self@;
        let required = match to_read.checked_mul(self.num_columns) {
            Some(additional) => self.offsets_len.checked_add(additional),
            None => None,
        };
        if required.is_none() {
            assert(recovering_decode(
                handler,
                self@,
                input@,
                to_read as nat,
                Seq::empty(),
                self@,
                Err(DecodeError::Csv(CsvError::OffsetCapacityOverflow)),
            ));
            return Err(DecodeError::Csv(CsvError::OffsetCapacityOverflow));
        }
        self.reserve_offsets(to_read);
        self.reserve_data(to_read);
        let ghost start = self@;
        let mut used: usize = 0;
        let mut read: usize = 0;
        let ghost mut at_end = false;
        let ghost mut said = Seq::<Notice>::empty();
        proof {
            reveal(leads_to);
            assert forall|
                told: Seq<Notice>,
                done: DecoderState,
                returned: Result<(usize, usize), DecodeError>,
            | #[trigger]
                recovering_run(
                    handler,
                    start,
                    input@,
                    0,
                    to_read as nat,
                    0,
                    false,
                    told,
                    done,
                    returned,
                ) implies recovering_run(
                handler,
                start,
                input@,
                0,
                to_read as nat,
                0,
                false,
                said + told,
                done,
                returned,
            ) by {
                assert(said + told =~= told);
            }
        }
        loop
            invariant
                self.well_formed(),
                self.record_error_handler == old(self).record_error_handler,
                before == old(self)@,
                start == before.reserve_offsets(to_read as nat).reserve_data(to_read as nat),
                to_read > 0,
                recovery_progress(
                    before,
                    self@,
                    input@.len(),
                    used as nat,
                    to_read as nat,
                    read as nat,
                    at_end,
                ),
                self.delimiter.has_count_for((input@.len() - used) as nat),
                self.delimiter.bytes_read == old(self).delimiter.bytes_read + used,
                old(self).well_formed(),
                leads_to(
                    handler,
                    start,
                    said,
                    self@,
                    input@,
                    used as nat,
                    to_read as nat,
                    read as nat,
                    at_end,
                ),
            decreases
                    reads_left(
                        (input@.len() - used) as nat,
                        self@.output_room(),
                        self@.limited_ends_room(),
                        at_end,
                    ),
        {
            let ghost s = self@;
            let limit = match self.offsets_limit() {
                Some(limit) => limit,
                None => {
                    proof {
                        lemma_leads_end(
                            handler,
                            start,
                            said,
                            s,
                            input@,
                            used as nat,
                            to_read as nat,
                            read as nat,
                            at_end,
                        );
                    }
                    assert(recovering_decode(
                        handler,
                        before,
                        input@,
                        to_read as nat,
                        said,
                        self@,
                        Err(DecodeError::Csv(CsvError::OffsetCapacityOverflow)),
                    ));
                    return Err(DecodeError::Csv(CsvError::OffsetCapacityOverflow));
                },
            };
            let size = self.offsets.len();
            let ends_end = if size < limit {
                size
            } else {
                limit
            };
            let ghost step = record_read(
                s.reader,
                input@.skip(used as int),
                s.output_room(),
                s.limited_ends_room(),
            );
            let (result, consumed) = self.read(input, used, ends_end);
            let ghost used_before = used as nat;
            proof {
                lemma_recovering_read(
                    before,
                    s,
                    input@,
                    used_before,
                    to_read as nat,
                    read as nat,
                    at_end,
                    step,
                );
            }
            let record = vstd::slice::slice_subrange(input, used, used + consumed);
            assert(record@ =~= input@.skip(used as int).take(consumed as int));
            used = used + consumed;
            match self.advance_recovering(result, record) {
                Err(error) => {
                    proof {
                        lemma_leads_end(
                            handler,
                            start,
                            said,
                            s,
                            input@,
                            used_before,
                            to_read as nat,
                            read as nat,
                            at_end,
                        );
                    }
                    assert(recovering_decode(
                        handler,
                        before,
                        input@,
                        to_read as nat,
                        said,
                        self@,
                        Err(DecodeError::Csv(error)),
                    ));
                    return Err(DecodeError::Csv(error));
                },
                Ok(Reading::Exhausted) => {
                    proof {
                        lemma_leads_end(
                            handler,
                            start,
                            said,
                            s,
                            input@,
                            used_before,
                            to_read as nat,
                            read as nat,
                            at_end,
                        );
                    }
                    assert(recovering_decode(
                        handler,
                        before,
                        input@,
                        to_read as nat,
                        said,
                        self@,
                        Ok((read, used)),
                    ));
                    return Ok((read, used));
                },
                Ok(Reading::OutputFull) => {
                    self.reserve_data(to_read - read);
                    proof {
                        lemma_leads_on(
                            handler,
                            start,
                            said,
                            s,
                            input@,
                            used_before,
                            to_read as nat,
                            read as nat,
                            at_end,
                        );
                    }
                },
                Ok(Reading::OffsetsGrown) => {
                    proof {
                        lemma_leads_on(
                            handler,
                            start,
                            said,
                            s,
                            input@,
                            used_before,
                            to_read as nat,
                            read as nat,
                            at_end,
                        );
                    }
                },
                Ok(Reading::Record) => {
                    let reply = self.notify(handler);
                    let ghost notice = self@.notice();
                    proof {
                        lemma_recovering_record(
                            before,
                            s,
                            input@,
                            used_before,
                            to_read as nat,
                            read as nat,
                            at_end,
                            step,
                        );
                        lemma_leads_past_record(
                            handler,
                            start,
                            said,
                            s,
                            input@,
                            used_before,
                            to_read as nat,
                            read as nat,
                            at_end,
                            reply,
                        );
                        said = said.push(notice);
                    }
                    match self.settle(reply) {
                        Err(error) => {
                            assert(recovering_decode(
                                handler,
                                before,
                                input@,
                                to_read as nat,
                                said,
                                self@,
                                Err(error),
                            ));
                            return Err(error);
                        },
                        Ok(buffered) => {
                            proof {
                                at_end = at_end || consumed == 0;
                            }
                            if buffered {
                                read = read + 1;
                                if read == to_read || used == input.len() {
                                    assert(recovering_decode(
                                        handler,
                                        before,
                                        input@,
                                        to_read as nat,
                                        said,
                                        self@,
                                        Ok((read, used)),
                                    ));
                                    return Ok((read, used));
                                }
                            }
                        },
                    }
                },
            }
        }
    }

    /// Sizes the buffer of field ends for `rows` more records.
    fn reserve_offsets(&mut self, rows: usize)
        requires
            old(self).well_formed(),
            old(self).offsets_len + rows * old(self).num_columns <= usize::MAX,
        ensures
            final(self).well_formed(),
            final(self)@ == old(self)@.reserve_offsets(rows as nat),
            *final(self) == (RecordDecoder { offsets: final(self).offsets, ..*old(self) }),
    {
        self.offsets.resize(self.offsets_len + rows * self.num_columns, 0);
        assert(self@.offsets =~= old(self)@.offsets);
        assert(self@ =~= old(self)@.reserve_offsets(rows as nat));
    }

    /// Sizes the buffer of field data for `rows` more records.
    fn reserve_data(&mut self, rows: usize)
        requires
            old(self).well_formed(),
            old(self).data_len + data_estimate(rows as nat, old(self).num_columns as nat)
                <= usize::MAX,
        ensures
            final(self).well_formed(),
            final(self)@ == old(self)@.reserve_data(rows as nat),
            *final(self) == (RecordDecoder { data: final(self).data, ..*old(self) }),
    {
        assert(rows * self.num_columns <= rows * self.num_columns * AVERAGE_FIELD_SIZE);
        let capacity: usize = rows * self.num_columns * AVERAGE_FIELD_SIZE;
        let estimate: usize = if capacity < MIN_CAPACITY {
            MIN_CAPACITY
        } else {
            capacity
        };
        self.data.resize(self.data_len + estimate, 0);
        assert(self@.data =~= old(self)@.data);
        assert(self@ =~= old(self)@.reserve_data(rows as nat));
    }

    /// Reads at most one record from `input[used..]`, with room for field ends up to `ends_end`,
    /// and takes in what was read of it.
    fn read(&mut self, input: &[u8], used: usize, ends_end: usize) -> (r: (ReadResult, usize))
        requires
            old(self).well_formed(),
            used <= input@.len(),
            old(self).offsets_len <= ends_end <= old(self).offsets.len(),
            old(self).current_field + (ends_end - old(self).offsets_len) <= usize::MAX,
            old(self).delimiter.has_count_for((input@.len() - used) as nat),
        ensures
            final(self).well_formed(),
            final(self).offsets_len <= final(self).offsets.len(),
            ({
                let s = old(self)@;
                let rest = input@.skip(used as int);
                let ends_room = (ends_end - old(self).offsets_len) as nat;
                let step = record_read(s.reader, rest, s.output_room(), ends_room);
                &&& read_is_sound(s.reader, rest, s.output_room(), ends_room, step)
                &&& final(self)@ == s.after_read(step)
                &&& r.0 == step.result
                &&& r.1 == step.consumed
            }),
            final(self).delimiter.has_count_for((input@.len() - used - r.1) as nat),
            final(self).delimiter.bytes_read == old(self).delimiter.bytes_read + r.1,
            final(self).record_error_handler == old(self).record_error_handler,
    {
        let ghost s = self@;
        let ghost step = record_read(
            s.reader,
            input@.skip(used as int),
            s.output_room(),
            (ends_end - self.offsets_len) as nat,
        );
        let (result, consumed, written, ended) = self.delimiter.read_record(
            input,
            used,
            &mut self.data,
            self.data_len,
            &mut self.offsets,
            self.offsets_len,
            ends_end,
        );
        self.current_field = self.current_field + ended;
        self.offsets_len = self.offsets_len + ended;
        self.data_len = self.data_len + written;
        assert(self@.data =~= s.after_read(step).data);
        assert(self@.offsets =~= s.after_read(step).offsets);
        assert(self@ =~= s.after_read(step));
        (result, consumed)
    }

    /// Goes on after a read that stopped for the reason `result`, and takes a malformed record for
    /// an error.
    pub fn advance_strict(&mut self, result: ReadResult) -> (r: Result<Progress, CsvError>)
        requires
            old(self).well_formed(),
            result == ReadResult::Record && old(self)@.row_fits() ==> {
                &&& old(self).line_number < usize::MAX
                &&& old(self).num_rows < usize::MAX
                &&& old(self).offsets_len <= old(self).offsets.len()
                &&& old(self).offsets_len + old(self)@.missing_fields() <= old(self).offsets.len()
            },
        ensures
            final(self).well_formed(),
            (final(self)@, r) == old(self)@.strict_verdict(result),
            final(self).num_columns == old(self).num_columns,
            final(self).truncated_rows == old(self).truncated_rows,
            result == ReadResult::InputEmpty || result == ReadResult::End ==> r == Ok::<_, CsvError>(
                Progress::Exhausted,
            ),
            result == ReadResult::OutputFull ==> r == Ok::<_, CsvError>(Progress::OutputFull),
            result == ReadResult::OutputEndsFull ==> r == Err::<Progress, _>(
                CsvError::TooManyFields {
                    line: old(self).line_number,
                    expected: old(self).num_columns,
                    more_than: old(self).current_field,
                },
            ),
            result == ReadResult::Record && (old(self).current_field == old(self).num_columns
                || old(self).truncated_rows && old(self).current_field < old(self).num_columns) ==> {
                &&& r == Ok::<_, CsvError>(Progress::Row)
                &&& final(self).num_rows == old(self).num_rows + 1
                &&& final(self).line_number == old(self).line_number + 1
                &&& final(self).current_field == 0
                &&& final(self).data@ == old(self).data@
                &&& final(self).data_len == old(self).data_len
                &&& final(self).offsets_len == old(self).offsets_len - old(self).current_field
                    + old(self).num_columns
                &&& forall|k: int|
                    0 <= k < old(self).offsets_len ==> #[trigger] final(self).offsets@[k] == old(
                        self,
                    ).offsets@[k]
                &&& forall|k: int|
                    old(self).offsets_len <= k < final(self).offsets_len
                        ==> #[trigger] final(self).offsets@[k] == old(self).offsets@[old(
                        self,
                    ).offsets_len - 1]
            },
            result == ReadResult::Record && old(self).current_field != old(self).num_columns && !(
            old(self).truncated_rows && old(self).current_field < old(self).num_columns) ==> r
                == Err::<Progress, _>(
                CsvError::IncorrectFieldCount {
                    line: old(self).line_number,
                    expected: old(self).num_columns,
                    got: old(self).current_field,
                },
            ),
            r is Err || r != Ok::<_, CsvError>(Progress::Row) ==> *final(self) == *old(self),
            final(self).delimiter == old(self).delimiter,
            final(self).record_error_handler == old(self).record_error_handler,
    {
        match result {
            ReadResult::InputEmpty | ReadResult::End => Ok(Progress::Exhausted),
            ReadResult::OutputFull => Ok(Progress::OutputFull),
            ReadResult::OutputEndsFull => Err(
                CsvError::TooManyFields {
                    line: self.line_number,
                    expected: self.num_columns,
                    more_than: self.current_field,
                },
            ),
            ReadResult::Record => {
                if self.current_field != self.num_columns && !(self.truncated_rows
                    && self.current_field < self.num_columns) {
                    return Err(
                        CsvError::IncorrectFieldCount {
                            line: self.line_number,
                            expected: self.num_columns,
                            got: self.current_field,
                        },
                    );
                }
                self.complete_row();
                Ok(Progress::Row)
            },
        }
    }

    /// How many field offsets there may be before the record being read is given up.
    fn offsets_limit(&self) -> (limit: Option<usize>)
        ensures
            match limit {
                Some(limit) => limit == self@.offsets_limit(),
                None => self@.offsets_limit() > usize::MAX,
            },
    {
        match self.record_offsets_start.checked_add(self.num_columns) {
            Some(expected) => expected.checked_add(MAX_RECOVERABLE_EXCESS_FIELDS),
            None => None,
        }
    }

    /// Goes on after a read of the bytes `consumed` that stopped for the reason `result`. What
    /// becomes of a record is left to [`RecordDecoder::settle`].
    pub fn advance_recovering(&mut self, result: ReadResult, consumed: &[u8]) -> (r: Result<
        Reading,
        CsvError,
    >)
        requires
            old(self).well_formed(),
            old(self).offsets_len <= old(self).offsets.len(),
            old(self)@.offsets_limit() <= usize::MAX,
        ensures
            final(self).well_formed(),
            final(self).offsets_len <= final(self).offsets.len(),
            (final(self)@, r) == old(self)@.recovering_verdict(consumed@, result),
            *final(self) == (RecordDecoder {
                offsets: final(self).offsets,
                stream_offset: final(self).stream_offset,
                record_bytes: final(self).record_bytes,
                ..*old(self)
            }),
            old(self).stream_offset + consumed@.len() <= usize::MAX ==> match result {
                ReadResult::InputEmpty | ReadResult::End => r == Ok::<_, CsvError>(
                    Reading::Exhausted,
                ),
                ReadResult::OutputFull => r == Ok::<_, CsvError>(Reading::OutputFull),
                ReadResult::Record => r == Ok::<_, CsvError>(Reading::Record),
                ReadResult::OutputEndsFull => r is Err || r == Ok::<_, CsvError>(
                    Reading::OffsetsGrown,
                ),
            },
            r is Ok ==> {
                &&& final(self).stream_offset == old(self).stream_offset + consumed@.len()
                &&& final(self).record_bytes@ == old(self).record_bytes@ + consumed@
            },
            r == Err::<Reading, _>(CsvError::ByteOffsetOverflow) <==> old(self).stream_offset
                + consumed@.len() > usize::MAX,
            r matches Err(CsvError::RecoveryLimit { line }) ==> {
                &&& line == old(self).line_number
                &&& old(self).offsets_len >= old(self).record_offsets_start + old(
                    self,
                ).num_columns + 16384
            },
            r == Ok::<_, CsvError>(Reading::OffsetsGrown) ==> old(self).offsets_len < old(
                self,
            ).record_offsets_start + old(self).num_columns + 16384,
            final(self).delimiter == old(self).delimiter,
            final(self).record_error_handler == old(self).record_error_handler,
    {
        let ghost absorbed = self@;
        match self.stream_offset.checked_add(consumed.len()) {
            Some(offset) => {
                self.stream_offset = offset;
            },
            None => {
                return Err(CsvError::ByteOffsetOverflow);
            },
        }
        self.record_bytes.extend_from_slice(consumed);
        assert(self.record_bytes@ =~= absorbed.track(consumed@).record_bytes);
        assert(self@ =~= absorbed.track(consumed@));
        match result {
            ReadResult::InputEmpty | ReadResult::End => Ok(Reading::Exhausted),
            ReadResult::OutputFull => Ok(Reading::OutputFull),
            ReadResult::OutputEndsFull => {
                let limit = match self.offsets_limit() {
                    Some(limit) => limit,
                    None => {
                        return Err(CsvError::OffsetCapacityOverflow);
                    },
                };
                if self.offsets_len >= limit {
                    return Err(recovery_limit_error(self.line_number));
                }
                let more: usize = if self.num_columns < 1 {
                    1
                } else {
                    self.num_columns
                };
                match self.offsets_len.checked_add(more) {
                    Some(enough) => {
                        let size = if enough < limit {
                            enough
                        } else {
                            limit
                        };
                        let ghost before = self@;
                        self.offsets.resize(size, 0);
                        assert(self@.offsets =~= before.offsets);
                        assert(self@ =~= before.grow_offsets());
                        Ok(Reading::OffsetsGrown)
                    },
                    None => Err(CsvError::OffsetCapacityOverflow),
                }
            },
            ReadResult::Record => Ok(Reading::Record),
        }
    }

    /// Tells `handler` of the record just read.
    fn notify<H: CsvRecordErrorHandler + ?Sized>(&self, handler: &H) -> (reply: Result<
        (),
        ArrowError,
    >)
        ensures
            handler.answers(self@.notice(), reply),
            self.current_field == self.num_columns || self.truncated_rows && self.current_field
                < self.num_columns ==> handler.answers(
                (Notice::Record {
                    line_number: self.line_number as nat,
                    byte_offset: self.record_byte_offset as nat,
                    record: self.record_bytes@,
                }),
                reply,
            ),
            self.current_field != self.num_columns && !(self.truncated_rows && self.current_field
                < self.num_columns) ==> handler.answers(
                (Notice::Malformed {
                    line_number: self.line_number as nat,
                    byte_offset: self.record_byte_offset as nat,
                    expected_fields: self.num_columns as nat,
                    actual_fields: self.current_field as nat,
                    record: self.record_bytes@,
                }),
                reply,
            ),
    {
        if self.current_field != self.num_columns && !(self.truncated_rows && self.current_field
            < self.num_columns) {
            handler.handle(
                &CsvRecordError {
                    line_number: self.line_number,
                    byte_offset: self.record_byte_offset,
                    expected_fields: self.num_columns,
                    actual_fields: self.current_field,
                    record: self.record_bytes.as_slice(),
                },
            )
        } else {
            handler.handle_record(
                &CsvRecord {
                    line_number: self.line_number,
                    byte_offset: self.record_byte_offset,
                    record: self.record_bytes.as_slice(),
                },
            )
        }
    }

    /// Buffers the record just read, or drops it if it is malformed, where the handler's reply
    /// allows it. Tells whether the record was buffered.
    pub fn settle(&mut self, reply: Result<(), ArrowError>) -> (r: Result<bool, DecodeError>)
        requires
            old(self).well_formed(),
            old(self).offsets_len <= old(self).offsets.len(),
            reply is Ok ==> {
                &&& old(self).line_number < usize::MAX
                &&& old(self)@.row_fits() ==> old(self).num_rows < usize::MAX
                &&& old(self)@.row_fits() ==> old(self).offsets_len + old(self)@.missing_fields()
                    <= old(self).offsets.len()
            },
        ensures
            final(self).well_formed(),
            final(self).offsets_len <= final(self).offsets.len(),
            match reply {
                Ok(()) => final(self)@ == old(self)@.settle_record() && r == Ok::<_, DecodeError>(
                    old(self)@.row_fits(),
                ),
                Err(error) => *final(self) == *old(self) && r == Err::<bool, _>(
                    DecodeError::Handler(error),
                ),
            },
            reply is Ok ==> {
                &&& r == Ok::<_, DecodeError>(
                    old(self).current_field == old(self).num_columns || old(self).truncated_rows
                        && old(self).current_field < old(self).num_columns,
                )
                &&& final(self).line_number == old(self).line_number + 1
                &&& final(self).current_field == 0
                &&& final(self).record_bytes@.len() == 0
                &&& final(self).record_byte_offset == old(self).stream_offset
                &&& final(self).stream_offset == old(self).stream_offset
                &&& final(self).data@ == old(self).data@
            },
            r == Ok::<_, DecodeError>(true) ==> {
                &&& final(self).num_rows == old(self).num_rows + 1
                &&& final(self).data_len == old(self).data_len
                &&& final(self).offsets_len == old(self).offsets_len - old(self).current_field
                    + old(self).num_columns
                &&& final(self).record_data_start == final(self).data_len
                &&& final(self).record_offsets_start == final(self).offsets_len
                &&& forall|k: int|
                    0 <= k < old(self).offsets_len ==> #[trigger] final(self).offsets@[k] == old(
                        self,
                    ).offsets@[k]
                &&& forall|k: int|
                    old(self).offsets_len <= k < final(self).offsets_len
                        ==> #[trigger] final(self).offsets@[k] == old(self).offsets@[old(
                        self,
                    ).offsets_len - 1]
            },
            r == Ok::<_, DecodeError>(false) ==> {
                &&& final(self).num_rows == old(self).num_rows
                &&& final(self).data_len == old(self).record_data_start
                &&& final(self).offsets_len == old(self).record_offsets_start
                &&& final(self).offsets@ == old(self).offsets@
            },
            final(self).delimiter == old(self).delimiter,
            final(self).record_error_handler == old(self).record_error_handler,
    {
        match reply {
            Err(error) => {
                return Err(DecodeError::Handler(error));
            },
            Ok(()) => {},
        }
        if self.current_field != self.num_columns && !(self.truncated_rows && self.current_field
            < self.num_columns) {
            self.data_len = self.record_data_start;
            self.offsets_len = self.record_offsets_start;
            self.current_field = 0;
            self.line_number = self.line_number + 1;
            self.record_bytes.clear();
            self.record_byte_offset = self.stream_offset;
            assert(self@.data =~= old(self)@.skip_record().data);
            assert(self@.offsets =~= old(self)@.skip_record().offsets);
            assert(self@ =~= old(self)@.skip_record());
            return Ok(false);
        }
        self.complete_row();
        let ghost completed = self@;
        self.record_bytes.clear();
        self.record_byte_offset = self.stream_offset;
        self.record_data_start = self.data_len;
        self.record_offsets_start = self.offsets_len;
        assert(self@ =~= completed.begin_record());
        Ok(true)
    }

    /// Buffers the record just read.
    fn complete_row(&mut self)
        requires
            old(self).well_formed(),
            old(self).line_number < usize::MAX,
            old(self).num_rows < usize::MAX,
            old(self).offsets_len <= old(self).offsets.len(),
            old(self).offsets_len + old(self)@.missing_fields() <= old(self).offsets.len(),
        ensures
            final(self).well_formed(),
            final(self).offsets_len <= final(self).offsets.len(),
            final(self)@ == old(self)@.complete_row(),
            *final(self) == (RecordDecoder {
                offsets: final(self).offsets,
                offsets_len: final(self).offsets_len,
                current_field: 0,
                line_number: (old(self).line_number + 1) as usize,
                num_rows: (old(self).num_rows + 1) as usize,
                ..*old(self)
            }),
            old(self).current_field <= old(self).num_columns ==> final(self).offsets_len
                == old(self).offsets_len - old(self).current_field + old(self).num_columns,
            final(self).offsets@.len() == old(self).offsets@.len(),
            forall|k: int|
                0 <= k < old(self).offsets_len ==> #[trigger] final(self).offsets@[k] == old(
                    self,
                ).offsets@[k],
            forall|k: int|
                old(self).offsets_len <= k < final(self).offsets_len
                    ==> #[trigger] final(self).offsets@[k] == old(self).offsets@[old(
                    self,
                ).offsets_len - 1],
            final(self).delimiter == old(self).delimiter,
            final(self).record_error_handler == old(self).record_error_handler,
    {
        if self.current_field < self.num_columns {
            let end = self.offsets_len + (self.num_columns - self.current_field);
            let fill_value = self.offsets[self.offsets_len - 1];
            let mut i = self.offsets_len;
            while i < end
                invariant
                    self.offsets_len <= i <= end <= self.offsets.len(),
                    self.offsets.len() == old(self).offsets.len(),
                    *self == (RecordDecoder { offsets: self.offsets, ..*old(self) }),
                    forall|k: int|
                        0 <= k < self.offsets_len ==> self.offsets@[k] == old(self).offsets@[k],
                    forall|k: int| self.offsets_len <= k < i ==> self.offsets@[k] == fill_value,
                decreases end - i,
            {
                self.offsets.set(i, fill_value);
                i = i + 1;
            }
            self.offsets_len = end;
        }
        assert(self@.offsets =~= old(self)@.complete_row().offsets);
        self.current_field = 0;
        self.line_number = self.line_number + 1;
        self.num_rows = self.num_rows + 1;
        assert(self@ =~= old(self)@.complete_row());
    }

    /// The number of buffered records.
    pub fn len(&self) -> (count: usize)
        ensures
            count == self@.num_rows,
            count == self.num_rows,
    {
        self.num_rows
    }

    /// Whether no record is buffered.
    pub fn is_empty(&self) -> (empty: bool)
        ensures
            empty == (self@.num_rows == 0),
            empty == (self.num_rows == 0),
    {
        self.num_rows == 0
    }

    /// Drops the buffered records.
    pub fn clear(&mut self)
        requires
            old(self).well_formed(),
        ensures
            final(self).well_formed(),
            final(self)@ == old(self)@.cleared(),
            *final(self) == (RecordDecoder {
                offsets_len: 1,
                data_len: 0,
                num_rows: 0,
                record_data_start: 0,
                record_offsets_start: 1,
                ..*old(self)
            }),
            final(self).delimiter == old(self).delimiter,
            final(self).record_error_handler == old(self).record_error_handler,
            old(self)@.numbered() ==> final(self)@.numbered(),
            old(self)@.current_field == 0 && old(self)@.reader.pending == 0
                ==> final(self)@.laid_out() && final(self)@.synced(),
    {
        self.offsets_len = 1;
        self.data_len = 0;
        self.num_rows = 0;
        self.record_data_start = 0;
        self.record_offsets_start = 1;
        assert(self@.offsets =~= old(self)@.offsets.take(1));
        assert(self@.data =~= Seq::empty());
        assert(self@ =~= old(self)@.cleared());
        assert(0 * self@.num_columns == 0) by (nonlinear_arith);
    }

    /// Counts the field ends of the buffered records from the start of the data. Stops at the first
    /// that does not fit its type.
    fn rebase(&mut self) -> (fits: bool)
        requires
            old(self).well_formed(),
            old(self).offsets_len <= old(self).offsets.len(),
            old(self).num_columns > 0,
        ensures
            final(self).well_formed(),
            *final(self) == (RecordDecoder { offsets: final(self).offsets, ..*old(self) }),
            final(self).offsets.len() == old(self).offsets.len(),
            fits == old(self)@.rebase_fits(),
            fits ==> final(self)@ == old(self)@.rebased(old(self)@.rebase_count()),
            !fits ==> exists|i: int| #[trigger]
                old(self)@.overflows_first_at(i) && final(self)@ == old(self)@.rebased(
                    (i - 1) as nat,
                ),
    {
        let ghost s = self@;
        let ghost nc = self.num_columns as nat;
        let rows = (self.offsets_len - 1) / self.num_columns;
        let mut row: usize = 0;
        let mut row_offset: usize = 0;
        let mut i: usize = 1;
        assert(s.offsets =~= s.rebased(0).offsets);
        assert(rows * nc <= self.offsets_len - 1) by {
            vstd::arithmetic::div_mod::lemma_fundamental_div_mod(
                self.offsets_len - 1,
                nc as int,
            );
            assert(nc * rows == rows * nc) by (nonlinear_arith);
        }
        while row < rows
            invariant
                row <= rows,
                rows == whole_rows(s.offsets, nc),
                rows * nc <= self.offsets_len - 1,
                s == old(self)@,
                nc == s.num_columns == self.num_columns,
                nc > 0,
                i == 1 + row * nc,
                row_offset == row_base(s.offsets, nc, row as nat),
                rebase_fits(s.offsets, nc, row as nat * nc),
                *self == (RecordDecoder { offsets: self.offsets, ..*old(self) }),
                self.offsets.len() == old(self).offsets.len(),
                self.offsets_len <= self.offsets.len(),
                old(self).well_formed(),
                self@ == s.rebased(row as nat * nc),
            decreases rows - row,
        {
            let offset = row_offset;
            let mut column: usize = 0;
            while column < self.num_columns
                invariant
                    row < rows,
                    rows == whole_rows(s.offsets, nc),
                    rows * nc <= self.offsets_len - 1,
                    column <= nc,
                    s == old(self)@,
                    nc == s.num_columns == self.num_columns,
                    i == 1 + row * nc + column,
                    offset == row_base(s.offsets, nc, row as nat),
                    row_offset == if column == 0 {
                        offset as int
                    } else {
                        offset + s.offsets[i - 1]
                    },
                    rebase_fits(s.offsets, nc, (i - 1) as nat),
                    *self == (RecordDecoder { offsets: self.offsets, ..*old(self) }),
                    self.offsets.len() == old(self).offsets.len(),
                    self.offsets_len <= self.offsets.len(),
                    old(self).well_formed(),
                    self@ == s.rebased((i - 1) as nat),
                decreases nc - column,
            {
                proof {
                    assert(row * nc + nc <= rows * nc) by (nonlinear_arith)
                        requires
                            row + 1 <= rows,
                    ;
                    lemma_row_at(row as nat, column as nat, nc);
                    assert(self@.offsets[i as int] == s.offsets[i as int]);
                    assert(rebased_end(s.offsets, nc, i as int) == s.offsets[i as int] + offset);
                }
                match self.offsets[i].checked_add(offset) {
                    Some(end) => {
                        let ghost before = self@.offsets;
                        self.offsets.set(i, end);
                        row_offset = end;
                        assert(self@.offsets =~= before.update(i as int, end));
                        assert(self@.offsets =~= s.rebased(i as nat).offsets);
                        assert(self@ =~= s.rebased(i as nat));
                    },
                    None => {
                        assert(s.overflows_first_at(i as int));
                        return false;
                    },
                }
                i = i + 1;
                column = column + 1;
            }
            row = row + 1;
            assert(row * nc == (row - 1) * nc + nc) by (nonlinear_arith);
        }
        true
    }

    /// The error for the field that starts at the entry `index` of the offsets.
    fn utf8_error(&self, index: usize) -> (error: CsvError)
        requires
            self.num_columns > 0,
            index < self.offsets_len,
            self.num_rows <= self.line_number,
            self.line_number - self.num_rows + whole_rows(self@.offsets, self.num_columns as nat)
                <= usize::MAX,
        ensures
            error == self@.utf8_error(index as int),
    {
        proof {
            lemma_row_in_range(index as int, self.num_columns as nat, self@.offsets.len());
        }
        let field = index % self.num_columns + 1;
        let line = self.line_number - self.num_rows + index / self.num_columns;
        CsvError::InvalidUtf8 { line, field }
    }

    /// Gives out the buffered records, and leaves none.
    ///
    /// The data given out is UTF-8, and no field end in it lies inside a character. Otherwise an
    /// error names a field that is not UTF-8.
    pub fn flush(&mut self) -> (r: Result<StringRecords<'_>, CsvError>)
        requires
            old(self).well_formed(),
            old(self).current_field == 0 ==> {
                &&& old(self).num_columns > 0
                &&& old(self).offsets_len <= old(self).offsets.len()
                &&& old(self)@.rebase_fits() && !(valid_utf8(old(self)@.data) && cut_between_chars(
                    old(self)@.data,
                    old(self)@.rebased(old(self)@.rebase_count()).offsets,
                )) ==> old(self)@.lines_fit()
            },
        ensures
            final(self).well_formed(),
            final(self).delimiter == old(self).delimiter,
            final(self).record_error_handler == old(self).record_error_handler,
            ({
                let s = old(self)@;
                let given = s.rebased(s.rebase_count());
                if s.current_field != 0 {
                    &&& r matches Err(error)
                    &&& error == CsvError::PartialRecord
                    &&& final(self)@ == s
                } else if !s.rebase_fits() {
                    &&& r matches Err(error)
                    &&& error == CsvError::RecordOffsetOverflow
                    &&& exists|i: int| #[trigger] s.overflows_first_at(i) && final(self)@
                        == s.rebased((i - 1) as nat)
                } else if !valid_utf8(s.data) {
                    &&& r matches Err(error)
                    &&& exists|n: int, index: int| #[trigger]
                        is_valid_up_to(s.data, n) && #[trigger] is_last_at_most(
                            given.offsets,
                            n,
                            index,
                        ) && error == s.utf8_error(index)
                    &&& final(self)@ == given
                } else if !cut_between_chars(s.data, given.offsets) {
                    &&& r matches Err(error)
                    &&& exists|i: int| #[trigger]
                        cuts_char_first_at(s.data, given.offsets, i) && error == s.utf8_error(
                            i - 1,
                        )
                    &&& final(self)@ == given
                } else {
                    &&& r matches Ok(records)
                    &&& records.num_columns == s.num_columns
                    &&& records.num_rows == s.num_rows
                    &&& records.offsets@ == given.offsets
                    &&& records.data.spec_bytes() == s.data
                    &&& final(self)@ == given.cleared()
                }
            }),
            r matches Ok(records) ==> forall|i: int|
                0 <= i < records.offsets@.len() && #[trigger] records.offsets@[i]
                    <= records.data.spec_bytes().len() ==> is_char_boundary(
                    records.data.spec_bytes(),
                    records.offsets@[i] as int,
                ),
            old(self)@.laid_out() ==> {
                &&& r matches Err(error) ==> error != CsvError::RecordOffsetOverflow
                &&& r matches Ok(records) ==> {
                    &&& records.well_formed()
                    &&& forall|row: nat, column: nat|
                        row < records.num_rows && column < records.num_columns
                            ==> #[trigger] records.field(row, column) == old(self)@.field(
                            row,
                            column,
                        )
                    &&& forall|row: nat, column: nat|
                        row < old(self).num_rows && column < old(self).num_columns ==> {
                            let i = row * old(self).num_columns + column;
                            #[trigger] old(self)@.field(row, column)
                                == records.data.spec_bytes().subrange(
                                records.offsets@[i] as int,
                                records.offsets@[i + 1] as int,
                            )
                        }
                }
            },
            r matches Ok(records) ==> {
                &&& records.num_columns == old(self).num_columns
                &&& records.num_rows == old(self).num_rows
                &&& records.offsets@.len() == old(self).offsets_len
                &&& records.data.spec_bytes() == old(self).data@.take(old(self).data_len as int)
                &&& *final(self) == (RecordDecoder {
                    offsets: final(self).offsets,
                    offsets_len: 1,
                    data_len: 0,
                    num_rows: 0,
                    record_data_start: 0,
                    record_offsets_start: 1,
                    ..*old(self)
                })
            },
            r is Err ==> *final(self) == (RecordDecoder {
                offsets: final(self).offsets,
                ..*old(self)
            }),
            r is Ok && old(self)@.reader.pending == 0 ==> {
                &&& final(self)@.laid_out()
                &&& final(self)@.synced()
            },
            old(self)@.numbered() ==> final(self)@.numbered(),
    {
        if self.current_field != 0 {
            return Err(CsvError::PartialRecord);
        }
        let ghost s = self@;
        proof {
            assert(0 * s.num_columns == 0) by (nonlinear_arith);
            if s.laid_out() {
                lemma_rebased_in_order(s);
                assert forall|row: nat, column: nat|
                    row < s.num_rows && column < s.num_columns implies ({
                    let ends = s.rebased(s.rebase_count()).offsets;
                    let i = (row * s.num_columns + column) as int;
                    #[trigger] s.field(row, column) == s.data.subrange(
                        ends[i] as int,
                        ends[i + 1] as int,
                    )
                }) by {
                    lemma_field_given_back(s, row, column);
                }
            }
        }
        if !self.rebase() {
            return Err(CsvError::RecordOffsetOverflow);
        }
        let ghost given = self@;
        let bytes = vstd::slice::slice_subrange(self.data.as_slice(), 0, self.data_len);
        let offsets = vstd::slice::slice_subrange(self.offsets.as_slice(), 0, self.offsets_len);
        assert(bytes@ =~= s.data);
        assert(offsets@ =~= given.offsets);
        match utf8_text(bytes) {
            Err(valid_up_to) => {
                let index = last_at_most(offsets, valid_up_to);
                Err(self.utf8_error(index))
            },
            Ok(data) => {
                if let Some(cut) = first_cut(data, offsets) {
                    proof {
                        is_char_boundary_start_end_of_seq(s.data);
                    }
                    return Err(self.utf8_error(cut - 1));
                }
                let num_rows = self.num_rows;
                self.offsets_len = 1;
                self.data_len = 0;
                self.num_rows = 0;
                self.record_data_start = 0;
                self.record_offsets_start = 1;
                Ok(StringRecords { num_columns: self.num_columns, num_rows, offsets, data })
            },
        }
    }
}

/// What a decoder holds is what stands in its fields, and in its buffers as far as they are in use.
pub proof fn lemma_view_of_fields(decoder: RecordDecoder)
    requires
        decoder.well_formed(),
    ensures
        decoder@.reader == reader_state(decoder.delimiter.inner),
        decoder@.num_columns == decoder.num_columns,
        decoder@.truncated_rows == decoder.truncated_rows,
        decoder@.line_number == decoder.line_number,
        decoder@.offsets.len() == decoder.offsets_len,
        forall|i: int|
            0 <= i < decoder.offsets_len && i < decoder.offsets@.len()
                ==> #[trigger] decoder@.offsets[i] == decoder.offsets@[i],
        decoder@.offsets[0] == 0,
        decoder@.offsets_size == decoder.offsets@.len(),
        decoder@.current_field == decoder.current_field,
        decoder@.num_rows == decoder.num_rows,
        decoder@.data == decoder.data@.take(decoder.data_len as int),
        decoder@.data_size == decoder.data@.len(),
        decoder@.record_bytes == decoder.record_bytes@,
        decoder@.stream_offset == decoder.stream_offset,
        decoder@.record_byte_offset == decoder.record_byte_offset,
        decoder@.record_data_start == decoder.record_data_start,
        decoder@.record_offsets_start == decoder.record_offsets_start,
{
}

/// The last index whose entry is no greater than `bound`.
fn last_at_most(entries: &[usize], bound: usize) -> (index: usize)
    requires
        entries@.len() > 0,
        entries@[0] == 0,
    ensures
        is_last_at_most(entries@, bound as int, index as int),
{
    let mut index = entries.len() - 1;
    while entries[index] > bound
        invariant
            index < entries@.len(),
            entries@[0] == 0,
            forall|i: int| index < i < entries@.len() ==> #[trigger] entries@[i] > bound,
        decreases index,
    {
        index = index - 1;
    }
    index
}

/// The row and the column of a field are in range.
proof fn lemma_row_in_range(index: int, num_columns: nat, len: nat)
    requires
        0 <= index < len,
        num_columns > 0,
    ensures
        0 <= index / num_columns as int <= (len - 1) / num_columns as int,
        0 <= index % num_columns as int <= index,
        (index % num_columns as int) < num_columns,
{
    vstd::arithmetic::div_mod::lemma_div_is_ordered(index, len - 1, num_columns as int);
    vstd::arithmetic::div_mod::lemma_div_pos_is_pos(index, num_columns as int);
    vstd::arithmetic::div_mod::lemma_mod_decreases(index as nat, num_columns);
    vstd::arithmetic::div_mod::lemma_mod_bound(index, num_columns as int);
}

} // verus!
