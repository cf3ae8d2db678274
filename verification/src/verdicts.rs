//! Which data decoding accepts and which error it gives for other data, said of the numbers of
//! fields that the reader splits records into.

use crate::cuts::{ends_once, records_of};
use crate::delivery::lemma_taken_by_field_count;
use crate::error::{CsvError, DecodeError};
use crate::handler::{CsvRecordErrorHandler, Notice};
use crate::malformed::{lemma_valid_stream_decodes, reads_on};
use crate::model::{
    reads_left, recovering_decode, recovering_run, strict_decode, strict_run, DecoderState,
    Progress, Reading,
};
use crate::outcomes::{lemma_short_records_skip, lemma_valid_records_decode};
use crate::pieces::{
    can_run, lemma_can_go_on, lemma_less_room, lemma_more_room, lemma_one_row_less, roomy_read,
};
use crate::progress::recovering_read;
use crate::reader::{
    dependable, lemma_dependable, lemma_first_read, record_read, rested, ReadResult,
};
use crate::sessions::{is_session, leads, lemma_sessions_account, Call, Stage};
use crate::skipping::{
    after_tracked_read, lemma_recovery_gives, lemma_skip_goes_on, lenient_run,
};
use crate::stream::{
    can_decode, completed, full_read, lemma_can_read_on, lemma_decoding_splits, lemma_full_read,
    lemma_full_read_of_front, lemma_reads_as, lemma_split_of_pieces, split, SplitRecord,
    Unfinished,
};
use arrow_schema::ArrowError;
use vstd::prelude::*;

verus! {

/// Where a read stops before a record ends, splitting goes on from there.
proof fn lemma_split_after_stop(
    unfinished: Unfinished,
    rest: Seq<u8>,
    output_room: nat,
    ends_room: nat,
)
    requires
        unfinished.can_read(rest.len()),
        ({
            let step = record_read(unfinished.reader, rest, output_room, ends_room);
            step.result != ReadResult::Record && step.consumed < rest.len()
        }),
    ensures
        ({
            let step = record_read(unfinished.reader, rest, output_room, ends_room);
            split(unfinished, rest) == split(
                unfinished.after(step, rest.take(step.consumed as int)),
                rest.skip(step.consumed as int),
            )
        }),
{
    let reader = unfinished.reader;
    let step = record_read(reader, rest, output_room, ends_room);
    let front = rest.take(step.consumed as int);
    let unread = rest.skip(step.consumed as int);
    let between = unfinished.after(step, front);
    let room = rest.len() + ends_room + 1;
    lemma_dependable(reader, rest, output_room, ends_room);
    lemma_less_room(reader, rest, output_room, ends_room, room);
    lemma_full_read(reader, rest, room);
    lemma_full_read(step.after, unread, (room - step.ends.len()) as nat);
    lemma_can_read_on(unfinished, rest, 0);
    lemma_can_read_on(between, unread, 0);
    let whole = full_read(reader, rest);
    let second = full_read(step.after, unread);
    assert(whole == step.and_then(second));
    assert(rest.take(whole.consumed as int) =~= front + unread.take(second.consumed as int));
    assert(rest.skip(whole.consumed as int) =~= unread.skip(second.consumed as int));
    assert(unfinished.after(whole, rest.take(whole.consumed as int)) =~= between.after(
        second,
        unread.take(second.consumed as int),
    ));
}

/// What a failed run of decoding has got to, and what is at fault.
#[verifier::rlimit(60)]
proof fn lemma_run_fails(
    s: DecoderState,
    unfinished: Unfinished,
    input: Seq<u8>,
    used: nat,
    to_read: nat,
    read: nat,
)
    requires
        used < input.len() <= usize::MAX,
        read < to_read <= usize::MAX,
        can_run(s, input.skip(used as int), (to_read - read) as nat),
        s.data.len() <= s.data_size,
        s.stands_at(unfinished),
        strict_run(s, input, used, to_read, read).1 is Err,
    ensures
        ({
            let (t, r) = strict_run(s, input, used, to_read, read);
            let (records, last) = split(unfinished, input.skip(used as int));
            let k = t.num_rows - s.num_rows;
            let nc = s.num_columns;
            &&& 0 <= k <= records.len()
            &&& k < to_read - read
            &&& t.line_number == s.line_number + k
            &&& forall|j: int|
                0 <= j < k ==> (#[trigger] records[j]).ends.len() == nc || s.truncated_rows
                    && records[j].ends.len() < nc
            &&& match r {
                Err(DecodeError::Csv(CsvError::IncorrectFieldCount { line, expected, got })) => {
                    &&& k < records.len()
                    &&& records[k].ends.len() != nc
                    &&& !(s.truncated_rows && records[k].ends.len() < nc)
                    &&& line == (s.line_number + k) as usize
                    &&& expected == nc as usize
                    &&& got == records[k].ends.len() as usize
                },
                Err(DecodeError::Csv(CsvError::TooManyFields { line, expected, more_than })) => {
                    let limit = s.current_field + s.ends_room() - k * nc;
                    &&& line == (s.line_number + k) as usize
                    &&& expected == nc as usize
                    &&& more_than == limit as usize
                    &&& nc <= limit
                    &&& if k < records.len() {
                        records[k].ends.len() > limit
                    } else {
                        last.ends.len() >= limit
                    }
                },
                _ => false,
            }
        }),
    decreases reads_left((input.len() - used) as nat, s.output_room(), 1, false),
{
    let rest = input.skip(used as int);
    let left = (to_read - read) as nat;
    let nc = s.num_columns;
    let step = record_read(s.reader, rest, s.output_room(), s.ends_room());
    let now = used + step.consumed;
    let (t, verdict) = s.after_read(step).strict_verdict(step.result);
    let unread = input.skip(now as int);
    let (records, last) = split(unfinished, rest);
    lemma_dependable(s.reader, rest, s.output_room(), s.ends_room());
    lemma_reads_as(s.reader, unfinished.reader, rest, s.output_room(), s.ends_room());
    lemma_dependable(unfinished.reader, rest, s.output_room(), s.ends_room());
    lemma_can_go_on(s, rest, left, s.output_room());
    lemma_one_row_less(left, nc);
    assert((left - 1) * nc >= 0) by (nonlinear_arith)
        requires
            left > 0,
    ;
    assert(0 * nc == 0) by (nonlinear_arith);
    assert(rest.skip(step.consumed as int) =~= unread);
    lemma_can_read_on(unfinished, rest, 0);
    let full = full_read(unfinished.reader, rest);
    match verdict {
        Ok(Progress::OutputFull) => {
            let next = t.reserve_data(left);
            lemma_less_room(s.reader, rest, s.output_room(), s.ends_room(), s.ends_room());
            lemma_more_room(s.reader, rest, rest.len() + 1, s.ends_room());
            if s.reader == unfinished.reader || s.output_room() > 0 && s.ends_room() > 0 {
                let between = unfinished.after(step, rest.take(step.consumed as int));
                lemma_split_after_stop(unfinished, rest, s.output_room(), s.ends_room());
                lemma_run_fails(next, between, input, now, to_read, read);
            } else {
                assert(s.offsets + step.ends =~= s.offsets);
                assert(s.data + step.output =~= s.data);
                assert(unread =~= rest);
                lemma_run_fails(next, unfinished, input, now, to_read, read);
            }
        },
        Ok(Progress::Row) => {
            lemma_row_is_full_read(s, unfinished, rest);
            let record = unfinished.after(step, rest.take(step.consumed as int)).record();
            let next = Unfinished::nothing(rested(step.after));
            let (others, _) = split(next, unread);
            lemma_dependable(step.after, Seq::empty(), 1, 1);
            assert(records == seq![record] + others);
            lemma_run_fails(t, next, input, now, to_read, read + 1);
            let k = strict_run(s, input, used, to_read, read).0.num_rows - s.num_rows;
            lemma_one_row_less(k as nat, nc);
            assert forall|j: int| 0 <= j < k implies (#[trigger] records[j]).ends.len() == nc
                || s.truncated_rows && records[j].ends.len() < nc by {
                if j > 0 {
                    assert(records[j] == others[j - 1]);
                }
            }
            if k < records.len() {
                assert(records[k] == others[k - 1]);
            }
        },
        Err(_) => {
            if step.result == ReadResult::Record {
                lemma_row_is_full_read(s, unfinished, rest);
                let record = unfinished.after(step, rest.take(step.consumed as int)).record();
                assert(records[0] == record);
            } else {
                lemma_ends_full(s, unfinished, rest);
            }
        },
        Ok(Progress::Exhausted) => {},
    }
}

/// A read that ends a record ends it as a read with room for everything does.
proof fn lemma_row_is_full_read(s: DecoderState, unfinished: Unfinished, rest: Seq<u8>)
    requires
        dependable(s.reader),
        s.reader.pending + rest.len() <= usize::MAX,
        rest.len() > 0,
        s.stands_at(unfinished),
        record_read(s.reader, rest, s.output_room(), s.ends_room()).result == ReadResult::Record,
    ensures
        record_read(s.reader, rest, s.output_room(), s.ends_room()) == full_read(
            unfinished.reader,
            rest,
        ),
{
    let step = record_read(s.reader, rest, s.output_room(), s.ends_room());
    let room = s.ends_room() + rest.len() + 1;
    lemma_dependable(s.reader, rest, s.output_room(), s.ends_room());
    if s.output_room() == 0 || s.ends_room() == 0 {
        if !s.reader.started {
            lemma_first_read(s.reader, rest, s.output_room(), s.ends_room());
        }
    }
    lemma_less_room(s.reader, rest, s.output_room(), s.ends_room(), room);
    lemma_full_read(s.reader, rest, room);
    lemma_reads_as(s.reader, unfinished.reader, rest, rest.len() + 1, rest.len() + 1);
}

/// Where the room for field ends runs out, the record has more fields than there is room for.
proof fn lemma_ends_full(s: DecoderState, unfinished: Unfinished, rest: Seq<u8>)
    requires
        dependable(s.reader),
        s.reader.pending + rest.len() <= usize::MAX,
        rest.len() > 0,
        s.stands_at(unfinished),
        record_read(s.reader, rest, s.output_room(), s.ends_room()).result
            == ReadResult::OutputEndsFull,
    ensures
        ({
            let step = record_read(s.reader, rest, s.output_room(), s.ends_room());
            let (records, last) = split(unfinished, rest);
            &&& step.ends.len() == s.ends_room()
            &&& if records.len() > 0 {
                records[0].ends.len() > unfinished.ends.len() + s.ends_room()
            } else {
                last.ends.len() >= unfinished.ends.len() + s.ends_room()
            }
        }),
{
    let step = record_read(s.reader, rest, s.output_room(), s.ends_room());
    let full = full_read(unfinished.reader, rest);
    let room = s.ends_room() + rest.len() + 1;
    lemma_dependable(s.reader, rest, s.output_room(), s.ends_room());
    lemma_less_room(s.reader, rest, s.output_room(), s.ends_room(), room);
    lemma_full_read(s.reader, rest, room);
    lemma_reads_as(s.reader, unfinished.reader, rest, rest.len() + 1, rest.len() + 1);
    lemma_dependable(unfinished.reader, rest, rest.len() + 1, rest.len() + 1);
    lemma_can_read_on(unfinished, rest, 0);
    if step.consumed < rest.len() {
        let unread = rest.skip(step.consumed as int);
        lemma_dependable(
            step.after,
            unread,
            unread.len() + 1,
            (room - step.ends.len()) as nat,
        );
    }
    if full.result == ReadResult::Record {
        let record = unfinished.after(full, rest.take(full.consumed as int)).record();
        assert(split(unfinished, rest).0[0] == record);
    }
}

/// Decoding without a handler that fails has taken the records before the one at fault. The error
/// names the line of that record, the number of columns, and the number of fields that the reader
/// split the record into; or, where it has more fields than the rows still asked for have together,
/// that number.
pub proof fn lemma_error_names_record(
    s: DecoderState,
    unfinished: Unfinished,
    input: Seq<u8>,
    to_read: nat,
)
    requires
        can_decode(s, input, to_read),
        s.stands_at(unfinished),
        strict_decode(s, input, to_read).1 is Err,
    ensures
        ({
            let (t, r) = strict_decode(s, input, to_read);
            let (records, last) = completed(unfinished, input, input.len());
            let k = t.num_rows - s.num_rows;
            let nc = s.num_columns;
            &&& 0 <= k <= records.len()
            &&& k < to_read
            &&& t.line_number == s.line_number + k
            &&& forall|j: int|
                0 <= j < k ==> (#[trigger] records[j]).ends.len() == nc || s.truncated_rows
                    && records[j].ends.len() < nc
            &&& match r {
                Err(DecodeError::Csv(CsvError::IncorrectFieldCount { line, expected, got })) => {
                    &&& k < records.len()
                    &&& records[k].ends.len() != nc
                    &&& !(s.truncated_rows && records[k].ends.len() < nc)
                    &&& line == (s.line_number + k) as usize
                    &&& expected == nc as usize
                    &&& got == records[k].ends.len() as usize
                },
                Err(DecodeError::Csv(CsvError::TooManyFields { line, expected, more_than })) => {
                    let limit = unfinished.ends.len() + (to_read - k) * nc;
                    &&& line == (s.line_number + k) as usize
                    &&& expected == nc as usize
                    &&& more_than == limit as usize
                    &&& nc <= limit
                    &&& if k < records.len() {
                        records[k].ends.len() > limit
                    } else {
                        last.ends.len() >= limit
                    }
                },
                _ => false,
            }
        }),
{
    let start = s.reserve_offsets(to_read).reserve_data(to_read);
    let nc = s.num_columns;
    let k = strict_decode(s, input, to_read).0.num_rows - s.num_rows;
    assert(to_read * nc >= nc) by (nonlinear_arith)
        requires
            to_read > 0,
    ;
    assert(input.skip(0) =~= input);
    assert(input.take(input.len() as int) =~= input);
    if input.len() > 0 {
        lemma_run_fails(start, unfinished, input, 0, to_read, 0);
    } else {
        let step = record_read(start.reader, input, start.output_room(), start.ends_room());
        assert(input =~= Seq::empty());
        lemma_dependable(start.reader, input, start.output_room(), start.ends_room());
        lemma_dependable(start.reader, input, 1, 1);
        lemma_reads_as(s.reader, unfinished.reader, input, 1, 1);
        lemma_dependable(unfinished.reader, input, 1, 1);
        assert(unfinished.reader == s.reader);
    }
    assert((to_read - k) * nc == to_read * nc - k * nc) by (nonlinear_arith);
}

/// Decoding without a handler that succeeds counts and buffers every record up to the last one asked
/// for, and each of them has as many fields as there are columns, or fewer where short records are
/// allowed. So it fails wherever one of them has another number of fields.
pub proof fn lemma_success_by_field_count(
    s: DecoderState,
    unfinished: Unfinished,
    input: Seq<u8>,
    to_read: nat,
)
    requires
        can_decode(s, input, to_read),
        s.stands_at(unfinished),
        strict_decode(s, input, to_read).1 is Ok,
    ensures
        ({
            let (t, r) = strict_decode(s, input, to_read);
            let (rows, bytes) = r.unwrap();
            let (records, _) = completed(unfinished, input, input.len());
            let nc = s.num_columns;
            &&& rows == if records.len() < to_read {
                records.len()
            } else {
                to_read
            }
            &&& t.num_rows == s.num_rows + rows
            &&& t.line_number == s.line_number + rows
            &&& forall|j: int|
                0 <= j < records.len() && j < to_read ==> (#[trigger] records[j]).ends.len() == nc
                    || s.truncated_rows && records[j].ends.len() < nc
        }),
{
    let (t, r) = strict_decode(s, input, to_read);
    let (rows, bytes) = r.unwrap();
    let (records, _) = completed(unfinished, input, input.len());
    let (taken, _) = completed(unfinished, input, bytes as nat);
    let nc = s.num_columns;
    lemma_decoding_splits(s, unfinished, input, to_read);
    lemma_reads_as(s.reader, unfinished.reader, input, 1, 1);
    lemma_lines_follow_rows(s, input, to_read);
    assert(input.take(input.len() as int) =~= input);
    if input.len() > 0 {
        let front = input.take(bytes as int);
        let back = input.skip(bytes as int);
        assert(front + back =~= input);
        lemma_split_of_pieces(unfinished, front, back);
    }
    assert forall|j: int| 0 <= j < records.len() && j < to_read implies (
    #[trigger] records[j]).ends.len() == nc || s.truncated_rows && records[j].ends.len() < nc by {
        assert(records[j] == taken[j]);
        assert(s.takes(taken[j]));
    }
}

proof fn lemma_run_lines(s: DecoderState, input: Seq<u8>, used: nat, to_read: nat, read: nat)
    requires
        strict_run(s, input, used, to_read, read).1 is Ok,
        dependable(s.reader),
        used <= input.len() <= usize::MAX,
        s.reader.pending + (input.len() - used) <= usize::MAX,
        read < to_read <= usize::MAX,
        s.data.len() <= s.data_size,
    ensures
        ({
            let t = strict_run(s, input, used, to_read, read).0;
            t.line_number - s.line_number == t.num_rows - s.num_rows
        }),
    decreases reads_left((input.len() - used) as nat, s.output_room(), 1, false),
{
    let rest = input.skip(used as int);
    let step = record_read(s.reader, rest, s.output_room(), s.ends_room());
    let now = used + step.consumed;
    let (t, verdict) = s.after_read(step).strict_verdict(step.result);
    lemma_dependable(s.reader, rest, s.output_room(), s.ends_room());
    match verdict {
        Ok(Progress::OutputFull) => {
            lemma_run_lines(t.reserve_data((to_read - read) as nat), input, now, to_read, read);
        },
        Ok(Progress::Row) => {
            if read + 1 < to_read && now < input.len() {
                lemma_run_lines(t, input, now, to_read, read + 1);
            }
        },
        _ => {},
    }
}

/// Decoding without a handler passes a line for each record that it takes.
proof fn lemma_lines_follow_rows(s: DecoderState, input: Seq<u8>, to_read: nat)
    requires
        can_decode(s, input, to_read),
        strict_decode(s, input, to_read).1 is Ok,
    ensures
        ({
            let t = strict_decode(s, input, to_read).0;
            t.line_number - s.line_number == t.num_rows - s.num_rows
        }),
{
    assert(to_read * s.num_columns >= 0) by (nonlinear_arith);
    lemma_run_lines(s.reserve_offsets(to_read).reserve_data(to_read), input, 0, to_read, 0);
}

/// Decoding without a handler succeeds, and counts and buffers every record up to the last one asked
/// for, where each of them has as many fields as there are columns, or fewer where short records are
/// allowed, and what is left unfinished before the last has fewer fields than the rows still asked
/// for have together.
pub proof fn lemma_fitting_records_decode(
    s: DecoderState,
    unfinished: Unfinished,
    input: Seq<u8>,
    to_read: nat,
)
    requires
        can_decode(s, input, to_read),
        s.stands_at(unfinished),
        ({
            let (records, last) = completed(unfinished, input, input.len());
            &&& forall|j: int|
                0 <= j < records.len() && j < to_read ==> (#[trigger] records[j]).ends.len()
                    == s.num_columns || s.truncated_rows && records[j].ends.len() < s.num_columns
            &&& input.len() > 0 && records.len() < to_read ==> last.ends.len()
                < unfinished.ends.len() + (to_read - records.len()) * s.num_columns
        }),
    ensures
        ({
            let (t, r) = strict_decode(s, input, to_read);
            let (records, _) = completed(unfinished, input, input.len());
            &&& r is Ok
            &&& r.unwrap().0 == if records.len() < to_read {
                records.len()
            } else {
                to_read
            }
            &&& t.num_rows == s.num_rows + r.unwrap().0
        }),
{
    let (records, _) = completed(unfinished, input, input.len());
    assert forall|j: int| 0 <= j < records.len() && j < to_read implies s.takes(
        #[trigger] records[j],
    ) by {
        assert(records[j].ends.len() == s.num_columns || s.truncated_rows
            && records[j].ends.len() < s.num_columns);
    }
    lemma_valid_records_decode(s, unfinished, input, to_read);
    lemma_success_by_field_count(s, unfinished, input, to_read);
}

/// Where short records are allowed, a stream whose records all have between one field and as many as
/// there are columns decodes without error piece by piece, in however many pieces it comes, and
/// every record that a piece completes is counted and buffered. Where they are not allowed, the same
/// holds of a stream whose records all have as many fields as there are columns.
pub proof fn lemma_fitting_stream_decodes<H: CsvRecordErrorHandler + ?Sized>(
    calls: Seq<Call>,
    stages: Seq<Stage>,
    handler: Option<&H>,
    marked: bool,
    stream: Seq<u8>,
    input: Seq<u8>,
    to_read: nat,
)
    requires
        is_session(handler, calls, stages),
        ends_once(calls, stages),
        handler is None,
        stages[0].state.num_columns > 0,
        stream.len() <= usize::MAX,
        reads_on(stages.last(), marked, stream, input),
        stages.last().state.reader.pending + input.len() <= usize::MAX,
        0 < to_read <= usize::MAX,
        ({
            let s = stages[0].state;
            let (records, _) = records_of(s.reader, marked, stream, true);
            if s.truncated_rows {
                forall|k: int|
                    0 <= k < records.len() ==> 1 <= (#[trigger] records[k]).ends.len()
                        <= s.num_columns
            } else {
                forall|k: int|
                    0 <= k < records.len() ==> (#[trigger] records[k]).ends.len() == s.num_columns
            }
        }),
    ensures
        ({
            let b = stages.last();
            let (t, r) = strict_decode(b.state, input, to_read);
            let (records, _) = completed(b.unfinished, input, input.len());
            &&& r is Ok
            &&& r.unwrap().0 == if records.len() < to_read {
                records.len()
            } else {
                to_read
            }
            &&& t.num_rows == b.state.num_rows + r.unwrap().0
        }),
{
    let s = stages[0].state;
    let b = stages.last();
    let (records, _) = records_of(s.reader, marked, stream, true);
    assert forall|k: int| 0 <= k < records.len() implies s.takes(#[trigger] records[k]) by {
        assert(records[k].ends.len() <= s.num_columns);
    }
    lemma_valid_stream_decodes(calls, stages, handler, marked, stream, input, to_read);
    lemma_sessions_account(handler, calls, stages, stages.len() - 1);
    lemma_success_by_field_count(b.state, b.unfinished, input, to_read);
}

/// Decoding with a handler that lets every record pass succeeds where, up to the last record asked
/// for, none has more than 16384 fields too many, nor does what is left unfinished where the input
/// ends before it.
///
/// The handler's notes and the numbers of fields can be counted in a machine's numbers.
pub proof fn lemma_excess_fields_are_skipped<H: CsvRecordErrorHandler + ?Sized>(
    handler: &H,
    s: DecoderState,
    unfinished: Unfinished,
    input: Seq<u8>,
    to_read: nat,
    told: Seq<Notice>,
    done: DecoderState,
    returned: Result<(usize, usize), DecodeError>,
    fits: spec_fn(SplitRecord) -> bool,
)
    requires
        can_decode(s, input, to_read),
        0 < s.record_offsets_start <= s.offsets.len() <= s.record_offsets_start + s.current_field,
        s.record_data_start <= s.data.len(),
        s.offsets.len() <= s.record_offsets_start + s.num_columns + 16384,
        s.record_offsets_start + (to_read + 1) * s.num_columns + 16385 <= usize::MAX,
        s.stream_offset + input.len() <= usize::MAX,
        s.stands_at(unfinished),
        forall|record: SplitRecord| #[trigger]
            fits(record) <==> record.ends.len() == s.num_columns || s.truncated_rows
                && record.ends.len() < s.num_columns,
        ({
            let (records, last) = completed(unfinished, input, input.len());
            &&& forall|i: int|
                0 <= i < records.len() && records.take(i).filter(fits).len() < to_read ==> (
                #[trigger] records[i]).ends.len() <= s.num_columns + 16384
            &&& input.len() > 0 && records.filter(fits).len() < to_read ==> last.ends.len()
                < s.num_columns + 16384
        }),
        forall|notice: Notice, reply: Result<(), ArrowError>| #[trigger]
            handler.answers(notice, reply) ==> reply is Ok,
        recovering_decode(handler, s, input, to_read, told, done, returned),
    ensures
        returned is Ok,
{
    let (records, last) = completed(unfinished, input, input.len());
    lemma_taken_by_field_count(s, records, fits);
    assert forall|i: int|
        0 <= i < records.len() && s.taken(records.take(i)).len() < to_read implies (
    #[trigger] records[i]).ends.len() <= s.num_columns + 16384 by {
        lemma_taken_by_field_count(s, records.take(i), fits);
    }
    lemma_short_records_skip(handler, s, unfinished, input, to_read, told, done, returned);
}

/// No record of a run with malformed records skipped has more than 16384 fields too many.
proof fn lemma_run_limits_fields(s: DecoderState, unfinished: Unfinished, rest: Seq<u8>, left: nat)
    requires
        dependable(s.reader),
        s.reader.pending + rest.len() <= usize::MAX,
        rest.len() > 0,
        left > 0,
        s.can_skip(left),
        s.offsets.len() == s.record_offsets_start + s.current_field,
        s.stands_at(unfinished),
        lenient_run(s, rest, left) is Some,
    ensures
        ({
            let (_, _, bytes, _) = lenient_run(s, rest, left).unwrap();
            let (records, _) = split(unfinished, rest.take(bytes as int));
            &&& bytes <= rest.len()
            &&& forall|k: int|
                0 <= k < records.len() ==> (#[trigger] records[k]).ends.len() <= s.num_columns
                    + 16384
        }),
    decreases rest.len(),
{
    let room = s.ends_left();
    let step = roomy_read(s.reader, rest, room);
    let t = after_tracked_read(s, rest, step).plain();
    let next_state = t.settle_record();
    let (_, _, bytes, _) = lenient_run(s, rest, left).unwrap();
    let front = rest.take(bytes as int);
    lemma_dependable(s.reader, rest, rest.len() + 1, room);
    lemma_reads_as(s.reader, unfinished.reader, rest, rest.len() + 1, room);
    lemma_full_read(unfinished.reader, rest, room);
    lemma_skip_goes_on(s, rest, left, rest.len() + 1, room);
    lemma_can_read_on(unfinished, rest, 0);
    let consumed = rest.take(step.consumed as int);
    let record = unfinished.after(step, consumed).record();
    if step.result == ReadResult::Record {
        let row = if t.row_fits() {
            1nat
        } else {
            0
        };
        let next = Unfinished::nothing(rested(step.after));
        let unread = rest.skip(step.consumed as int);
        lemma_dependable(step.after, Seq::empty(), 1, 1);
        assert(record.ends.len() <= s.num_columns + 16384);
        if row == left || step.consumed == rest.len() {
            lemma_full_read_of_front(unfinished.reader, rest, bytes as int);
            assert(front.take(step.consumed as int) =~= consumed);
            assert(front.skip(step.consumed as int) =~= Seq::empty());
            reveal_with_fuel(split, 2);
            assert(split(unfinished, front).0 =~= seq![record]);
        } else {
            lemma_run_limits_fields(next_state, next, unread, (left - row) as nat);
            let (_, _, more, _) = lenient_run(next_state, unread, (left - row) as nat).unwrap();
            lemma_full_read_of_front(unfinished.reader, rest, bytes as int);
            assert(front.take(step.consumed as int) =~= consumed);
            assert(front.skip(step.consumed as int) =~= unread.take(more as int));
            let (others, _) = split(next, unread.take(more as int));
            let records = seq![record] + others;
            assert(split(unfinished, front).0 == records);
            assert forall|k: int| 0 <= k < records.len() implies (#[trigger] records[k]).ends.len()
                <= s.num_columns + 16384 by {
                if k > 0 {
                    assert(records[k] == others[k - 1]);
                }
            }
        }
    } else {
        assert(front =~= rest);
    }
}

/// Decoding with a handler that succeeds has read no record with more than 16384 fields too many.
///
/// The fields of the record being read are all in the buffer, as they are unless it was dropped in
/// the middle.
pub proof fn lemma_skipped_excess_is_limited<H: CsvRecordErrorHandler + ?Sized>(
    handler: &H,
    s: DecoderState,
    unfinished: Unfinished,
    input: Seq<u8>,
    to_read: nat,
    told: Seq<Notice>,
    done: DecoderState,
    returned: (usize, usize),
)
    requires
        can_decode(s, input, to_read),
        s.can_skip(to_read),
        s.offsets.len() == s.record_offsets_start + s.current_field,
        s.stands_at(unfinished),
        input.len() > 0,
        recovering_decode(
            handler,
            s,
            input,
            to_read,
            told,
            done,
            Ok::<_, DecodeError>(returned),
        ),
    ensures
        ({
            let (records, _) = completed(unfinished, input, returned.1 as nat);
            forall|k: int|
                0 <= k < records.len() ==> (#[trigger] records[k]).ends.len() <= s.num_columns
                    + 16384
        }),
{
    let start = s.reserve_offsets(to_read).reserve_data(to_read);
    assert(to_read * s.num_columns >= s.num_columns) by (nonlinear_arith)
        requires
            to_read > 0,
    ;
    lemma_one_row_less(to_read + 1, s.num_columns);
    assert(input.skip(0) =~= input);
    lemma_recovery_gives(
        handler,
        start,
        input,
        0,
        to_read,
        0,
        told,
        done,
        returned.0,
        returned.1,
    );
    lemma_run_limits_fields(start, unfinished, input, to_read);
}

/// What the handler's replies and the lines have to do with how a run ends.
proof fn lemma_run_replies<H: CsvRecordErrorHandler + ?Sized>(
    handler: &H,
    s: DecoderState,
    input: Seq<u8>,
    used: nat,
    to_read: nat,
    read: nat,
    at_end: bool,
    told: Seq<Notice>,
    done: DecoderState,
    returned: Result<(usize, usize), DecodeError>,
)
    requires
        recovering_run(handler, s, input, used, to_read, read, at_end, told, done, returned),
    ensures
        forall|k: int|
            0 <= k < told.len() ==> (#[trigger] told[k]).line_number() == s.line_number + k,
        forall|k: int|
            0 <= k < told.len() - 1 ==> handler.answers(
                #[trigger] told[k],
                Ok::<(), ArrowError>(()),
            ),
        match returned {
            Err(DecodeError::Handler(error)) => {
                &&& told.len() > 0
                &&& handler.answers(told.last(), Err::<(), _>(error))
                &&& done.line_number == s.line_number + told.len() - 1
            },
            _ => {
                &&& told.len() > 0 ==> handler.answers(told.last(), Ok::<(), ArrowError>(()))
                &&& done.line_number == s.line_number + told.len()
            },
        },
        returned matches Err(DecodeError::Csv(CsvError::RecoveryLimit { line })) ==> {
            &&& line == (s.line_number + told.len()) as usize
            &&& done.offsets.len() >= done.record_offsets_start + done.num_columns + 16384
        },
        done.num_columns == s.num_columns,
    decreases
            reads_left(
                (input.len() - used) as nat,
                s.output_room(),
                s.limited_ends_room(),
                at_end,
            ),
{
    let rest = input.skip(used as int);
    let step = record_read(s.reader, rest, s.output_room(), s.limited_ends_room());
    let now = used + step.consumed;
    let (t, verdict) = recovering_read(s, input, used);
    if s.offsets_limit() <= usize::MAX {
        match verdict {
            Ok(Reading::OutputFull) => {
                let next = t.reserve_data((to_read - read) as nat);
                lemma_run_replies(
                    handler,
                    next,
                    input,
                    now,
                    to_read,
                    read,
                    at_end,
                    told,
                    done,
                    returned,
                );
            },
            Ok(Reading::OffsetsGrown) => {
                lemma_run_replies(
                    handler,
                    t,
                    input,
                    now,
                    to_read,
                    read,
                    at_end,
                    told,
                    done,
                    returned,
                );
            },
            Ok(Reading::Record) => {
                let next = t.settle_record();
                let read_now = if t.row_fits() {
                    read + 1
                } else {
                    read
                };
                let at_end_now = at_end || step.consumed == 0;
                let others = told.drop_first();
                let left = reads_left(
                    (input.len() - used) as nat,
                    s.output_room(),
                    s.limited_ends_room(),
                    at_end,
                );
                assert(told[0] == t.notice());
                assert(t.notice().line_number() == s.line_number);
                let reply = choose|reply: Result<(), ArrowError>| #[trigger]
                    handler.answers(t.notice(), reply) && match reply {
                        Err(error) => told.len() == 1 && done == t && returned == Err::<
                            (usize, usize),
                            _,
                        >(DecodeError::Handler(error)),
                        Ok(()) => if t.row_fits() && (read_now == to_read || now == input.len()) {
                            told.len() == 1 && done == next && returned == Ok::<_, DecodeError>(
                                (read_now as usize, now as usize),
                            )
                        } else {
                            &&& reads_left(
                                (input.len() - now) as nat,
                                next.output_room(),
                                next.limited_ends_room(),
                                at_end_now,
                            ) < left
                            &&& recovering_run(
                                handler,
                                next,
                                input,
                                now,
                                to_read,
                                read_now,
                                at_end_now,
                                others,
                                done,
                                returned,
                            )
                        },
                    };
                if reply is Ok {
                    assert(reply->Ok_0 == ());
                    if !(t.row_fits() && (read_now == to_read || now == input.len())) {
                        lemma_run_replies(
                            handler,
                            next,
                            input,
                            now,
                            to_read,
                            read_now,
                            at_end_now,
                            others,
                            done,
                            returned,
                        );
                        assert forall|k: int| 0 <= k < told.len() implies (
                        #[trigger] told[k]).line_number() == s.line_number + k by {
                            if k > 0 {
                                assert(told[k] == others[k - 1]);
                            }
                        }
                        assert forall|k: int| 0 <= k < told.len() - 1 implies handler.answers(
                            #[trigger] told[k],
                            Ok::<(), ArrowError>(()),
                        ) by {
                            if k > 0 {
                                assert(told[k] == others[k - 1]);
                            }
                        }
                        if others.len() > 0 {
                            assert(told.last() == others.last());
                        }
                    }
                }
            },
            _ => {},
        }
    }
}

/// How decoding with a handler ends is up to the handler's replies. It goes on after every record
/// that the handler lets pass, and where it stops at the handler's word, the word is the reply to the
/// last notice, and the record stays on its line. Notices are of successive lines. A record that is
/// given up for its fields is named by its line, and has at least 16384 fields too many.
pub proof fn lemma_replies_decide<H: CsvRecordErrorHandler + ?Sized>(
    handler: &H,
    s: DecoderState,
    input: Seq<u8>,
    to_read: nat,
    told: Seq<Notice>,
    done: DecoderState,
    returned: Result<(usize, usize), DecodeError>,
)
    requires
        recovering_decode(handler, s, input, to_read, told, done, returned),
    ensures
        forall|k: int|
            0 <= k < told.len() ==> (#[trigger] told[k]).line_number() == s.line_number + k,
        forall|k: int|
            0 <= k < told.len() - 1 ==> handler.answers(
                #[trigger] told[k],
                Ok::<(), ArrowError>(()),
            ),
        match returned {
            Err(DecodeError::Handler(error)) => {
                &&& told.len() > 0
                &&& handler.answers(told.last(), Err::<(), _>(error))
                &&& done.line_number == s.line_number + told.len() - 1
            },
            _ => {
                &&& told.len() > 0 ==> handler.answers(told.last(), Ok::<(), ArrowError>(()))
                &&& done.line_number == s.line_number + told.len()
            },
        },
        returned matches Err(DecodeError::Csv(CsvError::RecoveryLimit { line })) ==> {
            &&& line == (s.line_number + told.len()) as usize
            &&& done.offsets.len() >= done.record_offsets_start + s.num_columns + 16384
        },
{
    if to_read > 0 && s.offsets.len() + to_read * s.num_columns <= usize::MAX {
        lemma_run_replies(
            handler,
            s.reserve_offsets(to_read).reserve_data(to_read),
            input,
            0,
            to_read,
            0,
            false,
            told,
            done,
            returned,
        );
    }
}

/// Without a handler, the line that a decoder is on comes after one line for every record so far.
pub proof fn lemma_lines_of_session<H: CsvRecordErrorHandler + ?Sized>(
    handler: Option<&H>,
    calls: Seq<Call>,
    stages: Seq<Stage>,
    i: int,
)
    requires
        is_session(handler, calls, stages),
        handler is None,
        0 <= i < stages.len(),
    ensures
        stages[i].state.line_number == 1 + stages[i].rows,
        stages[i].state.line_number - stages[i].state.num_rows == 1 + stages[i].rows_before,
    decreases i,
{
    lemma_sessions_account(handler, calls, stages, i);
    if i > 0 {
        let a = stages[i - 1];
        lemma_lines_of_session(handler, calls, stages, i - 1);
        lemma_sessions_account(handler, calls, stages, i - 1);
        assert(leads(handler, calls[i - 1], a, stages[i - 1 + 1]));
        if let Call::Decode { input, to_read, .. } = calls[i - 1] {
            if to_read > 0 {
                lemma_lines_follow_rows(a.state, input, to_read);
                lemma_decoding_splits(a.state, a.unfinished, input, to_read);
            }
        }
    }
}

} // verus!
