//! What holds between two reads while a decoder decodes.

use crate::error::{CsvError, DecodeError, MAX_RECOVERABLE_EXCESS_FIELDS};
use crate::handler::{CsvRecordErrorHandler, Notice};
use crate::layout::{lemma_read_keeps_layout, lemma_row_keeps_layout, lemma_skip_keeps_layout};
use crate::model::{
    data_estimate, greatest, least, reads_left, recovering_run, DecoderState, Reading,
};
use crate::reader::{read_is_sound, record_read, sinks, ReadResult, ReadStep};
use arrow_schema::ArrowError;
use vstd::prelude::*;

verus! {

proof fn lemma_prefix_add<A>(prefix: Seq<A>, a: Seq<A>, b: Seq<A>)
    requires
        prefix.is_prefix_of(a),
    ensures
        prefix.is_prefix_of(a + b),
{
    assert(a.subrange(0, prefix.len() as int) =~= (a + b).subrange(0, prefix.len() as int));
}

proof fn lemma_prefix_take<A>(prefix: Seq<A>, a: Seq<A>, n: int)
    requires
        prefix.is_prefix_of(a),
        prefix.len() <= n <= a.len(),
    ensures
        prefix.is_prefix_of(a.take(n)),
{
    assert(a.subrange(0, prefix.len() as int) =~= a.take(n).subrange(0, prefix.len() as int));
}

proof fn lemma_rows_left(read: nat, to_read: nat, num_columns: nat)
    requires
        read < to_read,
    ensures
        (read + 1) * num_columns == read * num_columns + num_columns,
        (read + 1) * num_columns <= to_read * num_columns,
        data_estimate((to_read - read) as nat, num_columns) <= data_estimate(to_read, num_columns),
{
    assert((read + 1) * num_columns == read * num_columns + num_columns) by (nonlinear_arith);
    assert((read + 1) * num_columns <= to_read * num_columns) by (nonlinear_arith)
        requires
            read < to_read,
    ;
    assert((to_read - read) * num_columns <= to_read * num_columns) by (nonlinear_arith)
        requires
            read < to_read,
    ;
}

/// Everything that decoding without a handler counts stays in range.
pub open spec fn strict_limits(s: DecoderState, input_len: nat, to_read: nat) -> bool {
    let rows = least(to_read, input_len + 1);
    &&& s.offsets.len() + to_read * s.num_columns <= usize::MAX
    &&& s.current_field + to_read * s.num_columns <= usize::MAX
    &&& s.data.len() + input_len + data_estimate(to_read, s.num_columns) <= usize::MAX
    &&& s.line_number + rows <= usize::MAX
    &&& s.num_rows + rows <= usize::MAX
}

/// What `s` has to do with `before` when `read` of `to_read` records and `used` of `input_len`
/// bytes were decoded without a handler.
pub open spec fn strict_progress(
    before: DecoderState,
    s: DecoderState,
    input_len: nat,
    used: nat,
    to_read: nat,
    read: nat,
) -> bool {
    let columns = before.num_columns;
    &&& strict_limits(before, input_len, to_read)
    &&& s.num_columns == columns
    &&& s.truncated_rows == before.truncated_rows
    &&& s.offsets_size == before.offsets.len() + to_read * columns
    &&& 1 <= s.offsets.len() <= s.offsets_size
    &&& s.data.len() <= s.data_size
    &&& used <= input_len
    &&& read < to_read
    &&& read <= used
    &&& s.line_number == before.line_number + read
    &&& s.num_rows == before.num_rows + read
    &&& s.offsets.len() <= before.offsets.len() + read * columns + s.current_field
    &&& s.current_field + before.offsets.len() <= before.current_field + s.offsets.len()
    &&& s.data.len() <= before.data.len() + used
    &&& s.reader.pending <= before.reader.pending + used
    &&& before.offsets.is_prefix_of(s.offsets)
    &&& before.data.is_prefix_of(s.data)
    &&& before.laid_out() ==> s.laid_out()
}

/// What a read does to a decoder without a handler.
pub proof fn lemma_strict_read(
    before: DecoderState,
    s: DecoderState,
    input: Seq<u8>,
    used: nat,
    to_read: nat,
    read: nat,
    step: ReadStep,
)
    requires
        strict_progress(before, s, input.len(), used, to_read, read),
        read_is_sound(s.reader, input.skip(used as int), s.output_room(), s.ends_room(), step),
    ensures
        ({
            let t = s.after_read(step);
            let now = used + step.consumed;
            &&& t.current_field <= usize::MAX
            &&& t.offsets.len() <= s.offsets_size
            &&& t.data.len() <= s.data_size
            &&& t.data.len() <= before.data.len() + now
            &&& t.reader.pending <= before.reader.pending + now
            &&& t.current_field + before.offsets.len() <= before.current_field + t.offsets.len()
            &&& step.result == ReadResult::InputEmpty || step.result == ReadResult::End ==> now
                == input.len()
            &&& before.offsets.is_prefix_of(t.offsets)
            &&& before.data.is_prefix_of(t.data)
            &&& step.result != ReadResult::Record && before.laid_out() ==> t.laid_out()
            &&& step.result == ReadResult::OutputFull ==> {
                let next = t.reserve_data((to_read - read) as nat);
                &&& next.data_size <= usize::MAX
                &&& strict_progress(before, next, input.len(), now, to_read, read)
                &&& reads_left((input.len() - now) as nat, next.output_room(), 1, false)
                    < reads_left((input.len() - used) as nat, s.output_room(), 1, false)
            }
            &&& step.result == ReadResult::Record ==> {
                &&& t.line_number < usize::MAX
                &&& t.num_rows < usize::MAX
                &&& t.offsets.len() + t.missing_fields() <= s.offsets_size
            }
            &&& step.result == ReadResult::Record && t.row_fits() ==> {
                let next = t.complete_row();
                &&& before.offsets.is_prefix_of(next.offsets)
                &&& before.laid_out() ==> next.laid_out()
                &&& read + 1 < to_read && now < input.len() ==> {
                    &&& used < now
                    &&& strict_progress(before, next, input.len(), now, to_read, read + 1)
                }
            }
        }),
{
    let t = s.after_read(step);
    let rest = input.skip(used as int);
    lemma_prefix_add(before.offsets, s.offsets, step.ends);
    lemma_prefix_add(before.data, s.data, step.output);
    lemma_rows_left(read, to_read, before.num_columns);
    if step.result == ReadResult::Record {
        if t.row_fits() {
            let next = t.complete_row();
            lemma_prefix_add(
                before.offsets,
                t.offsets,
                Seq::new(t.missing_fields(), |i: int| t.offsets.last()),
            );
            if before.laid_out() {
                lemma_row_keeps_layout(s, rest, s.output_room(), s.ends_room(), step);
            }
        }
    } else if before.laid_out() {
        lemma_read_keeps_layout(s, rest, s.output_room(), s.ends_room(), step);
    }
}

/// Everything that decoding with a handler counts stays in range.
pub open spec fn recovery_limits(s: DecoderState, input_len: nat, to_read: nat) -> bool {
    &&& s.offsets.len() <= s.offsets_limit()
    &&& s.offsets_limit() <= usize::MAX ==> s.current_field + s.num_columns
        + MAX_RECOVERABLE_EXCESS_FIELDS <= usize::MAX
    &&& s.data.len() + input_len + data_estimate(to_read, s.num_columns) <= usize::MAX
    &&& s.line_number + input_len + 1 <= usize::MAX
    &&& s.num_rows + least(to_read, input_len + 1) <= usize::MAX
}

/// What `s` has to do with `before` when `read` of `to_read` records and `used` of `input_len`
/// bytes were decoded with a handler.
pub open spec fn recovery_progress(
    before: DecoderState,
    s: DecoderState,
    input_len: nat,
    used: nat,
    to_read: nat,
    read: nat,
    at_end: bool,
) -> bool {
    let columns = before.num_columns;
    &&& recovery_limits(before, input_len, to_read)
    &&& before.offsets.len() + to_read * columns <= usize::MAX
    &&& before.record_offsets_start <= before.offsets.len()
    &&& before.record_data_start <= before.data.len()
    &&& s.num_columns == columns
    &&& s.truncated_rows == before.truncated_rows
    &&& before.offsets.len() + to_read * columns <= s.offsets_size <= greatest(
        before.offsets.len() + to_read * columns,
        s.offsets_limit(),
    )
    &&& 1 <= s.offsets.len() <= s.offsets_size
    &&& s.offsets.len() <= s.offsets_limit()
    &&& s.data.len() <= s.data_size
    &&& used <= input_len
    &&& read < to_read
    &&& read <= used
    &&& s.line_number <= before.line_number + used + (if at_end {
        1nat
    } else {
        0
    })
    &&& before.line_number + read <= s.line_number
    &&& s.num_rows == before.num_rows + read
    &&& s.offsets.len() <= before.offsets.len() + read * columns + s.current_field
    &&& before.record_offsets_start <= s.record_offsets_start <= before.offsets.len() + read
        * columns
    &&& s.record_offsets_start <= before.offsets.len() + to_read * columns
    &&& 1 <= s.record_offsets_start <= s.offsets.len()
    &&& s.current_field + s.record_offsets_start <= before.current_field + s.offsets.len()
    &&& before.record_data_start <= s.record_data_start <= s.data.len()
    &&& s.data.len() <= before.data.len() + used
    &&& s.reader.pending <= before.reader.pending + used
    &&& before.kept_offsets().is_prefix_of(s.offsets)
    &&& before.kept_data().is_prefix_of(s.data)
    &&& before.laid_out() && before.synced() ==> s.laid_out() && s.synced()
    &&& before.bytes_tracked() ==> s.bytes_tracked()
    &&& at_end ==> used == input_len && sinks(s.reader)
}

/// What a read does to a decoder with a handler.
pub proof fn lemma_recovering_read(
    before: DecoderState,
    s: DecoderState,
    input: Seq<u8>,
    used: nat,
    to_read: nat,
    read: nat,
    at_end: bool,
    step: ReadStep,
)
    requires
        recovery_progress(before, s, input.len(), used, to_read, read, at_end),
        s.offsets_limit() <= usize::MAX,
        step == record_read(
            s.reader,
            input.skip(used as int),
            s.output_room(),
            s.limited_ends_room(),
        ),
        read_is_sound(
            s.reader,
            input.skip(used as int),
            s.output_room(),
            s.limited_ends_room(),
            step,
        ),
    ensures
        ({
            let t = s.after_read(step);
            let now = used + step.consumed;
            let consumed = input.skip(used as int).take(step.consumed as int);
            let (u, verdict) = t.recovering_verdict(consumed, step.result);
            let left = reads_left(
                (input.len() - used) as nat,
                s.output_room(),
                s.limited_ends_room(),
                at_end,
            );
            &&& t.current_field <= usize::MAX
            &&& t.offsets.len() <= s.offsets_size
            &&& t.offsets.len() <= s.offsets_limit()
            &&& t.data.len() <= s.data_size
            &&& t.data.len() <= before.data.len() + now
            &&& t.reader.pending <= before.reader.pending + now
            &&& t.current_field + t.record_offsets_start <= before.current_field + t.offsets.len()
            &&& t.record_offsets_start <= before.offsets.len() + to_read * before.num_columns
            &&& step.result == ReadResult::InputEmpty || step.result == ReadResult::End ==> now
                == input.len()
            &&& before.kept_offsets().is_prefix_of(u.offsets)
            &&& before.kept_data().is_prefix_of(u.data)
            &&& u.offsets_size <= greatest(
                before.offsets.len() + to_read * before.num_columns,
                u.offsets_limit(),
            )
            &&& verdict is Ok ==> u.stream_offset == s.stream_offset + step.consumed
            &&& verdict == Ok::<_, CsvError>(Reading::Exhausted) ==> {
                &&& before.laid_out() && before.synced() ==> u.laid_out() && u.synced()
                &&& before.bytes_tracked() ==> u.bytes_tracked()
            }
            &&& verdict == Ok::<_, CsvError>(Reading::OutputFull) ==> {
                let next = u.reserve_data((to_read - read) as nat);
                &&& next.data_size <= usize::MAX
                &&& recovery_progress(before, next, input.len(), now, to_read, read, at_end)
                &&& reads_left(
                    (input.len() - now) as nat,
                    next.output_room(),
                    next.limited_ends_room(),
                    at_end,
                ) < left
            }
            &&& verdict == Ok::<_, CsvError>(Reading::OffsetsGrown) ==> {
                &&& recovery_progress(before, u, input.len(), now, to_read, read, at_end)
                &&& reads_left(
                    (input.len() - now) as nat,
                    u.output_room(),
                    u.limited_ends_room(),
                    at_end,
                ) < left
            }
        }),
{
    let t = s.after_read(step);
    let now = used + step.consumed;
    let rest = input.skip(used as int);
    let consumed = rest.take(step.consumed as int);
    let (u, verdict) = t.recovering_verdict(consumed, step.result);
    if at_end {
        assert(rest =~= Seq::empty());
        assert(step.result == ReadResult::End);
    }
    lemma_prefix_add(before.kept_offsets(), s.offsets, step.ends);
    lemma_prefix_add(before.kept_data(), s.data, step.output);
    lemma_rows_left(read, to_read, before.num_columns);
    if before.laid_out() && before.synced() && step.result != ReadResult::Record {
        lemma_read_keeps_layout(s, rest, s.output_room(), s.limited_ends_room(), step);
        assert(u.laid_out() && u.synced());
    }
}

/// What becomes of a decoder with a handler once the handler let it go on after a record.
pub proof fn lemma_recovering_record(
    before: DecoderState,
    s: DecoderState,
    input: Seq<u8>,
    used: nat,
    to_read: nat,
    read: nat,
    at_end: bool,
    step: ReadStep,
)
    requires
        recovery_progress(before, s, input.len(), used, to_read, read, at_end),
        s.offsets_limit() <= usize::MAX,
        step == record_read(
            s.reader,
            input.skip(used as int),
            s.output_room(),
            s.limited_ends_room(),
        ),
        read_is_sound(
            s.reader,
            input.skip(used as int),
            s.output_room(),
            s.limited_ends_room(),
            step,
        ),
        step.result == ReadResult::Record,
    ensures
        ({
            let now = used + step.consumed;
            let u = s.after_read(step).track(input.skip(used as int).take(step.consumed as int));
            let next = u.settle_record();
            let read_now = if u.row_fits() {
                read + 1
            } else {
                read
            };
            let at_end_now = at_end || step.consumed == 0;
            &&& u.line_number < usize::MAX
            &&& u.num_rows < usize::MAX
            &&& u.offsets.len() + u.missing_fields() <= u.offsets_size
            &&& before.kept_offsets().is_prefix_of(next.offsets)
            &&& before.kept_data().is_prefix_of(next.data)
            &&& next.offsets_size <= greatest(
                before.offsets.len() + to_read * before.num_columns,
                next.offsets_limit(),
            )
            &&& next.num_rows == before.num_rows + read_now
            &&& before.line_number + read_now <= next.line_number
            &&& next.line_number <= before.line_number + input.len() + 1
            &&& next.data.len() <= before.data.len() + now
            &&& next.reader.pending <= before.reader.pending + now
            &&& next.offsets.len() == next.record_offsets_start
            &&& next.record_offsets_start <= before.offsets.len() + to_read * before.num_columns
            &&& before.laid_out() && before.synced() ==> next.laid_out() && next.synced()
            &&& before.bytes_tracked() ==> next.bytes_tracked()
            &&& !(u.row_fits() && (read_now == to_read || now == input.len())) ==> {
                &&& recovery_progress(
                    before,
                    next,
                    input.len(),
                    now,
                    to_read,
                    read_now,
                    at_end_now,
                )
                &&& reads_left(
                    (input.len() - now) as nat,
                    next.output_room(),
                    next.limited_ends_room(),
                    at_end_now,
                ) < reads_left(
                    (input.len() - used) as nat,
                    s.output_room(),
                    s.limited_ends_room(),
                    at_end,
                )
            }
        }),
{
    let t = s.after_read(step);
    let now = used + step.consumed;
    let rest = input.skip(used as int);
    let u = t.track(rest.take(step.consumed as int));
    let next = u.settle_record();
    if at_end {
        assert(rest =~= Seq::empty());
        assert(step.result == ReadResult::End);
    }
    lemma_prefix_add(before.kept_offsets(), s.offsets, step.ends);
    lemma_prefix_add(before.kept_data(), s.data, step.output);
    lemma_rows_left(read, to_read, before.num_columns);
    if u.row_fits() {
        lemma_prefix_add(
            before.kept_offsets(),
            u.offsets,
            Seq::new(u.missing_fields(), |i: int| u.offsets.last()),
        );
        if before.laid_out() && before.synced() {
            lemma_row_keeps_layout(s, rest, s.output_room(), s.limited_ends_room(), step);
            assert(next.offsets == t.complete_row().offsets);
            assert(next.laid_out() && next.synced());
        }
    } else {
        lemma_prefix_take(before.kept_offsets(), u.offsets, u.record_offsets_start as int);
        lemma_prefix_take(before.kept_data(), u.data, u.record_data_start as int);
        if before.laid_out() && before.synced() {
            lemma_skip_keeps_layout(s, rest, s.output_room(), s.limited_ends_room(), step);
            assert(next.laid_out() && next.synced());
        }
    }
}

/// The state and the verdict after a read with a handler.
pub open spec fn recovering_read(s: DecoderState, input: Seq<u8>, used: nat) -> (
    DecoderState,
    Result<Reading, CsvError>,
) {
    let rest = input.skip(used as int);
    let step = record_read(s.reader, rest, s.output_room(), s.limited_ends_room());
    s.after_read(step).recovering_verdict(rest.take(step.consumed as int), step.result)
}

/// After `said`, every outcome of decoding on from `s` is one of decoding from `start`.
#[verifier::opaque]
pub open spec fn leads_to<H: CsvRecordErrorHandler + ?Sized>(
    handler: &H,
    start: DecoderState,
    said: Seq<Notice>,
    s: DecoderState,
    input: Seq<u8>,
    used: nat,
    to_read: nat,
    read: nat,
    at_end: bool,
) -> bool {
    forall|told: Seq<Notice>, done: DecoderState, returned: Result<(usize, usize), DecodeError>|
        #[trigger]
        recovering_run(handler, s, input, used, to_read, read, at_end, told, done, returned)
            ==> recovering_run(
                handler,
                start,
                input,
                0,
                to_read,
                0,
                false,
                said + told,
                done,
                returned,
            )
}

/// Decoding that ends with a read.
pub proof fn lemma_leads_end<H: CsvRecordErrorHandler + ?Sized>(
    handler: &H,
    start: DecoderState,
    said: Seq<Notice>,
    s: DecoderState,
    input: Seq<u8>,
    used: nat,
    to_read: nat,
    read: nat,
    at_end: bool,
)
    requires
        leads_to(handler, start, said, s, input, used, to_read, read, at_end),
    ensures
        s.offsets_limit() > usize::MAX ==> recovering_run(
            handler,
            start,
            input,
            0,
            to_read,
            0,
            false,
            said,
            s,
            Err(DecodeError::Csv(CsvError::OffsetCapacityOverflow)),
        ),
        s.offsets_limit() <= usize::MAX ==> {
            let step = record_read(
                s.reader,
                input.skip(used as int),
                s.output_room(),
                s.limited_ends_room(),
            );
            let (t, verdict) = recovering_read(s, input, used);
            &&& verdict matches Err(error) ==> recovering_run(
                handler,
                start,
                input,
                0,
                to_read,
                0,
                false,
                said,
                t,
                Err(DecodeError::Csv(error)),
            )
            &&& verdict == Ok::<_, CsvError>(Reading::Exhausted) ==> recovering_run(
                handler,
                start,
                input,
                0,
                to_read,
                0,
                false,
                said,
                t,
                Ok((read as usize, (used + step.consumed) as usize)),
            )
        },
{
    reveal(leads_to);
    let step = record_read(
        s.reader,
        input.skip(used as int),
        s.output_room(),
        s.limited_ends_room(),
    );
    let (t, verdict) = recovering_read(s, input, used);
    let none = Seq::<Notice>::empty();
    assert(said + none =~= said);
    if s.offsets_limit() > usize::MAX {
        let returned = Err(DecodeError::Csv(CsvError::OffsetCapacityOverflow));
        assert(recovering_run(handler, s, input, used, to_read, read, at_end, none, s, returned));
    } else if verdict is Err {
        let returned = Err(DecodeError::Csv(verdict->Err_0));
        assert(recovering_run(handler, s, input, used, to_read, read, at_end, none, t, returned));
    } else if verdict == Ok::<_, CsvError>(Reading::Exhausted) {
        let returned = Ok((read as usize, (used + step.consumed) as usize));
        assert(recovering_run(handler, s, input, used, to_read, read, at_end, none, t, returned));
    }
}

/// The state that decoding goes on from after a read that ended no record.
pub open spec fn resumed(s: DecoderState, input: Seq<u8>, used: nat, left: nat) -> DecoderState {
    let (t, verdict) = recovering_read(s, input, used);
    if verdict == Ok::<_, CsvError>(Reading::OutputFull) {
        t.reserve_data(left)
    } else {
        t
    }
}

/// Decoding that goes on after a read that ended no record.
pub proof fn lemma_leads_on<H: CsvRecordErrorHandler + ?Sized>(
    handler: &H,
    start: DecoderState,
    said: Seq<Notice>,
    s: DecoderState,
    input: Seq<u8>,
    used: nat,
    to_read: nat,
    read: nat,
    at_end: bool,
)
    requires
        leads_to(handler, start, said, s, input, used, to_read, read, at_end),
        s.offsets_limit() <= usize::MAX,
        ({
            let step = record_read(
                s.reader,
                input.skip(used as int),
                s.output_room(),
                s.limited_ends_room(),
            );
            let verdict = recovering_read(s, input, used).1;
            let next = resumed(s, input, used, (to_read - read) as nat);
            &&& verdict == Ok::<_, CsvError>(Reading::OutputFull) || verdict == Ok::<_, CsvError>(
                Reading::OffsetsGrown,
            )
            &&& reads_left(
                (input.len() - (used + step.consumed)) as nat,
                next.output_room(),
                next.limited_ends_room(),
                at_end,
            ) < reads_left(
                (input.len() - used) as nat,
                s.output_room(),
                s.limited_ends_room(),
                at_end,
            )
        }),
    ensures
        ({
            let step = record_read(
                s.reader,
                input.skip(used as int),
                s.output_room(),
                s.limited_ends_room(),
            );
            let next = resumed(s, input, used, (to_read - read) as nat);
            leads_to(handler, start, said, next, input, used + step.consumed, to_read, read, at_end)
        }),
{
    reveal(leads_to);
    let step = record_read(
        s.reader,
        input.skip(used as int),
        s.output_room(),
        s.limited_ends_room(),
    );
    let next = resumed(s, input, used, (to_read - read) as nat);
    let now = used + step.consumed;
    assert forall|
        told: Seq<Notice>,
        done: DecoderState,
        returned: Result<(usize, usize), DecodeError>,
    | #[trigger]
        recovering_run(handler, next, input, now, to_read, read, at_end, told, done, returned)
        implies recovering_run(
            handler,
            start,
            input,
            0,
            to_read,
            0,
            false,
            said + told,
            done,
            returned,
        ) by {
        assert(recovering_run(
            handler,
            s,
            input,
            used,
            to_read,
            read,
            at_end,
            told,
            done,
            returned,
        ));
    }
}

/// Decoding that ends, or goes on, with a handler's reply to a record.
pub proof fn lemma_leads_past_record<H: CsvRecordErrorHandler + ?Sized>(
    handler: &H,
    start: DecoderState,
    said: Seq<Notice>,
    s: DecoderState,
    input: Seq<u8>,
    used: nat,
    to_read: nat,
    read: nat,
    at_end: bool,
    reply: Result<(), ArrowError>,
)
    requires
        leads_to(handler, start, said, s, input, used, to_read, read, at_end),
        s.offsets_limit() <= usize::MAX,
        recovering_read(s, input, used).1 == Ok::<_, CsvError>(Reading::Record),
        handler.answers(recovering_read(s, input, used).0.notice(), reply),
    ensures
        ({
            let step = record_read(
                s.reader,
                input.skip(used as int),
                s.output_room(),
                s.limited_ends_room(),
            );
            let now = used + step.consumed;
            let t = recovering_read(s, input, used).0;
            let said_now = said.push(t.notice());
            let next = t.settle_record();
            let read_now = if t.row_fits() {
                read + 1
            } else {
                read
            };
            let at_end_now = at_end || step.consumed == 0;
            match reply {
                Err(error) => recovering_run(
                    handler,
                    start,
                    input,
                    0,
                    to_read,
                    0,
                    false,
                    said_now,
                    t,
                    Err(DecodeError::Handler(error)),
                ),
                Ok(()) => if t.row_fits() && (read_now == to_read || now == input.len()) {
                    recovering_run(
                        handler,
                        start,
                        input,
                        0,
                        to_read,
                        0,
                        false,
                        said_now,
                        next,
                        Ok((read_now as usize, now as usize)),
                    )
                } else {
                    reads_left(
                        (input.len() - now) as nat,
                        next.output_room(),
                        next.limited_ends_room(),
                        at_end_now,
                    ) < reads_left(
                        (input.len() - used) as nat,
                        s.output_room(),
                        s.limited_ends_room(),
                        at_end,
                    ) ==> leads_to(
                        handler,
                        start,
                        said_now,
                        next,
                        input,
                        now,
                        to_read,
                        read_now,
                        at_end_now,
                    )
                },
            }
        }),
{
    reveal(leads_to);
    let step = record_read(
        s.reader,
        input.skip(used as int),
        s.output_room(),
        s.limited_ends_room(),
    );
    let now = used + step.consumed;
    let t = recovering_read(s, input, used).0;
    let one = seq![t.notice()];
    let said_now = said.push(t.notice());
    let next = t.settle_record();
    let read_now = if t.row_fits() {
        read + 1
    } else {
        read
    };
    let at_end_now = at_end || step.consumed == 0;
    assert(said + one =~= said_now);
    match reply {
        Err(error) => {
            let returned = Err(DecodeError::Handler(error));
            assert(recovering_run(
                handler,
                s,
                input,
                used,
                to_read,
                read,
                at_end,
                one,
                t,
                returned,
            ));
        },
        Ok(()) => {
            if t.row_fits() && (read_now == to_read || now == input.len()) {
                let returned = Ok((read_now as usize, now as usize));
                assert(recovering_run(
                    handler,
                    s,
                    input,
                    used,
                    to_read,
                    read,
                    at_end,
                    one,
                    next,
                    returned,
                ));
            } else if reads_left(
                (input.len() - now) as nat,
                next.output_room(),
                next.limited_ends_room(),
                at_end_now,
            ) < reads_left(
                (input.len() - used) as nat,
                s.output_room(),
                s.limited_ends_room(),
                at_end,
            ) {
                assert forall|
                    told: Seq<Notice>,
                    done: DecoderState,
                    returned: Result<(usize, usize), DecodeError>,
                | #[trigger]
                    recovering_run(
                        handler,
                        next,
                        input,
                        now,
                        to_read,
                        read_now,
                        at_end_now,
                        told,
                        done,
                        returned,
                    ) implies recovering_run(
                    handler,
                    start,
                    input,
                    0,
                    to_read,
                    0,
                    false,
                    said_now + told,
                    done,
                    returned,
                ) by {
                    assert((one + told).drop_first() =~= told);
                    assert(recovering_run(
                        handler,
                        s,
                        input,
                        used,
                        to_read,
                        read,
                        at_end,
                        one + told,
                        done,
                        returned,
                    ));
                    assert(said + (one + told) =~= said_now + told);
                }
            }
        },
    }
}

} // verus!
