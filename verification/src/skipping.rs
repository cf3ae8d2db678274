//! Decoding with malformed records skipped.

use crate::error::{CsvError, DecodeError, MAX_RECOVERABLE_EXCESS_FIELDS};
use crate::handler::{CsvRecordErrorHandler, Notice};
use crate::layout::{lemma_rows_agree, lemma_skip_keeps_layout, row_base};
use crate::model::{reads_left, recovering_decode, recovering_run, DecoderState, Reading};
use crate::pieces::{
    can_run, lemma_absorb_twice, lemma_can_go_on, lemma_less_room, lemma_more_ends,
    lemma_more_room, lemma_one_row_less, roomy_read, roomy_run,
};
use crate::progress::recovering_read;
use crate::reader::{
    dependable, lemma_dependable, lemma_first_read, read_is_sound, record_read, rested, rests,
    sinks, starts_with_mark, ReadResult, ReadStep,
};
use crate::stream::{
    can_decode, completed, finish, lemma_full_read, lemma_full_read_of_front,
    lemma_holds_after_read, lemma_reads_as, lemma_rows_kept, lemma_same_rows, rows_of, split,
    SplitRecord, Unfinished,
};
use arrow_schema::ArrowError;
use vstd::prelude::*;

verus! {

impl DecoderState {
    /// The decoder without regard to how much room its buffers have.
    pub open spec fn plain(self) -> DecoderState {
        DecoderState { offsets_size: 0, data_size: 0, ..self }
    }

    /// How many more field ends there may be before the record being read is given up.
    pub open spec fn ends_left(self) -> nat {
        (self.offsets_limit() - self.offsets.len()) as nat
    }

    /// What is to be dropped of the record being read is no more than its fields.
    pub open spec fn can_drop(self) -> bool {
        &&& 0 < self.record_offsets_start <= self.offsets.len() <= self.record_offsets_start
            + self.current_field
        &&& self.record_data_start <= self.data.len()
        &&& self.offsets.len() <= self.offsets_limit()
    }

    /// There is room to count the field ends of `left` more records.
    pub open spec fn can_skip(self, left: nat) -> bool {
        &&& self.can_drop()
        &&& self.record_offsets_start + (left + 1) * self.num_columns
            + MAX_RECOVERABLE_EXCESS_FIELDS + 1 <= usize::MAX
    }

    /// The buffers hold what is in use of them, and `left` more records.
    pub open spec fn has_room_for(self, left: nat) -> bool {
        &&& self.data.len() <= self.data_size
        &&& self.offsets.len() <= self.offsets_size
        &&& self.record_offsets_start + left * self.num_columns <= self.offsets_size
    }
}

/// The decoder after it read `step` of `rest`.
pub open spec fn after_tracked_read(s: DecoderState, rest: Seq<u8>, step: ReadStep) -> DecoderState {
    s.after_read(step).track(rest.take(step.consumed as int))
}

/// Decodes `rest` up to `left` records, with enough room, with every record let pass and malformed
/// records skipped. Gives the last state, the numbers of records and bytes read and what a handler
/// is told, or nothing where decoding fails.
pub open spec fn lenient_run(s: DecoderState, rest: Seq<u8>, left: nat) -> Option<
    (DecoderState, nat, nat, Seq<Notice>),
>
    decreases rest.len(),
{
    let step = roomy_read(s.reader, rest, s.ends_left());
    let t = after_tracked_read(s, rest, step).plain();
    let next = t.settle_record();
    let row = if t.row_fits() {
        1nat
    } else {
        0
    };
    if t.stream_offset > usize::MAX {
        None
    } else {
        match step.result {
            ReadResult::InputEmpty | ReadResult::End => Some((t, 0, step.consumed, Seq::empty())),
            ReadResult::OutputFull | ReadResult::OutputEndsFull => None,
            ReadResult::Record => if row == left || row == 1 && step.consumed == rest.len() {
                Some((next, row, step.consumed, seq![t.notice()]))
            } else if step.consumed == rest.len() {
                Some(
                    (
                        DecoderState { reader: rested(next.reader), ..next },
                        row,
                        step.consumed,
                        seq![t.notice()],
                    ),
                )
            } else if 0 < step.consumed < rest.len() {
                match lenient_run(next, rest.skip(step.consumed as int), (left - row) as nat) {
                    Some((u, rows, bytes, told)) => Some(
                        (u, rows + row, bytes + step.consumed, seq![t.notice()] + told),
                    ),
                    None => None,
                }
            } else {
                None
            },
        }
    }
}

/// What a read and the record it ends leave.
pub proof fn lemma_skip_goes_on(
    s: DecoderState,
    rest: Seq<u8>,
    left: nat,
    output_room: nat,
    ends_room: nat,
)
    requires
        dependable(s.reader),
        s.reader.pending + rest.len() <= usize::MAX,
        left > 0,
        s.can_skip(left),
        ends_room <= s.ends_left(),
    ensures
        ({
            let step = record_read(s.reader, rest, output_room, ends_room);
            let t = after_tracked_read(s, rest, step);
            let next = t.settle_record();
            let row = if t.row_fits() {
                1nat
            } else {
                0
            };
            &&& dependable(t.reader)
            &&& t.reader.started
            &&& t.reader.pending <= s.reader.pending + step.consumed
            &&& t.can_skip(left)
            &&& next.can_skip((left - row) as nat)
            &&& next.offsets.len() == next.record_offsets_start <= s.record_offsets_start + row
                * s.num_columns
            &&& next.data.len() <= t.data.len()
            &&& next.reader == t.reader
        }),
{
    let step = record_read(s.reader, rest, output_room, ends_room);
    lemma_dependable(s.reader, rest, output_room, ends_room);
    lemma_one_row_less(left + 1, s.num_columns);
    assert(0 * s.num_columns == 0 && 1 * s.num_columns == s.num_columns) by (nonlinear_arith);
    assert(left * s.num_columns >= 0) by (nonlinear_arith);
}

/// What decoding leaves.
proof fn lemma_lenient_leaves(
    s: DecoderState,
    rest: Seq<u8>,
    left: nat,
)
    requires
        dependable(s.reader),
        s.reader.pending + rest.len() <= usize::MAX,
        rest.len() > 0,
        left > 0,
        s.can_skip(left),
        lenient_run(s, rest, left) is Some,
    ensures
        ({
            let (t, rows, bytes, _) = lenient_run(s, rest, left).unwrap();
            &&& dependable(t.reader)
            &&& t.reader.started
            &&& t.reader.pending <= s.reader.pending + bytes
            &&& rows <= left
            &&& bytes <= rest.len()
            &&& rows < left ==> bytes == rest.len()
            &&& t.num_columns == s.num_columns
            &&& t.can_skip((left - rows) as nat)
        }),
    decreases rest.len(),
{
    let step = roomy_read(s.reader, rest, s.ends_left());
    let t = after_tracked_read(s, rest, step).plain();
    let next = t.settle_record();
    lemma_dependable(s.reader, rest, rest.len() + 1, s.ends_left());
    lemma_skip_goes_on(s, rest, left, rest.len() + 1, s.ends_left());
    if step.result == ReadResult::Record {
        let row = if t.row_fits() {
            1nat
        } else {
            0
        };
        if step.consumed == rest.len() {
            lemma_dependable(next.reader, Seq::empty(), 1, 1);
        } else if row != left {
            lemma_lenient_leaves(
                next,
                rest.skip(step.consumed as int),
                (left - row) as nat,
            );
        }
    }
}

/// Where a read stopped for want of room, decoding goes on from there.
proof fn lemma_lenient_after_stop(
    s: DecoderState,
    next: DecoderState,
    rest: Seq<u8>,
    left: nat,
    output_room: nat,
    ends_room: nat,
)
    requires
        dependable(s.reader),
        s.reader.pending + rest.len() <= usize::MAX,
        left > 0,
        s.can_skip(left),
        ends_room <= s.ends_left(),
        ({
            let step = record_read(s.reader, rest, output_room, ends_room);
            &&& step.result != ReadResult::Record
            &&& step.consumed < rest.len()
            &&& next.plain() == after_tracked_read(s, rest, step).plain()
        }),
    ensures
        ({
            let step = record_read(s.reader, rest, output_room, ends_room);
            lenient_run(s, rest, left) == match lenient_run(
                next,
                rest.skip(step.consumed as int),
                left,
            ) {
                Some((t, rows, bytes, told)) => Some((t, rows, bytes + step.consumed, told)),
                None => None,
            }
        }),
{
    let step = record_read(s.reader, rest, output_room, ends_room);
    let roomy = roomy_read(s.reader, rest, s.ends_left());
    let unread = rest.skip(step.consumed as int);
    lemma_dependable(s.reader, rest, output_room, ends_room);
    lemma_less_room(s.reader, rest, output_room, ends_room, s.ends_left());
    assert(next.plain().offsets == next.offsets);
    assert(next.ends_left() == s.ends_left() - step.ends.len());
    let second = roomy_read(next.reader, unread, next.ends_left());
    lemma_dependable(next.reader, unread, unread.len() + 1, next.ends_left());
    lemma_absorb_twice(s, step, second);
    let front = rest.take(step.consumed as int);
    let back = unread.take(second.consumed as int);
    assert(rest.take(roomy.consumed as int) =~= front + back);
    assert(s.record_bytes + (front + back) =~= s.record_bytes + front + back);
    assert(after_tracked_read(s, rest, roomy).plain() == after_tracked_read(
        next,
        unread,
        second,
    ).plain());
    assert(rest.skip(roomy.consumed as int) =~= unread.skip(second.consumed as int));
}

/// What decoding may rely on.
pub open spec fn recovery_can_run(
    s: DecoderState,
    input: Seq<u8>,
    used: nat,
    to_read: nat,
    read: nat,
) -> bool {
    &&& dependable(s.reader)
    &&& used < input.len() <= usize::MAX
    &&& s.reader.pending + (input.len() - used) <= usize::MAX
    &&& read < to_read <= usize::MAX
    &&& s.can_skip((to_read - read) as nat)
    &&& s.has_room_for((to_read - read) as nat)
}

/// What becomes of a decoder when it goes on after a read.
proof fn lemma_recovery_next(s: DecoderState, input: Seq<u8>, used: nat, to_read: nat, read: nat)
    requires
        recovery_can_run(s, input, used, to_read, read),
    ensures
        ({
            let rest = input.skip(used as int);
            let step = record_read(s.reader, rest, s.output_room(), s.limited_ends_room());
            let now = used + step.consumed;
            let (t, verdict) = recovering_read(s, input, used);
            let left = reads_left(
                (input.len() - used) as nat,
                s.output_room(),
                s.limited_ends_room(),
                false,
            );
            let grown = t.reserve_data((to_read - read) as nat);
            let next = t.settle_record();
            let read_now = if t.row_fits() {
                read + 1
            } else {
                read
            };
            &&& s.offsets_limit() <= usize::MAX
            &&& s.limited_ends_room() <= s.ends_left()
            &&& verdict == Ok::<_, CsvError>(Reading::OutputFull) ==> {
                &&& step.consumed < rest.len()
                &&& recovery_can_run(grown, input, now, to_read, read)
                &&& reads_left(
                    (input.len() - now) as nat,
                    grown.output_room(),
                    grown.limited_ends_room(),
                    false,
                ) < left
            }
            &&& verdict == Ok::<_, CsvError>(Reading::OffsetsGrown) ==> {
                &&& step.consumed < rest.len()
                &&& recovery_can_run(t, input, now, to_read, read)
                &&& reads_left(
                    (input.len() - now) as nat,
                    t.output_room(),
                    t.limited_ends_room(),
                    false,
                ) < left
            }
            &&& verdict == Ok::<_, CsvError>(Reading::Record) ==> {
                &&& 0 < step.consumed <= rest.len()
                &&& now < input.len() && read_now < to_read ==> recovery_can_run(
                    next,
                    input,
                    now,
                    to_read,
                    read_now,
                )
                &&& reads_left(
                    (input.len() - now) as nat,
                    next.output_room(),
                    next.limited_ends_room(),
                    false,
                ) < left
            }
        }),
{
    let rest = input.skip(used as int);
    let left = (to_read - read) as nat;
    let step = record_read(s.reader, rest, s.output_room(), s.limited_ends_room());
    lemma_one_row_less(left + 1, s.num_columns);
    lemma_one_row_less(left, s.num_columns);
    assert(left * s.num_columns >= 0 && (left - 1) * s.num_columns >= 0) by (nonlinear_arith)
        requires
            left > 0,
    ;
    assert(0 * s.num_columns == 0 && 1 * s.num_columns == s.num_columns) by (nonlinear_arith);
    lemma_dependable(s.reader, rest, s.output_room(), s.limited_ends_room());
    lemma_skip_goes_on(s, rest, left, s.output_room(), s.limited_ends_room());
    lemma_less_room(
        s.reader,
        rest,
        s.output_room(),
        s.limited_ends_room(),
        s.ends_left(),
    );
    lemma_more_room(s.reader, rest, rest.len() + 1, s.ends_left());
    lemma_dependable(s.reader, rest, rest.len() + 1, s.ends_left());
}

/// How much room there is makes no difference: what decoding gives, decoding with enough room gives.
pub proof fn lemma_recovery_gives<H: CsvRecordErrorHandler + ?Sized>(
    handler: &H,
    s: DecoderState,
    input: Seq<u8>,
    used: nat,
    to_read: nat,
    read: nat,
    told: Seq<Notice>,
    done: DecoderState,
    rows: usize,
    bytes: usize,
)
    requires
        recovery_can_run(s, input, used, to_read, read),
        recovering_run(
            handler,
            s,
            input,
            used,
            to_read,
            read,
            false,
            told,
            done,
            Ok::<(usize, usize), DecodeError>((rows, bytes)),
        ),
    ensures
        ({
            let left = (to_read - read) as nat;
            &&& lenient_run(s, input.skip(used as int), left) matches Some(
                (t, more_rows, more_bytes, said),
            )
            &&& told == said
            &&& done.plain() == t.plain()
            &&& rows == read + more_rows
            &&& bytes == used + more_bytes
        }),
    decreases
            reads_left(
                (input.len() - used) as nat,
                s.output_room(),
                s.limited_ends_room(),
                false,
            ),
{
    let rest = input.skip(used as int);
    let left = (to_read - read) as nat;
    let step = record_read(s.reader, rest, s.output_room(), s.limited_ends_room());
    let now = used + step.consumed;
    let (t, verdict) = recovering_read(s, input, used);
    let returned = Ok::<(usize, usize), DecodeError>((rows, bytes));
    lemma_recovery_next(s, input, used, to_read, read);
    lemma_dependable(s.reader, rest, s.output_room(), s.limited_ends_room());
    lemma_less_room(
        s.reader,
        rest,
        s.output_room(),
        s.limited_ends_room(),
        s.ends_left(),
    );
    assert(rest.skip(step.consumed as int) =~= input.skip(now as int));
    match verdict {
        Ok(Reading::OutputFull) => {
            let next = t.reserve_data(left);
            assert(next.plain() == after_tracked_read(s, rest, step).plain());
            lemma_lenient_after_stop(
                s,
                next,
                rest,
                left,
                s.output_room(),
                s.limited_ends_room(),
            );
            lemma_recovery_gives(handler, next, input, now, to_read, read, told, done, rows, bytes);
        },
        Ok(Reading::OffsetsGrown) => {
            assert(t.plain() == after_tracked_read(s, rest, step).plain());
            lemma_lenient_after_stop(
                s,
                t,
                rest,
                left,
                s.output_room(),
                s.limited_ends_room(),
            );
            lemma_recovery_gives(handler, t, input, now, to_read, read, told, done, rows, bytes);
        },
        Ok(Reading::Record) => {
            let next = t.settle_record();
            let read_now = if t.row_fits() {
                read + 1
            } else {
                read
            };
            let reply = choose|reply: Result<(), ArrowError>| #[trigger]
                handler.answers(t.notice(), reply) && reply is Ok;
            assert(reply->Ok_0 == ());
            assert(told =~= seq![t.notice()] + told.drop_first());
            assert(t.plain().settle_record() == next.plain());
            if t.row_fits() && (read_now == to_read || now == input.len()) {
                assert(told =~= seq![t.notice()]);
            } else if now < input.len() {
                lemma_plain_start(next, input.skip(now as int), (to_read - read_now) as nat);
                lemma_recovery_gives(
                    handler,
                    next,
                    input,
                    now,
                    to_read,
                    read_now,
                    told.drop_first(),
                    done,
                    rows,
                    bytes,
                );
            } else {
                let after = told.drop_first();
                lemma_end_after_skip(
                    handler,
                    next,
                    input,
                    now,
                    to_read,
                    read_now,
                    false,
                    after,
                    done,
                    returned,
                );
                assert(told =~= seq![t.notice()]);
            }
        },
        _ => {},
    }
}

/// Where decoding with every record let pass succeeds, and the handler can do no other than let them
/// pass, decoding succeeds.
pub proof fn lemma_recovery_succeeds<H: CsvRecordErrorHandler + ?Sized>(
    handler: &H,
    s: DecoderState,
    input: Seq<u8>,
    used: nat,
    to_read: nat,
    read: nat,
    told: Seq<Notice>,
    done: DecoderState,
    returned: Result<(usize, usize), DecodeError>,
)
    requires
        recovery_can_run(s, input, used, to_read, read),
        lenient_run(s, input.skip(used as int), (to_read - read) as nat) matches Some(
            (_, _, _, said),
        ) && lets_pass(handler, said),
        recovering_run(handler, s, input, used, to_read, read, false, told, done, returned),
    ensures
        returned is Ok,
    decreases
            reads_left(
                (input.len() - used) as nat,
                s.output_room(),
                s.limited_ends_room(),
                false,
            ),
{
    let rest = input.skip(used as int);
    let left = (to_read - read) as nat;
    let step = record_read(s.reader, rest, s.output_room(), s.limited_ends_room());
    let now = used + step.consumed;
    let (t, verdict) = recovering_read(s, input, used);
    let (_, _, _, said) = lenient_run(s, rest, left).unwrap();
    lemma_recovery_next(s, input, used, to_read, read);
    lemma_dependable(s.reader, rest, s.output_room(), s.limited_ends_room());
    lemma_less_room(
        s.reader,
        rest,
        s.output_room(),
        s.limited_ends_room(),
        s.ends_left(),
    );
    lemma_no_read_error(s, input, used, to_read, read);
    assert(rest.skip(step.consumed as int) =~= input.skip(now as int));
    match verdict {
        Ok(Reading::OutputFull) => {
            let next = t.reserve_data(left);
            assert(next.plain() == after_tracked_read(s, rest, step).plain());
            lemma_lenient_after_stop(
                s,
                next,
                rest,
                left,
                s.output_room(),
                s.limited_ends_room(),
            );
            lemma_recovery_succeeds(
                handler,
                next,
                input,
                now,
                to_read,
                read,
                told,
                done,
                returned,
            );
        },
        Ok(Reading::OffsetsGrown) => {
            assert(t.plain() == after_tracked_read(s, rest, step).plain());
            lemma_lenient_after_stop(s, t, rest, left, s.output_room(), s.limited_ends_room());
            lemma_recovery_succeeds(handler, t, input, now, to_read, read, told, done, returned);
        },
        Ok(Reading::Record) => {
            let next = t.settle_record();
            let read_now = if t.row_fits() {
                read + 1
            } else {
                read
            };
            assert(said[0] == t.notice());
            assert(t.plain().settle_record() == next.plain());
            if t.row_fits() && (read_now == to_read || now == input.len()) {
            } else if now < input.len() {
                lemma_plain_start(next, input.skip(now as int), (to_read - read_now) as nat);
                let (_, _, _, others) = lenient_run(
                    next,
                    input.skip(now as int),
                    (to_read - read_now) as nat,
                ).unwrap();
                assert forall|i: int, reply: Result<(), ArrowError>|
                    0 <= i < others.len() && #[trigger] handler.answers(
                        others[i],
                        reply,
                    ) implies reply is Ok by {
                    assert(said[i + 1] == others[i]);
                }
                lemma_recovery_succeeds(
                    handler,
                    next,
                    input,
                    now,
                    to_read,
                    read_now,
                    told.drop_first(),
                    done,
                    returned,
                );
            } else {
                lemma_end_after_skip(
                    handler,
                    next,
                    input,
                    now,
                    to_read,
                    read_now,
                    false,
                    told.drop_first(),
                    done,
                    returned,
                );
            }
        },
        _ => {},
    }
}

/// A handler that is told these notices can do no other than let the records pass.
pub open spec fn lets_pass<H: CsvRecordErrorHandler + ?Sized>(
    handler: &H,
    told: Seq<Notice>,
) -> bool {
    forall|i: int, reply: Result<(), ArrowError>|
        0 <= i < told.len() && #[trigger] handler.answers(told[i], reply) ==> reply is Ok
}

/// Where decoding with enough room succeeds, no read fails.
proof fn lemma_no_read_error(
    s: DecoderState,
    input: Seq<u8>,
    used: nat,
    to_read: nat,
    read: nat,
)
    requires
        recovery_can_run(s, input, used, to_read, read),
        lenient_run(s, input.skip(used as int), (to_read - read) as nat) is Some,
    ensures
        recovering_read(s, input, used).1 is Ok,
{
    let rest = input.skip(used as int);
    let left = (to_read - read) as nat;
    let step = record_read(s.reader, rest, s.output_room(), s.limited_ends_room());
    let roomy = roomy_read(s.reader, rest, s.ends_left());
    lemma_recovery_next(s, input, used, to_read, read);
    lemma_dependable(s.reader, rest, s.output_room(), s.limited_ends_room());
    lemma_dependable(s.reader, rest, rest.len() + 1, s.ends_left());
    lemma_less_room(
        s.reader,
        rest,
        s.output_room(),
        s.limited_ends_room(),
        s.ends_left(),
    );
    if step.result != ReadResult::Record && step.consumed < rest.len() {
        let unread = rest.skip(step.consumed as int);
        lemma_dependable(
            step.after,
            unread,
            unread.len() + 1,
            (s.ends_left() - step.ends.len()) as nat,
        );
    }
    assert(step.consumed <= roomy.consumed);
    assert(left * s.num_columns >= s.num_columns) by (nonlinear_arith)
        requires
            left > 0,
    ;
    lemma_one_row_less(left + 1, s.num_columns);
}

/// How much room there is does not matter to decoding with enough room.
proof fn lemma_plain_start(
    s: DecoderState,
    rest: Seq<u8>,
    left: nat,
)
    ensures
        lenient_run(s.plain(), rest, left) == lenient_run(s, rest, left),
{
    let step = roomy_read(s.reader, rest, s.ends_left());
    assert(after_tracked_read(s.plain(), rest, step).plain() == after_tracked_read(
        s,
        rest,
        step,
    ).plain());
}

/// What the end of the input does after a skipped record.
pub proof fn lemma_end_after_skip<H: CsvRecordErrorHandler + ?Sized>(
    handler: &H,
    s: DecoderState,
    input: Seq<u8>,
    used: nat,
    to_read: nat,
    read: nat,
    at_end: bool,
    told: Seq<Notice>,
    done: DecoderState,
    returned: Result<(usize, usize), DecodeError>,
)
    requires
        dependable(s.reader),
        s.reader.pending <= usize::MAX,
        sinks(s.reader),
        used == input.len() <= usize::MAX,
        s.offsets_limit() <= usize::MAX,
        s.stream_offset <= usize::MAX,
    ensures
        recovering_run(handler, s, input, used, to_read, read, at_end, told, done, returned) <==> {
            &&& told.len() == 0
            &&& done == DecoderState { reader: rested(s.reader), ..s }
            &&& returned == Ok::<_, DecodeError>((read as usize, used as usize))
        },
{
    let rest = input.skip(used as int);
    let step = record_read(s.reader, rest, s.output_room(), s.limited_ends_room());
    assert(rest =~= Seq::empty());
    lemma_dependable(s.reader, rest, s.output_room(), s.limited_ends_room());
    assert(s.offsets + step.ends =~= s.offsets);
    assert(s.data + step.output =~= s.data);
    assert(s.record_bytes + rest.take(0) =~= s.record_bytes);
    assert(after_tracked_read(s, rest, step) == DecoderState { reader: rested(s.reader), ..s });
}

/// The two decoders hold the same records and the same of the record being read.
pub open spec fn same_table(a: DecoderState, b: DecoderState) -> bool {
    &&& a.reader == b.reader
    &&& a.num_columns == b.num_columns
    &&& a.truncated_rows == b.truncated_rows
    &&& a.line_number == b.line_number
    &&& a.offsets == b.offsets
    &&& a.current_field == b.current_field
    &&& a.num_rows == b.num_rows
    &&& a.data == b.data
}

/// A read that ends no record that is too long is the same whether or not malformed records are
/// skipped.
proof fn lemma_same_read(s: DecoderState, x: DecoderState, rest: Seq<u8>, left: nat)
    requires
        can_run(s, rest, left),
        x.can_skip(left),
        same_table(s, x),
        ({
            let step = roomy_read(s.reader, rest, s.ends_room());
            &&& step.result != ReadResult::OutputEndsFull
            &&& s.current_field + step.ends.len() < s.num_columns + MAX_RECOVERABLE_EXCESS_FIELDS
        }),
    ensures
        roomy_read(x.reader, rest, x.ends_left()) == roomy_read(s.reader, rest, s.ends_room()),
{
    let strict = s.ends_room();
    let lenient = x.ends_left();
    if strict <= lenient {
        lemma_more_ends(s.reader, rest, strict, lenient);
    } else if roomy_read(s.reader, rest, lenient).result != ReadResult::OutputEndsFull {
        lemma_more_ends(s.reader, rest, lenient, strict);
    } else {
        lemma_dependable(s.reader, rest, rest.len() + 1, lenient);
        lemma_less_room(s.reader, rest, rest.len() + 1, lenient, strict);
    }
}

/// Where no record is malformed, the same is decoded whether or not malformed records are skipped.
pub proof fn lemma_same_run(
    s: DecoderState,
    x: DecoderState,
    rest: Seq<u8>,
    left: nat,
)
    requires
        can_run(s, rest, left),
        x.can_skip(left),
        same_table(s, x),
        x.stream_offset + rest.len() <= usize::MAX,
        roomy_run(s, rest, left) matches Some((t, _, _)) && t.current_field < t.num_columns
            + MAX_RECOVERABLE_EXCESS_FIELDS,
    ensures
        ({
            let (t, rows, bytes) = roomy_run(s, rest, left).unwrap();
            &&& lenient_run(x, rest, left) matches Some((u, x_rows, x_bytes, told))
            &&& told.len() == rows
            &&& forall|i: int| 0 <= i < rows ==> #[trigger] told[i] is Record
            &&& same_table(t, u)
            &&& x_rows == rows
            &&& x_bytes == bytes
        }),
    decreases rest.len(),
{
    let step = roomy_read(s.reader, rest, s.ends_room());
    let t = s.after_read(step).bare();
    let u = after_tracked_read(x, rest, step).plain();
    lemma_dependable(s.reader, rest, rest.len() + 1, s.ends_room());
    lemma_same_read(s, x, rest, left);
    lemma_can_go_on(s, rest, left, rest.len() + 1);
    lemma_skip_goes_on(x, rest, left, rest.len() + 1, x.ends_left());
    if step.result == ReadResult::Record {
        assert(t.complete_row().offsets =~= u.settle_record().offsets);
        assert(same_table(t.complete_row(), u.settle_record()));
        if left != 1 && step.consumed < rest.len() {
            lemma_same_run(
                t.complete_row(),
                u.settle_record(),
                rest.skip(step.consumed as int),
                (left - 1) as nat,
            );
        }
    }
}

impl DecoderState {
    /// The records among `records` that have a number of fields to buffer them with.
    pub open spec fn taken(self, records: Seq<SplitRecord>) -> Seq<SplitRecord>
        decreases records.len(),
    {
        if records.len() == 0 {
            Seq::empty()
        } else {
            let others = self.taken(records.drop_first());
            if self.takes(records[0]) {
                seq![records[0]] + others
            } else {
                others
            }
        }
    }

    /// What a handler is told of a record.
    pub open spec fn notice_of(self, record: SplitRecord, line: nat, offset: nat) -> Notice {
        if self.takes(record) {
            Notice::Record { line_number: line, byte_offset: offset, record: record.bytes }
        } else {
            Notice::Malformed {
                line_number: line,
                byte_offset: offset,
                expected_fields: self.num_columns,
                actual_fields: record.ends.len(),
                record: record.bytes,
            }
        }
    }

    /// What a handler is told of records of which the first is on the given line and starts at the
    /// given offset.
    pub open spec fn notices_of(self, records: Seq<SplitRecord>, line: nat, offset: nat) -> Seq<
        Notice,
    >
        decreases records.len(),
    {
        if records.len() == 0 {
            Seq::empty()
        } else {
            seq![self.notice_of(records[0], line, offset)] + self.notices_of(
                records.drop_first(),
                line + 1,
                offset + records[0].bytes.len(),
            )
        }
    }

    /// The decoder keeps the bytes of what is unfinished, and knows where they start.
    pub open spec fn notes(self, unfinished: Unfinished) -> bool {
        &&& self.record_bytes == unfinished.bytes
        &&& self.bytes_tracked()
    }
}

/// How many bytes of a stream the records are made of.
pub open spec fn bytes_of(records: Seq<SplitRecord>) -> nat
    decreases records.len(),
{
    if records.len() == 0 {
        0
    } else {
        records[0].bytes.len() + bytes_of(records.drop_first())
    }
}

/// Dropping a malformed record leaves the buffered records.
proof fn lemma_holds_after_skip(
    s: DecoderState,
    unfinished: Unfinished,
    input: Seq<u8>,
    output_room: nat,
    ends_room: nat,
    step: ReadStep,
)
    requires
        s.holds(unfinished),
        s.synced(),
        read_is_sound(s.reader, input, output_room, ends_room, step),
        step.result == ReadResult::Record,
    ensures
        ({
            let next = s.after_read(step).skip_record();
            &&& next.holds(Unfinished::nothing(rested(step.after)))
            &&& next.synced()
            &&& next.rows() == s.rows()
        }),
{
    let next = s.after_read(step).skip_record();
    let base = row_base(s.offsets, s.num_columns, s.num_rows);
    lemma_skip_keeps_layout(s, input, output_room, ends_room, step);
    lemma_rows_agree(s.offsets, next.offsets, s.num_columns, s.num_rows);
    lemma_rows_kept(s, next);
    assert(next.partial_row() =~= Seq::empty());
    assert(next.data.skip(base as int) =~= Seq::empty());
    assert(next.rows() =~= s.rows());
}

/// A decoder with a handler that decodes `rest` buffers those of the records that it splits into
/// that have a number of fields to buffer them with, and tells the handler of all.
#[verifier::rlimit(60)]
proof fn lemma_lenient_splits(s: DecoderState, unfinished: Unfinished, rest: Seq<u8>, left: nat)
    requires
        dependable(s.reader),
        s.reader.pending + rest.len() <= usize::MAX,
        rest.len() > 0,
        left > 0,
        s.can_skip(left),
        s.stands_at(unfinished),
        lenient_run(s, rest, left) is Some,
    ensures
        ({
            let (t, rows, bytes, told) = lenient_run(s, rest, left).unwrap();
            let (records, last) = split(unfinished, rest.take(bytes as int));
            &&& s.taken(records).len() == rows
            &&& t.stands_at(last)
            &&& last.reader.started
            &&& t.num_rows == s.num_rows + rows
            &&& t.truncated_rows == s.truncated_rows
            &&& t.line_number == s.line_number + records.len()
            &&& !s.reader.started && starts_with_mark(rest) ==> bytes >= 3
            &&& s.notes(unfinished) ==> {
                &&& t.notes(last)
                &&& told == s.notices_of(records, s.line_number, s.record_byte_offset)
                &&& t.record_byte_offset == s.record_byte_offset + bytes_of(records)
            }
            &&& s.holds(unfinished) && s.synced() ==> {
                &&& t.holds(last)
                &&& t.synced()
                &&& t.rows() == s.rows() + rows_of(s.taken(records), s.num_columns)
            }
        }),
    decreases rest.len(),
{
    let step = roomy_read(s.reader, rest, s.ends_left());
    let read_state = s.after_read(step);
    let t = after_tracked_read(s, rest, step).plain();
    let next_state = t.settle_record();
    let nc = s.num_columns;
    lemma_dependable(s.reader, rest, rest.len() + 1, s.ends_left());
    lemma_reads_as(s.reader, unfinished.reader, rest, rest.len() + 1, s.ends_left());
    lemma_full_read(unfinished.reader, rest, s.ends_left());
    lemma_skip_goes_on(s, rest, left, rest.len() + 1, s.ends_left());
    if !s.reader.started {
        lemma_first_read(s.reader, rest, rest.len() + 1, s.ends_left());
    }
    let consumed = rest.take(step.consumed as int);
    let read = unfinished.after(step, consumed);
    let record = read.record();
    let row = if t.row_fits() {
        1nat
    } else {
        0
    };
    if s.holds(unfinished) && s.synced() {
        lemma_holds_after_read(
            s,
            unfinished,
            rest,
            rest.len() + 1,
            s.ends_left(),
            step,
            consumed,
        );
        lemma_same_rows(read_state, t);
        if step.result == ReadResult::Record {
            if t.row_fits() {
                lemma_same_rows(read_state.complete_row(), next_state);
                lemma_same_layout(read_state.complete_row(), next_state);
            } else {
                lemma_holds_after_skip(
                    s,
                    unfinished,
                    rest,
                    rest.len() + 1,
                    s.ends_left(),
                    step,
                );
                lemma_same_rows(read_state.skip_record(), next_state);
                lemma_same_layout(read_state.skip_record(), next_state);
            }
        } else {
            lemma_same_layout(read_state, t);
        }
    }
    let (_, _, bytes, told) = lenient_run(s, rest, left).unwrap();
    let front = rest.take(bytes as int);
    if step.result == ReadResult::Record {
        let next = Unfinished::nothing(rested(step.after));
        let unread = rest.skip(step.consumed as int);
        lemma_dependable(step.after, Seq::empty(), 1, 1);
        assert(s.takes(record) == t.row_fits());
        assert(s.notes(unfinished) ==> t.notice() == s.notice_of(
            record,
            s.line_number,
            s.record_byte_offset,
        ));
        if row == left || step.consumed == rest.len() {
            lemma_full_read_of_front(unfinished.reader, rest, bytes as int);
            assert(front.take(step.consumed as int) =~= consumed);
            assert(front.skip(step.consumed as int) =~= Seq::empty());
            reveal_with_fuel(split, 2);
            let records = seq![record];
            assert(split(unfinished, front).0 =~= records);
            lemma_taken_first(s, records);
            assert(records.drop_first() =~= Seq::empty());
            reveal_with_fuel(DecoderState::notices_of, 2);
            reveal_with_fuel(bytes_of, 2);
            assert(s.notices_of(records, s.line_number, s.record_byte_offset) =~= seq![
                s.notice_of(record, s.line_number, s.record_byte_offset),
            ]);
            if s.holds(unfinished) && s.synced() {
                lemma_rows_after(s, records);
                lemma_same_rows(
                    next_state,
                    DecoderState { reader: rested(next_state.reader), ..next_state },
                );
                lemma_rested_layout(next_state);
            }
        } else {
            lemma_lenient_splits(next_state, next, unread, (left - row) as nat);
            lemma_lenient_leaves(next_state, unread, (left - row) as nat);
            let (_, _, more, others_told) = lenient_run(
                next_state,
                unread,
                (left - row) as nat,
            ).unwrap();
            lemma_full_read_of_front(unfinished.reader, rest, bytes as int);
            assert(front.take(step.consumed as int) =~= consumed);
            assert(front.skip(step.consumed as int) =~= unread.take(more as int));
            let (others, _) = split(next, unread.take(more as int));
            let records = seq![record] + others;
            assert(split(unfinished, front).0 == records);
            assert(records.drop_first() =~= others);
            lemma_taken_first(s, records);
            lemma_same_taking(s, next_state, others);
            if s.notes(unfinished) {
                assert(next_state.notes(next));
                let offset = s.record_byte_offset + record.bytes.len();
                assert(next_state.record_byte_offset == offset);
                assert(others_told == s.notices_of(others, s.line_number + 1, offset));
                assert(told == seq![t.notice()] + others_told);
            }
            if s.holds(unfinished) && s.synced() {
                lemma_rows_after(s, records);
                assert(s.rows() + rows_of(s.taken(records), nc) =~= next_state.rows() + rows_of(
                    s.taken(others),
                    nc,
                ));
            }
        }
    } else {
        assert(front =~= rest);
        assert(s.rows() =~= s.rows() + rows_of(Seq::empty(), nc));
    }
}

/// The records taken of some are the first, if it is taken, and those taken of the others.
pub proof fn lemma_taken_first(s: DecoderState, records: Seq<SplitRecord>)
    requires
        records.len() > 0,
    ensures
        s.taken(records) == if s.takes(records[0]) {
            seq![records[0]] + s.taken(records.drop_first())
        } else {
            s.taken(records.drop_first())
        },
{
}

/// The rows of records are the first, if it is taken, and those of the others.
proof fn lemma_rows_after(s: DecoderState, records: Seq<SplitRecord>)
    requires
        records.len() > 0,
    ensures
        s.rows() + rows_of(s.taken(records), s.num_columns) == if s.takes(records[0]) {
            s.rows().push(records[0].fields(s.num_columns)) + rows_of(
                s.taken(records.drop_first()),
                s.num_columns,
            )
        } else {
            s.rows() + rows_of(s.taken(records.drop_first()), s.num_columns)
        },
{
    assert(s.rows() + rows_of(s.taken(records), s.num_columns) =~= if s.takes(records[0]) {
        s.rows().push(records[0].fields(s.num_columns)) + rows_of(
            s.taken(records.drop_first()),
            s.num_columns,
        )
    } else {
        s.rows() + rows_of(s.taken(records.drop_first()), s.num_columns)
    });
}

/// Which records are taken, and what is told of them, depends on the table's columns alone.
pub proof fn lemma_same_taking(a: DecoderState, b: DecoderState, records: Seq<SplitRecord>)
    requires
        a.num_columns == b.num_columns,
        a.truncated_rows == b.truncated_rows,
    ensures
        a.taken(records) == b.taken(records),
        forall|line: nat, offset: nat| #[trigger]
            a.notices_of(records, line, offset) == b.notices_of(records, line, offset),
    decreases records.len(),
{
    if records.len() > 0 {
        lemma_same_taking(a, b, records.drop_first());
        assert forall|line: nat, offset: nat| #[trigger]
            a.notices_of(records, line, offset) == b.notices_of(records, line, offset) by {
            assert(a.notices_of(
                records.drop_first(),
                line + 1,
                offset + records[0].bytes.len(),
            ) == b.notices_of(records.drop_first(), line + 1, offset + records[0].bytes.len()));
        }
    }
}

/// How the buffers are laid out depends on the buffers and the reader alone.
proof fn lemma_same_layout(a: DecoderState, b: DecoderState)
    requires
        a.reader == b.reader,
        a.offsets == b.offsets,
        a.data == b.data,
        a.num_columns == b.num_columns,
        a.num_rows == b.num_rows,
        a.current_field == b.current_field,
    ensures
        a.laid_out() == b.laid_out(),
        a.partial_row() == b.partial_row(),
{
}

/// A reader that rests is at rest in the same layout.
proof fn lemma_rested_layout(s: DecoderState)
    requires
        s.laid_out(),
        dependable(s.reader),
        s.reader.pending == 0,
        rests(s.reader),
    ensures
        (DecoderState { reader: rested(s.reader), ..s }).laid_out(),
        (DecoderState { reader: rested(s.reader), ..s }).partial_row() == s.partial_row(),
        s.synced() ==> (DecoderState { reader: rested(s.reader), ..s }).synced(),
{
    lemma_dependable(s.reader, Seq::empty(), 1, 1);
}

/// What decoding with a handler does to a decoder and tells the handler, from the records that it
/// completes.
pub open spec fn skips_to(
    s: DecoderState,
    unfinished: Unfinished,
    records: Seq<SplitRecord>,
    told: Seq<Notice>,
    t: DecoderState,
    last: Unfinished,
) -> bool {
    &&& t.stands_at(last)
    &&& last.reader.started
    &&& t.num_columns == s.num_columns
    &&& t.truncated_rows == s.truncated_rows
    &&& t.num_rows == s.num_rows + s.taken(records).len()
    &&& t.line_number == s.line_number + records.len()
    &&& s.notes(unfinished) ==> {
        &&& t.notes(last)
        &&& told == s.notices_of(records, s.line_number, s.record_byte_offset)
        &&& t.record_byte_offset == s.record_byte_offset + bytes_of(records)
    }
    &&& s.holds(unfinished) && s.synced() ==> {
        &&& t.holds(last)
        &&& t.synced()
        &&& t.rows() == s.rows() + rows_of(s.taken(records), s.num_columns)
    }
}

/// Where the end of the stream finds no room for a field end, there is room for it when the buffer
/// is enlarged.
pub proof fn lemma_end_without_room<H: CsvRecordErrorHandler + ?Sized>(
    handler: &H,
    s: DecoderState,
    to_read: nat,
    told: Seq<Notice>,
    done: DecoderState,
    returned: Result<(usize, usize), DecodeError>,
)
    requires
        can_decode(s, Seq::empty(), to_read),
        s.can_skip(to_read),
        s.stream_offset <= usize::MAX,
        s.offsets.len() <= s.offsets_size,
        record_read(s.reader, Seq::empty(), s.output_room(), s.limited_ends_room()).result
            == ReadResult::OutputEndsFull,
        recovering_run(handler, s, Seq::empty(), 0, to_read, 0, false, told, done, returned),
    ensures
        returned is Ok ==> s.offsets.len() < s.offsets_limit(),
        s.offsets.len() < s.offsets_limit() ==> {
            &&& s.offsets_size == s.offsets.len() < s.grow_offsets().offsets_size
            &&& recovering_run(
                handler,
                s.grow_offsets(),
                Seq::empty(),
                0,
                to_read,
                0,
                false,
                told,
                done,
                returned,
            )
        },
{
    let input = Seq::<u8>::empty();
    let step = record_read(s.reader, input, s.output_room(), s.limited_ends_room());
    assert(input.skip(0) =~= input);
    assert(input.take(0) =~= input);
    assert((to_read + 1) * s.num_columns >= 2 * s.num_columns) by (nonlinear_arith)
        requires
            to_read > 0,
    ;
    lemma_dependable(s.reader, input, s.output_room(), s.limited_ends_room());
    assert(s.offsets + step.ends =~= s.offsets);
    assert(s.data + step.output =~= s.data);
    assert(s.record_bytes + input =~= s.record_bytes);
    assert(s.after_read(step) == s);
    assert(s.track(input) == s);
}

/// Decoding the end of the stream with a handler.
#[verifier::rlimit(80)]
proof fn lemma_skipping_at_end<H: CsvRecordErrorHandler + ?Sized>(
    handler: &H,
    s: DecoderState,
    unfinished: Unfinished,
    to_read: nat,
    told: Seq<Notice>,
    done: DecoderState,
    returned: (usize, usize),
)
    requires
        can_decode(s, Seq::empty(), to_read),
        s.can_skip(to_read),
        s.stands_at(unfinished),
        s.offsets.len() <= s.offsets_size,
        recovering_run(
            handler,
            s,
            Seq::empty(),
            0,
            to_read,
            0,
            false,
            told,
            done,
            Ok::<_, DecodeError>(returned),
        ),
    ensures
        ({
            let (records, last) = finish(unfinished);
            &&& returned.0 == s.taken(records).len() <= 1
            &&& returned.1 == 0
            &&& skips_to(s, unfinished, records, told, done, last)
            &&& dependable(done.reader)
            &&& done.reader.started
            &&& done.reader.pending <= s.reader.pending
            &&& done.can_drop()
        }),
    decreases
            if s.offsets.len() < s.offsets_size {
                0nat
            } else {
                1
            },
{
    let input = Seq::<u8>::empty();
    let step = record_read(s.reader, input, s.output_room(), s.limited_ends_room());
    let end = record_read(unfinished.reader, input, 1, 1);
    let (records, last) = finish(unfinished);
    let t = after_tracked_read(s, input, step);
    assert(input.skip(0) =~= input);
    assert(input.take(0) =~= input);
    assert(1 * s.num_columns == s.num_columns) by (nonlinear_arith);
    lemma_one_row_less(to_read + 1, s.num_columns);
    lemma_dependable(s.reader, input, s.output_room(), s.limited_ends_room());
    lemma_dependable(s.reader, input, 1, 1);
    lemma_reads_as(s.reader, unfinished.reader, input, 1, 1);
    lemma_dependable(unfinished.reader, input, 1, 1);
    lemma_dependable(step.after, input, 1, 1);
    lemma_skip_goes_on(s, input, to_read, s.output_room(), s.limited_ends_room());
    assert(s.record_bytes + input =~= s.record_bytes);
    if step.result == ReadResult::OutputEndsFull {
        let grown = s.grow_offsets();
        lemma_end_without_room(handler, s, to_read, told, done, Ok(returned));
        lemma_same_rows(s, grown);
        lemma_same_layout(s, grown);
        lemma_same_taking(s, grown, records);
        lemma_skipping_at_end(handler, grown, unfinished, to_read, told, done, returned);
    } else if step.result == ReadResult::Record {
        let next = t.settle_record();
        let record = unfinished.after(end, input).record();
        let row = t.row_fits();
        assert(unfinished.bytes + input =~= unfinished.bytes);
        assert(records =~= seq![record]);
        assert(records.drop_first() =~= Seq::empty());
        lemma_taken_first(s, records);
        reveal_with_fuel(DecoderState::notices_of, 2);
        reveal_with_fuel(bytes_of, 2);
        assert(s.notices_of(records, s.line_number, s.record_byte_offset) =~= seq![
            s.notice_of(record, s.line_number, s.record_byte_offset),
        ]);
        if !row {
            lemma_end_after_skip(
                handler,
                next,
                input,
                0,
                to_read,
                0,
                true,
                told.drop_first(),
                done,
                Ok(returned),
            );
        }
        assert(told =~= seq![t.notice()]);
        if s.holds(unfinished) && s.synced() {
            lemma_holds_after_read(
                s,
                unfinished,
                input,
                s.output_room(),
                s.limited_ends_room(),
                step,
                input,
            );
            lemma_rows_after(s, records);
            if row {
                lemma_same_rows(s.after_read(step).complete_row(), next);
                lemma_same_layout(s.after_read(step).complete_row(), next);
            } else {
                lemma_holds_after_skip(
                    s,
                    unfinished,
                    input,
                    s.output_room(),
                    s.limited_ends_room(),
                    step,
                );
                lemma_same_rows(s.after_read(step).skip_record(), next);
                lemma_same_layout(s.after_read(step).skip_record(), next);
                lemma_same_rows(next, done);
                lemma_rested_layout(next);
            }
            assert(rows_of(s.taken(records), s.num_columns) + Seq::empty() =~= rows_of(
                s.taken(records),
                s.num_columns,
            ));
        }
    } else {
        assert(s.offsets + step.ends =~= s.offsets);
        assert(s.data + step.output =~= s.data);
        assert(told =~= Seq::empty());
        lemma_same_rows(s, done);
        assert(s.rows() =~= s.rows() + rows_of(Seq::empty(), s.num_columns));
    }
}

/// Decoding with a handler buffers those of the records that it completes that have a number of
/// fields to buffer them with, and tells the handler of all.
pub proof fn lemma_skipping_splits<H: CsvRecordErrorHandler + ?Sized>(
    handler: &H,
    s: DecoderState,
    unfinished: Unfinished,
    input: Seq<u8>,
    to_read: nat,
    told: Seq<Notice>,
    done: DecoderState,
    returned: (usize, usize),
)
    requires
        can_decode(s, input, to_read),
        s.can_skip(to_read),
        s.stands_at(unfinished),
        recovering_decode(
            handler,
            s,
            input,
            to_read,
            told,
            done,
            Ok::<_, DecodeError>(returned),
        ),
    ensures
        ({
            let (records, last) = completed(unfinished, input, returned.1 as nat);
            &&& returned.0 <= to_read
            &&& returned.1 <= input.len()
            &&& returned.0 < to_read ==> returned.1 == input.len()
            &&& returned.0 == s.taken(records).len()
            &&& !s.reader.started && starts_with_mark(input) ==> returned.1 >= 3
            &&& skips_to(s, unfinished, records, told, done, last)
            &&& dependable(done.reader)
            &&& done.reader.started
            &&& done.reader.pending <= s.reader.pending + returned.1
            &&& done.can_drop()
        }),
{
    let start = s.reserve_offsets(to_read).reserve_data(to_read);
    assert(to_read * s.num_columns >= s.num_columns) by (nonlinear_arith)
        requires
            to_read > 0,
    ;
    assert(1 * s.num_columns == s.num_columns) by (nonlinear_arith);
    lemma_one_row_less(to_read + 1, s.num_columns);
    assert(input.skip(0) =~= input);
    lemma_same_rows(s, start);
    let (records, last) = completed(unfinished, input, returned.1 as nat);
    lemma_same_taking(s, start, records);
    if input.len() > 0 {
        lemma_recovery_gives(
            handler,
            start,
            input,
            0,
            to_read,
            0,
            told,
            done,
            returned.0,
            returned.1,
        );
        lemma_lenient_leaves(start, input, to_read);
        lemma_lenient_splits(start, unfinished, input, to_read);
        let (lenient, _, _, _) = lenient_run(start, input, to_read).unwrap();
        assert(done.plain() == lenient.plain());
        assert(done.offsets == done.plain().offsets && lenient.offsets == lenient.plain().offsets);
        lemma_same_rows(done, lenient);
        lemma_same_layout(done, lenient);
    } else {
        assert(input =~= Seq::empty());
        lemma_skipping_at_end(handler, start, unfinished, to_read, told, done, returned);
    }
}

} // verus!
