//! When decoding succeeds, what it leaves when it does not, and that a handler changes nothing where
//! no record is malformed.

use crate::error::{DecodeError, MAX_RECOVERABLE_EXCESS_FIELDS};
use crate::handler::{CsvRecordErrorHandler, Notice};
use crate::model::{
    reads_left, recovering_decode, recovering_run, strict_decode, strict_run, DecoderState,
    Progress, Reading,
};
use crate::notices::lemma_told_of_records;
use crate::pieces::{
    can_run, lemma_absorb_twice, lemma_can_go_on, lemma_less_room, lemma_more_room,
    lemma_one_row_less, lemma_run_leaves, lemma_runs_agree, roomy_read, roomy_run,
};
use crate::progress::recovering_read;
use crate::reader::{
    dependable, lemma_dependable, record_read, rested, rests, ReadResult,
};
use crate::sessions::{
    is_session, leads, lemma_len_counts_records, lemma_sessions_account, Call, Stage,
};
use crate::skipping::{
    after_tracked_read, lemma_end_after_skip, lemma_end_without_room, lemma_recovery_gives,
    lemma_recovery_succeeds, lemma_same_run, lemma_same_taking, lemma_skip_goes_on,
    lemma_taken_first, lenient_run, lets_pass, same_table,
};
use crate::stream::{
    can_decode, completed, finish, full_read, lemma_can_read_on, lemma_full_read, lemma_reads_as,
    lemma_same_rows, split, SplitRecord, Unfinished,
};
use arrow_schema::ArrowError;
use vstd::prelude::*;

verus! {

impl DecoderState {
    /// How many of the records are taken before the first that is not.
    pub open spec fn leading(self, records: Seq<SplitRecord>) -> nat
        decreases records.len(),
    {
        if records.len() == 0 || !self.takes(records[0]) {
            0
        } else {
            1 + self.leading(records.drop_first())
        }
    }
}

/// How many records are buffered before decoding fails.
spec fn rows_before_failure(s: DecoderState, rest: Seq<u8>, left: nat) -> nat
    decreases rest.len(),
{
    let step = roomy_read(s.reader, rest, s.ends_room());
    let t = s.after_read(step).bare();
    if step.result == ReadResult::Record && t.row_fits() && left != 1 && 0 < step.consumed
        < rest.len() {
        1 + rows_before_failure(
            t.complete_row(),
            rest.skip(step.consumed as int),
            (left - 1) as nat,
        )
    } else {
        0
    }
}

proof fn lemma_bare_failure(s: DecoderState, rest: Seq<u8>, left: nat)
    ensures
        rows_before_failure(s.bare(), rest, left) == rows_before_failure(s, rest, left),
{
    let step = roomy_read(s.reader, rest, s.ends_room());
    assert(s.bare().after_read(step).bare() == s.after_read(step).bare());
}

/// How much room there is for field data makes no difference to decoding that fails.
proof fn lemma_failure(s: DecoderState, input: Seq<u8>, used: nat, to_read: nat, read: nat)
    requires
        used < input.len() <= usize::MAX,
        read < to_read <= usize::MAX,
        can_run(s, input.skip(used as int), (to_read - read) as nat),
        s.data.len() <= s.data_size,
        strict_run(s, input, used, to_read, read).1 is Err,
    ensures
        strict_run(s, input, used, to_read, read).0.num_rows == s.num_rows + rows_before_failure(
            s,
            input.skip(used as int),
            (to_read - read) as nat,
        ),
    decreases reads_left((input.len() - used) as nat, s.output_room(), 1, false),
{
    let rest = input.skip(used as int);
    let left = (to_read - read) as nat;
    let step = record_read(s.reader, rest, s.output_room(), s.ends_room());
    let roomy = roomy_read(s.reader, rest, s.ends_room());
    let now = used + step.consumed;
    let (t, verdict) = s.after_read(step).strict_verdict(step.result);
    lemma_dependable(s.reader, rest, s.output_room(), s.ends_room());
    lemma_less_room(s.reader, rest, s.output_room(), s.ends_room(), s.ends_room());
    lemma_more_room(s.reader, rest, rest.len() + 1, s.ends_room());
    lemma_can_go_on(s, rest, left, s.output_room());
    assert(rest.skip(step.consumed as int) =~= input.skip(now as int));
    match verdict {
        Ok(Progress::OutputFull) => {
            let next = t.reserve_data(left);
            let unread = input.skip(now as int);
            let second = roomy_read(
                step.after,
                unread,
                (s.ends_room() - step.ends.len()) as nat,
            );
            lemma_absorb_twice(s, step, second);
            assert(next.ends_room() == s.ends_room() - step.ends.len());
            assert(s.after_read(roomy).bare() == next.after_read(second).bare());
            lemma_dependable(next.reader, unread, unread.len() + 1, next.ends_room());
            assert(rest.skip(roomy.consumed as int) =~= unread.skip(second.consumed as int));
            lemma_failure(next, input, now, to_read, read);
        },
        Ok(Progress::Row) => {
            assert(t.bare() == s.after_read(step).bare().complete_row());
            if read + 1 < to_read && now < input.len() {
                lemma_failure(t, input, now, to_read, read + 1);
                lemma_bare_failure(t, input.skip(now as int), (left - 1) as nat);
            }
        },
        Err(_) => {
            if step.result == ReadResult::OutputEndsFull && step.consumed < rest.len() {
                let unread = input.skip(now as int);
                lemma_dependable(
                    step.after,
                    unread,
                    unread.len() + 1,
                    (s.ends_room() - step.ends.len()) as nat,
                );
            }
        },
        Ok(Progress::Exhausted) => {},
    }
}

/// Where the room for field ends runs out, the record being read has more fields than it may have.
proof fn lemma_ends_run_out(s: DecoderState, unfinished: Unfinished, rest: Seq<u8>, left: nat)
    requires
        can_run(s, rest, left),
        s.stands_at(unfinished),
        roomy_read(s.reader, rest, s.ends_room()).result == ReadResult::OutputEndsFull,
    ensures
        ({
            let full = full_read(unfinished.reader, rest);
            &&& full.ends.len() >= s.ends_room()
            &&& unfinished.ends.len() + full.ends.len() >= s.num_columns
            &&& full.result == ReadResult::Record ==> unfinished.ends.len() + full.ends.len()
                > s.num_columns
        }),
{
    let room = s.ends_room();
    let full = full_read(unfinished.reader, rest);
    lemma_one_row_less(left, s.num_columns);
    assert((left - 1) * s.num_columns >= 0) by (nonlinear_arith)
        requires
            left > 0,
    ;
    lemma_reads_as(s.reader, unfinished.reader, rest, rest.len() + 1, room);
    lemma_dependable(
        unfinished.reader,
        rest,
        rest.len() + 1,
        rest.len() + 1,
    );
    if room > 0 {
        let step = roomy_read(unfinished.reader, rest, room);
        lemma_full_read(unfinished.reader, rest, room);
        lemma_dependable(unfinished.reader, rest, rest.len() + 1, room);
        lemma_less_room(unfinished.reader, rest, rest.len() + 1, room, rest.len() + 1);
        if step.consumed < rest.len() {
            let unread = rest.skip(step.consumed as int);
            lemma_dependable(
                step.after,
                unread,
                unread.len() + 1,
                (rest.len() + 1 - step.ends.len()) as nat,
            );
        }
    }
}

/// Decoding that fails buffers the records before the first malformed one.
proof fn lemma_failure_splits(s: DecoderState, unfinished: Unfinished, rest: Seq<u8>, left: nat)
    requires
        can_run(s, rest, left),
        s.stands_at(unfinished),
        roomy_run(s, rest, left) is None,
    ensures
        rows_before_failure(s, rest, left) == s.leading(split(unfinished, rest).0),
    decreases rest.len(),
{
    let step = roomy_read(s.reader, rest, s.ends_room());
    let t = s.after_read(step).bare();
    let full = full_read(unfinished.reader, rest);
    let (records, _) = split(unfinished, rest);
    lemma_dependable(s.reader, rest, rest.len() + 1, s.ends_room());
    lemma_more_room(s.reader, rest, rest.len() + 1, s.ends_room());
    lemma_reads_as(s.reader, unfinished.reader, rest, rest.len() + 1, s.ends_room());
    lemma_full_read(unfinished.reader, rest, s.ends_room());
    lemma_can_go_on(s, rest, left, rest.len() + 1);
    lemma_can_read_on(unfinished, rest, 0);
    if step.result == ReadResult::OutputEndsFull {
        lemma_ends_run_out(s, unfinished, rest, left);
    } else {
        assert(step == full);
        let next = Unfinished::nothing(rested(step.after));
        let unread = rest.skip(step.consumed as int);
        lemma_dependable(step.after, Seq::empty(), 1, 1);
        let record = unfinished.after(step, rest.take(step.consumed as int)).record();
        let (others, _) = split(next, unread);
        assert(records == seq![record] + others);
        assert(records[0] == record);
        assert(records.drop_first() =~= others);
        if t.row_fits() {
            lemma_failure_splits(t.complete_row(), next, unread, (left - 1) as nat);
            lemma_same_leading(s, t.complete_row(), others);
        }
    }
}

proof fn lemma_same_leading(a: DecoderState, b: DecoderState, records: Seq<SplitRecord>)
    requires
        a.num_columns == b.num_columns,
        a.truncated_rows == b.truncated_rows,
    ensures
        a.leading(records) == b.leading(records),
    decreases records.len(),
{
    if records.len() > 0 {
        lemma_same_leading(a, b, records.drop_first());
    }
}

/// Decoding without a handler that fails has buffered the valid records before the one at fault, and
/// no other.
pub proof fn lemma_len_after_failure(
    s: DecoderState,
    unfinished: Unfinished,
    input: Seq<u8>,
    to_read: nat,
)
    requires
        can_decode(s, input, to_read),
        s.stands_at(unfinished),
        strict_decode(s, input, to_read).1 is Err,
    ensures
        strict_decode(s, input, to_read).0.num_rows == s.num_rows + s.leading(
            split(unfinished, input).0,
        ),
{
    let start = s.reserve_offsets(to_read).reserve_data(to_read);
    assert(to_read * s.num_columns >= s.num_columns) by (nonlinear_arith)
        requires
            to_read > 0,
    ;
    assert(input.skip(0) =~= input);
    if input.len() > 0 {
        lemma_runs_agree(start, input, 0, to_read, 0);
        lemma_failure(start, input, 0, to_read, 0);
        lemma_failure_splits(start, unfinished, input, to_read);
        lemma_same_leading(s, start, split(unfinished, input).0);
    } else {
        let step = record_read(start.reader, input, start.output_room(), start.ends_room());
        assert(input =~= Seq::empty());
        lemma_dependable(start.reader, input, start.output_room(), start.ends_room());
    }
}

/// How many of the notices are of valid records.
pub open spec fn valid_told(told: Seq<Notice>) -> nat
    decreases told.len(),
{
    if told.len() == 0 {
        0
    } else {
        valid_told(told.drop_first()) + if told[0] is Record {
            1nat
        } else {
            0
        }
    }
}

/// The notices of the records that the handler let pass.
pub open spec fn passed(
    told: Seq<Notice>,
    returned: Result<(usize, usize), DecodeError>,
) -> Seq<Notice> {
    match returned {
        Err(DecodeError::Handler(_)) => told.drop_last(),
        _ => told,
    }
}

proof fn lemma_run_counts_passed<H: CsvRecordErrorHandler + ?Sized>(
    handler: &H,
    s: DecoderState,
    input: Seq<u8>,
    used: nat,
    to_read: nat,
    read: nat,
    at_end: bool,
    told: Seq<Notice>,
    done: DecoderState,
    returned: Result<(usize, usize), DecodeError>,
)
    requires
        recovering_run(handler, s, input, used, to_read, read, at_end, told, done, returned),
    ensures
        done.num_rows == s.num_rows + valid_told(passed(told, returned)),
        returned matches Err(DecodeError::Handler(_)) ==> told.len() > 0,
    decreases
            reads_left(
                (input.len() - used) as nat,
                s.output_room(),
                s.limited_ends_room(),
                at_end,
            ),
{
    let rest = input.skip(used as int);
    let step = record_read(s.reader, rest, s.output_room(), s.limited_ends_room());
    let now = used + step.consumed;
    let (t, verdict) = recovering_read(s, input, used);
    if s.offsets_limit() <= usize::MAX {
        match verdict {
            Ok(Reading::OutputFull) => {
                let next = t.reserve_data((to_read - read) as nat);
                lemma_run_counts_passed(
                    handler,
                    next,
                    input,
                    now,
                    to_read,
                    read,
                    at_end,
                    told,
                    done,
                    returned,
                );
            },
            Ok(Reading::OffsetsGrown) => {
                lemma_run_counts_passed(
                    handler,
                    t,
                    input,
                    now,
                    to_read,
                    read,
                    at_end,
                    told,
                    done,
                    returned,
                );
            },
            Ok(Reading::Record) => {
                let next = t.settle_record();
                let read_now = if t.row_fits() {
                    read + 1
                } else {
                    read
                };
                let at_end_now = at_end || step.consumed == 0;
                let others = told.drop_first();
                let left = reads_left(
                    (input.len() - used) as nat,
                    s.output_room(),
                    s.limited_ends_room(),
                    at_end,
                );
                reveal_with_fuel(valid_told, 2);
                if reads_left(
                    (input.len() - now) as nat,
                    next.output_room(),
                    next.limited_ends_room(),
                    at_end_now,
                ) < left && recovering_run(
                    handler,
                    next,
                    input,
                    now,
                    to_read,
                    read_now,
                    at_end_now,
                    others,
                    done,
                    returned,
                ) {
                    lemma_run_counts_passed(
                        handler,
                        next,
                        input,
                        now,
                        to_read,
                        read_now,
                        at_end_now,
                        others,
                        done,
                        returned,
                    );
                    if returned matches Err(DecodeError::Handler(_)) {
                        assert(told.drop_last().drop_first() =~= others.drop_last());
                    }
                } else {
                    assert(told.len() == 1);
                    assert(told.drop_last() =~= Seq::empty());
                    assert(others =~= Seq::empty());
                }
            },
            _ => {},
        }
    }
}

/// Decoding with a handler, whether or not it fails, has buffered the valid records that the handler
/// let pass, and no other.
pub proof fn lemma_len_counts_passed<H: CsvRecordErrorHandler + ?Sized>(
    handler: &H,
    s: DecoderState,
    input: Seq<u8>,
    to_read: nat,
    told: Seq<Notice>,
    done: DecoderState,
    returned: Result<(usize, usize), DecodeError>,
)
    requires
        recovering_decode(handler, s, input, to_read, told, done, returned),
    ensures
        done.num_rows == s.num_rows + valid_told(passed(told, returned)),
{
    if to_read > 0 && s.offsets.len() + to_read * s.num_columns <= usize::MAX {
        lemma_run_counts_passed(
            handler,
            s.reserve_offsets(to_read).reserve_data(to_read),
            input,
            0,
            to_read,
            0,
            false,
            told,
            done,
            returned,
        );
    }
}

/// After a last call of decoding that fails, the number of buffered records is that of the valid
/// records completed since they were last given out or dropped: those of earlier calls, and those
/// before the record at fault, or those that the handler let pass.
pub proof fn lemma_len_over_failure<H: CsvRecordErrorHandler + ?Sized>(
    handler: Option<&H>,
    calls: Seq<Call>,
    stages: Seq<Stage>,
    before: int,
    input: Seq<u8>,
    to_read: nat,
    told: Seq<Notice>,
    done: DecoderState,
    error: DecodeError,
)
    requires
        is_session(handler, calls, stages),
        0 <= before < stages.len(),
        before == 0 || calls[before - 1] is Flush || calls[before - 1] is Clear,
        forall|k: int|
            before <= k < calls.len() ==> !(#[trigger] calls[k] is Flush) && !(calls[k] is Clear),
        can_decode(stages.last().state, input, to_read),
        match handler {
            None => strict_decode(stages.last().state, input, to_read) == (
                done,
                Err::<(usize, usize), _>(error),
            ),
            Some(handler) => recovering_decode(
                handler,
                stages.last().state,
                input,
                to_read,
                told,
                done,
                Err::<(usize, usize), _>(error),
            ),
        },
    ensures
        ({
            let s = stages[0].state;
            let now = stages.last();
            done.num_rows == s.taken(now.records).len() - s.taken(stages[before].records).len()
                + match handler {
                None => s.leading(split(now.unfinished, input).0),
                Some(_) => valid_told(passed(told, Err::<(usize, usize), _>(error))),
            }
        }),
{
    let s = stages[0].state;
    let now = stages.len() - 1;
    let last = stages.last().unfinished;
    lemma_sessions_account(handler, calls, stages, now);
    lemma_len_counts_records(handler, calls, stages, before, now);
    match handler {
        None => {
            lemma_len_after_failure(stages.last().state, last, input, to_read);
            lemma_same_leading(s, stages.last().state, split(last, input).0);
        },
        Some(handler) => {
            lemma_len_counts_passed(
                handler,
                stages.last().state,
                input,
                to_read,
                told,
                done,
                Err(error),
            );
        },
    }
}

/// Where the records up to the last one asked for are valid, and what is left unfinished before it
/// has no more fields than there is room for, decoding has all the room it needs.
proof fn lemma_run_succeeds(s: DecoderState, unfinished: Unfinished, rest: Seq<u8>, left: nat)
    requires
        can_run(s, rest, left),
        s.stands_at(unfinished),
        ({
            let (records, last) = split(unfinished, rest);
            &&& forall|i: int|
                0 <= i < records.len() && i < left ==> s.takes(#[trigger] records[i])
            &&& records.len() < left ==> last.ends.len() + records.len() * s.num_columns
                < s.current_field + s.ends_room()
        }),
    ensures
        roomy_run(s, rest, left) is Some,
    decreases rest.len(),
{
    let step = roomy_read(s.reader, rest, s.ends_room());
    let t = s.after_read(step).bare();
    let full = full_read(unfinished.reader, rest);
    let (records, last) = split(unfinished, rest);
    lemma_dependable(s.reader, rest, rest.len() + 1, s.ends_room());
    lemma_more_room(s.reader, rest, rest.len() + 1, s.ends_room());
    lemma_reads_as(s.reader, unfinished.reader, rest, rest.len() + 1, s.ends_room());
    lemma_full_read(unfinished.reader, rest, s.ends_room());
    lemma_can_go_on(s, rest, left, rest.len() + 1);
    lemma_can_read_on(unfinished, rest, 0);
    let record = unfinished.after(full, rest.take(full.consumed as int)).record();
    if full.result == ReadResult::Record {
        assert(records[0] == record);
    }
    assert(0 * s.num_columns == 0) by (nonlinear_arith);
    if step.result == ReadResult::OutputEndsFull {
        lemma_ends_run_out(s, unfinished, rest, left);
    } else {
        assert(step == full);
        if step.result == ReadResult::Record && left != 1 && step.consumed < rest.len() {
            let next = Unfinished::nothing(rested(step.after));
            let unread = rest.skip(step.consumed as int);
            lemma_dependable(step.after, Seq::empty(), 1, 1);
            let (others, _) = split(next, unread);
            assert(records == seq![record] + others);
            assert forall|i: int|
                0 <= i < others.len() && i < left - 1 implies t.complete_row().takes(
                #[trigger] others[i],
            ) by {
                assert(others[i] == records[i + 1]);
            }
            lemma_one_row_less(records.len(), s.num_columns);
            lemma_run_succeeds(t.complete_row(), next, unread, (left - 1) as nat);
        }
    }
}

/// Decoding without a handler succeeds where the records of the input are valid up to the last one
/// asked for and, where the input ends before it, what is left unfinished has fewer fields than the
/// records still asked for; and at the end of the stream, where the record that the end completes is
/// valid.
pub proof fn lemma_valid_records_decode(
    s: DecoderState,
    unfinished: Unfinished,
    input: Seq<u8>,
    to_read: nat,
)
    requires
        can_decode(s, input, to_read),
        s.stands_at(unfinished),
        ({
            let (records, last) = completed(unfinished, input, input.len());
            &&& forall|i: int|
                0 <= i < records.len() && i < to_read ==> s.takes(#[trigger] records[i])
            &&& input.len() > 0 && records.len() < to_read ==> last.ends.len()
                < unfinished.ends.len() + (to_read - records.len()) * s.num_columns
        }),
    ensures
        strict_decode(s, input, to_read).1 is Ok,
{
    let start = s.reserve_offsets(to_read).reserve_data(to_read);
    assert(to_read * s.num_columns >= s.num_columns) by (nonlinear_arith)
        requires
            to_read > 0,
    ;
    assert(input.skip(0) =~= input);
    assert(input.take(input.len() as int) =~= input);
    if input.len() > 0 {
        let (records, last) = split(unfinished, input);
        assert forall|i: int|
            0 <= i < records.len() && i < to_read implies start.takes(#[trigger] records[i]) by {
            assert(s.takes(records[i]));
        }
        if records.len() < to_read {
            assert((to_read - records.len()) * s.num_columns + records.len() * s.num_columns
                == to_read * s.num_columns) by (nonlinear_arith);
        }
        lemma_run_succeeds(start, unfinished, input, to_read);
        lemma_runs_agree(start, input, 0, to_read, 0);
    } else {
        let step = record_read(start.reader, input, start.output_room(), start.ends_room());
        assert(input =~= Seq::empty());
        lemma_dependable(start.reader, input, start.output_room(), start.ends_room());
        lemma_dependable(start.reader, input, 1, 1);
        lemma_dependable(unfinished.reader, input, 1, 1);
        lemma_reads_as(s.reader, unfinished.reader, input, 1, 1);
        if record_read(start.reader, input, 1, 1).result == ReadResult::Record {
            let (records, _) = completed(unfinished, input, input.len());
            assert(unfinished.reader == s.reader);
            assert(records.len() == 1);
            assert(s.takes(records[0]));
        }
    }
}

/// Where up to the last record asked for none has too many fields to be skipped, nor what is left
/// unfinished before it, decoding with malformed records skipped has all the room it needs.
proof fn lemma_lenient_run_succeeds(
    s: DecoderState,
    unfinished: Unfinished,
    rest: Seq<u8>,
    left: nat,
)
    requires
        dependable(s.reader),
        s.reader.pending + rest.len() <= usize::MAX,
        rest.len() > 0,
        left > 0,
        s.can_skip(left),
        s.stream_offset + rest.len() <= usize::MAX,
        s.stands_at(unfinished),
        ({
            let (records, last) = split(unfinished, rest);
            &&& forall|i: int|
                0 <= i < records.len() && s.taken(records.take(i)).len() < left ==> (
                #[trigger] records[i]).ends.len() <= s.num_columns + MAX_RECOVERABLE_EXCESS_FIELDS
            &&& s.taken(records).len() < left ==> last.ends.len() < s.num_columns
                + MAX_RECOVERABLE_EXCESS_FIELDS
        }),
    ensures
        lenient_run(s, rest, left) is Some,
    decreases rest.len(),
{
    let room = s.ends_left();
    let step = roomy_read(s.reader, rest, room);
    let t = after_tracked_read(s, rest, step).plain();
    let full = full_read(unfinished.reader, rest);
    let (records, last) = split(unfinished, rest);
    lemma_dependable(s.reader, rest, rest.len() + 1, room);
    lemma_more_room(s.reader, rest, rest.len() + 1, room);
    lemma_reads_as(s.reader, unfinished.reader, rest, rest.len() + 1, room);
    lemma_full_read(unfinished.reader, rest, room);
    lemma_skip_goes_on(s, rest, left, rest.len() + 1, room);
    lemma_can_read_on(unfinished, rest, 0);
    lemma_dependable(unfinished.reader, rest, rest.len() + 1, rest.len() + 1);
    let record = unfinished.after(full, rest.take(full.consumed as int)).record();
    if full.result == ReadResult::Record {
        assert(records[0] == record);
        assert(records.take(0) =~= Seq::empty());
    }
    if step.result == ReadResult::OutputEndsFull {
        if room > 0 {
            lemma_dependable(unfinished.reader, rest, rest.len() + 1, room);
            lemma_less_room(unfinished.reader, rest, rest.len() + 1, room, rest.len() + 1);
            let unread = rest.skip(step.consumed as int);
            lemma_dependable(
                step.after,
                unread,
                unread.len() + 1,
                (rest.len() + 1 - step.ends.len()) as nat,
            );
        }
        assert(false);
    } else {
        assert(step == full);
        let row = if t.row_fits() {
            1nat
        } else {
            0
        };
        if step.result == ReadResult::Record && row != left && step.consumed < rest.len() {
            let next = Unfinished::nothing(rested(step.after));
            let unread = rest.skip(step.consumed as int);
            lemma_dependable(step.after, Seq::empty(), 1, 1);
            let (others, _) = split(next, unread);
            assert(records == seq![record] + others);
            let rest_state = t.settle_record();
            assert(records.drop_first() =~= others);
            lemma_taken_first(s, records);
            lemma_same_taking(s, rest_state, others);
            assert forall|i: int|
                0 <= i < others.len() && rest_state.taken(others.take(i)).len() < left
                    - row implies (#[trigger] others[i]).ends.len() <= s.num_columns
                + MAX_RECOVERABLE_EXCESS_FIELDS by {
                assert(others[i] == records[i + 1]);
                assert(records.take(i + 1)[0] == records[0]);
                assert(records.take(i + 1).drop_first() =~= others.take(i));
                lemma_taken_first(s, records.take(i + 1));
                lemma_same_taking(s, rest_state, others.take(i));
            }
            lemma_lenient_run_succeeds(rest_state, next, unread, (left - row) as nat);
        }
    }
}

/// At the end of the stream decoding succeeds where the record that the end completes has not too
/// many fields to be skipped.
proof fn lemma_end_skips<H: CsvRecordErrorHandler + ?Sized>(
    handler: &H,
    s: DecoderState,
    unfinished: Unfinished,
    to_read: nat,
    told: Seq<Notice>,
    done: DecoderState,
    returned: Result<(usize, usize), DecodeError>,
)
    requires
        can_decode(s, Seq::empty(), to_read),
        s.can_skip(to_read),
        s.stream_offset <= usize::MAX,
        s.offsets.len() <= s.offsets_size,
        s.stands_at(unfinished),
        forall|i: int|
            0 <= i < finish(unfinished).0.len() ==> (#[trigger] finish(
                unfinished,
            ).0[i]).ends.len() <= s.num_columns + MAX_RECOVERABLE_EXCESS_FIELDS,
        forall|notice: Notice, reply: Result<(), ArrowError>| #[trigger]
            handler.answers(notice, reply) ==> reply is Ok,
        recovering_run(handler, s, Seq::empty(), 0, to_read, 0, false, told, done, returned),
    ensures
        returned is Ok,
    decreases
            if s.offsets.len() < s.offsets_size {
                0nat
            } else {
                1
            },
{
    let input = Seq::<u8>::empty();
    let step = record_read(s.reader, input, s.output_room(), s.limited_ends_room());
    assert(input.skip(0) =~= input);
    assert(input.take(0) =~= input);
    lemma_one_row_less(to_read + 1, s.num_columns);
    assert(to_read * s.num_columns >= 0) by (nonlinear_arith);
    lemma_dependable(s.reader, input, s.output_room(), s.limited_ends_room());
    lemma_dependable(s.reader, input, 1, 1);
    lemma_dependable(step.after, input, 1, 1);
    lemma_reads_as(s.reader, unfinished.reader, input, 1, 1);
    lemma_skip_goes_on(s, input, to_read, s.output_room(), s.limited_ends_room());
    let read = after_tracked_read(s, input, step);
    if step.result == ReadResult::Record {
        if !read.row_fits() {
            lemma_end_after_skip(
                handler,
                read.settle_record(),
                input,
                0,
                to_read,
                0,
                true,
                told.drop_first(),
                done,
                returned,
            );
        }
    } else if step.result == ReadResult::OutputEndsFull {
        assert(!rests(s.reader));
        assert(unfinished.reader == s.reader);
        assert(finish(unfinished).0.len() == 1);
        assert(finish(unfinished).0[0].ends.len() > s.current_field);
        lemma_end_without_room(handler, s, to_read, told, done, returned);
        lemma_end_skips(handler, s.grow_offsets(), unfinished, to_read, told, done, returned);
    }
}

/// Decoding with a handler that lets every record pass succeeds where up to the last record asked
/// for none has too many fields to be skipped, nor what is left unfinished where the input ends
/// before it; and at the end of the stream.
///
/// The bytes of the stream can be counted.
pub proof fn lemma_short_records_skip<H: CsvRecordErrorHandler + ?Sized>(
    handler: &H,
    s: DecoderState,
    unfinished: Unfinished,
    input: Seq<u8>,
    to_read: nat,
    told: Seq<Notice>,
    done: DecoderState,
    returned: Result<(usize, usize), DecodeError>,
)
    requires
        can_decode(s, input, to_read),
        s.can_skip(to_read),
        s.stream_offset + input.len() <= usize::MAX,
        s.stands_at(unfinished),
        ({
            let (records, last) = completed(unfinished, input, input.len());
            &&& forall|i: int|
                0 <= i < records.len() && s.taken(records.take(i)).len() < to_read ==> (
                #[trigger] records[i]).ends.len() <= s.num_columns + MAX_RECOVERABLE_EXCESS_FIELDS
            &&& input.len() > 0 && s.taken(records).len() < to_read ==> last.ends.len()
                < s.num_columns + MAX_RECOVERABLE_EXCESS_FIELDS
        }),
        forall|notice: Notice, reply: Result<(), ArrowError>| #[trigger]
            handler.answers(notice, reply) ==> reply is Ok,
        recovering_decode(handler, s, input, to_read, told, done, returned),
    ensures
        returned is Ok,
{
    let start = s.reserve_offsets(to_read).reserve_data(to_read);
    assert(to_read * s.num_columns >= s.num_columns) by (nonlinear_arith)
        requires
            to_read > 0,
    ;
    lemma_one_row_less(to_read + 1, s.num_columns);
    assert(input.skip(0) =~= input);
    assert(input.take(input.len() as int) =~= input);
    if input.len() > 0 {
        let (records, _) = split(unfinished, input);
        lemma_same_taking(s, start, records);
        assert forall|i: int|
            0 <= i < records.len() && start.taken(records.take(i)).len() < to_read implies (
        #[trigger] records[i]).ends.len() <= s.num_columns + MAX_RECOVERABLE_EXCESS_FIELDS by {
            lemma_same_taking(s, start, records.take(i));
        }
        lemma_lenient_run_succeeds(start, unfinished, input, to_read);
        lemma_recovery_succeeds(handler, start, input, 0, to_read, 0, told, done, returned);
    } else {
        let (records, _) = completed(unfinished, input, input.len());
        assert(input =~= Seq::empty());
        assert forall|i: int| 0 <= i < finish(unfinished).0.len() implies (#[trigger] finish(
            unfinished,
        ).0[i]).ends.len() <= s.num_columns + MAX_RECOVERABLE_EXCESS_FIELDS by {
            assert(records[i] == finish(unfinished).0[i]);
            assert(records.take(0) =~= Seq::empty());
        }
        lemma_end_skips(handler, start, unfinished, to_read, told, done, returned);
    }
}

/// Of two decoders that hold the same table, one without a handler and one with a handler that lets
/// every valid record pass, the second returns what the first returns where that is a success, holds
/// the same table afterwards, and has told its handler of each record read and of no other.
///
/// The bytes of the stream can be counted, and the record being read is not already too long to be
/// skipped.
pub proof fn lemma_handler_changes_nothing<H: CsvRecordErrorHandler + ?Sized>(
    handler: &H,
    s: DecoderState,
    x: DecoderState,
    input: Seq<u8>,
    to_read: nat,
    told: Seq<Notice>,
    done: DecoderState,
    returned: Result<(usize, usize), DecodeError>,
)
    requires
        can_decode(s, input, to_read),
        same_table(s, x),
        x.can_skip(to_read),
        x.stream_offset + input.len() <= usize::MAX,
        forall|notice: Notice, reply: Result<(), ArrowError>|
            notice is Record && #[trigger] handler.answers(notice, reply) ==> reply is Ok,
        strict_decode(s, input, to_read).1 is Ok,
        strict_decode(s, input, to_read).0.current_field < s.num_columns
            + MAX_RECOVERABLE_EXCESS_FIELDS,
        recovering_decode(handler, x, input, to_read, told, done, returned),
    ensures
        returned == strict_decode(s, input, to_read).1,
        same_table(strict_decode(s, input, to_read).0, done),
        told.len() == strict_decode(s, input, to_read).1.unwrap().0,
        forall|i: int| 0 <= i < told.len() ==> #[trigger] told[i] is Record,
{
    let start = s.reserve_offsets(to_read).reserve_data(to_read);
    let other = x.reserve_offsets(to_read).reserve_data(to_read);
    let (t, _) = strict_decode(s, input, to_read);
    assert(to_read * s.num_columns >= s.num_columns) by (nonlinear_arith)
        requires
            to_read > 0,
    ;
    lemma_one_row_less(to_read + 1, s.num_columns);
    assert(input.skip(0) =~= input);
    if input.len() > 0 {
        lemma_runs_agree(start, input, 0, to_read, 0);
        lemma_run_leaves(start, input, to_read);
        let (strict, _, _) = roomy_run(start, input, to_read).unwrap();
        assert(t.bare() == strict.bare());
        assert(same_table(t, t.bare()) && same_table(strict, strict.bare()));
        lemma_same_run(start, other, input, to_read);
        let (lenient, _, _, said) = lenient_run(other, input, to_read).unwrap();
        assert(lets_pass(handler, said));
        lemma_recovery_succeeds(handler, other, input, 0, to_read, 0, told, done, returned);
        let (rows, bytes) = returned.unwrap();
        lemma_recovery_gives(
            handler,
            other,
            input,
            0,
            to_read,
            0,
            told,
            done,
            rows,
            bytes,
        );
        assert(same_table(done, done.plain()) && same_table(lenient, lenient.plain()));
    } else {
        let step = record_read(start.reader, input, start.output_room(), start.ends_room());
        let same = record_read(
            other.reader,
            input,
            other.output_room(),
            other.limited_ends_room(),
        );
        assert(input =~= Seq::empty());
        assert(input.take(0) =~= input);
        lemma_dependable(start.reader, input, start.output_room(), start.ends_room());
        lemma_dependable(other.reader, input, other.output_room(), other.limited_ends_room());
        lemma_dependable(other.reader, input, 1, 1);
        let read = after_tracked_read(other, input, same);
        if step.result == ReadResult::Record {
            assert(told =~= seq![read.notice()]);
            assert(start.after_read(step).complete_row().offsets
                =~= read.settle_record().offsets);
        } else {
            assert(start.offsets + step.ends =~= start.offsets);
            assert(start.data + step.output =~= start.data);
        }
    }
}

/// Whether two calls ask for the same.
pub open spec fn asks_same(call: Call, other: Call) -> bool {
    match (call, other) {
        (Call::Decode { input, to_read, .. }, Call::Decode { input: x, to_read: n, .. }) => input
            == x && to_read == n,
        (Call::Flush, Call::Flush) => true,
        (Call::Clear, Call::Clear) => true,
        _ => false,
    }
}

/// Whether two new decoders with the same settings, one without a handler and one with, are taken
/// through the same calls, all of them successful.
///
/// The handler lets every valid record pass, the bytes of the stream can be counted, and no record
/// that is being read between two calls is already too long to be skipped.
pub open spec fn run_alike<H: CsvRecordErrorHandler + ?Sized>(
    handler: &H,
    calls: Seq<Call>,
    stages: Seq<Stage>,
    other_calls: Seq<Call>,
    other_stages: Seq<Stage>,
) -> bool {
    &&& is_session(None::<&H>, calls, stages)
    &&& is_session(Some(handler), other_calls, other_stages)
    &&& same_table(stages[0].state, other_stages[0].state)
    &&& calls.len() == other_calls.len()
    &&& forall|k: int|
        0 <= k < calls.len() ==> asks_same(#[trigger] calls[k], other_calls[k]) && stages[k
            + 1].state.current_field < stages[0].state.num_columns + MAX_RECOVERABLE_EXCESS_FIELDS
            && (calls[k] is Decode ==> other_stages[k].fed.len() + calls[k]->input.len()
            <= usize::MAX)
    &&& forall|notice: Notice, reply: Result<(), ArrowError>|
        notice is Record && #[trigger] handler.answers(notice, reply) ==> reply is Ok
}

/// Over every sequence of the same successful calls, a decoder without a handler and one with a
/// handler that lets every valid record pass return and give out the same, hold the same table, and
/// the handler is told of each record read and of no other.
pub proof fn lemma_handler_changes_nothing_over_calls<H: CsvRecordErrorHandler + ?Sized>(
    handler: &H,
    calls: Seq<Call>,
    stages: Seq<Stage>,
    other_calls: Seq<Call>,
    other_stages: Seq<Stage>,
    i: int,
)
    requires
        run_alike(handler, calls, stages, other_calls, other_stages),
        0 <= i < stages.len(),
    ensures
        same_table(stages[i].state, other_stages[i].state),
        stages[i].given == other_stages[i].given,
        stages[i].rows == other_stages[i].rows,
        stages[i].bytes == other_stages[i].bytes,
        other_stages[i].told.len() == stages[i].rows,
        forall|k: int|
            0 <= k < other_stages[i].told.len() ==> #[trigger] other_stages[i].told[k] is Record,
    decreases i,
{
    if i > 0 {
        let (a, b) = (stages[i - 1], stages[i]);
        let (x, y) = (other_stages[i - 1], other_stages[i]);
        let call = calls[i - 1];
        lemma_handler_changes_nothing_over_calls(
            handler,
            calls,
            stages,
            other_calls,
            other_stages,
            i - 1,
        );
        lemma_sessions_account(None::<&H>, calls, stages, i - 1);
        lemma_sessions_account(Some(handler), other_calls, other_stages, i - 1);
        assert(leads(None::<&H>, call, a, stages[i - 1 + 1]));
        assert(leads(Some(handler), other_calls[i - 1], x, other_stages[i - 1 + 1]));
        assert(asks_same(call, other_calls[i - 1]));
        match call {
            Call::Decode { input, to_read, .. } => {
                if to_read > 0 {
                    let told = other_calls[i - 1]->told;
                    let returned = (other_calls[i - 1]->rows, other_calls[i - 1]->bytes);
                    lemma_told_of_records(other_stages[0].state, x.records, 1, 0);
                    assert(x.state.stream_offset == x.fed.len());
                    lemma_handler_changes_nothing(
                        handler,
                        a.state,
                        x.state,
                        input,
                        to_read,
                        told,
                        y.state,
                        Ok(returned),
                    );
                }
            },
            _ => {
                lemma_same_table_given_out(a.state, x.state);
            },
        }
    }
}

/// After the same successful calls, one more call of decoding that succeeds without a handler
/// succeeds with it. The same is returned, the same table is held, and the handler is told of each
/// record read and of no other.
///
/// The call keeps to the same limits.
pub proof fn lemma_handler_changes_no_call<H: CsvRecordErrorHandler + ?Sized>(
    handler: &H,
    calls: Seq<Call>,
    stages: Seq<Stage>,
    other_calls: Seq<Call>,
    other_stages: Seq<Stage>,
    input: Seq<u8>,
    to_read: nat,
    told: Seq<Notice>,
    done: DecoderState,
    returned: Result<(usize, usize), DecodeError>,
)
    requires
        run_alike(handler, calls, stages, other_calls, other_stages),
        0 < to_read <= usize::MAX,
        stages.last().state.reader.pending + input.len() <= usize::MAX,
        stages.last().fed.len() + input.len() <= usize::MAX,
        other_stages.last().state.record_offsets_start + (to_read + 1)
            * stages[0].state.num_columns + MAX_RECOVERABLE_EXCESS_FIELDS + 1 <= usize::MAX,
        strict_decode(stages.last().state, input, to_read).1 is Ok,
        strict_decode(stages.last().state, input, to_read).0.current_field
            < stages[0].state.num_columns + MAX_RECOVERABLE_EXCESS_FIELDS,
        recovering_decode(
            handler,
            other_stages.last().state,
            input,
            to_read,
            told,
            done,
            returned,
        ),
    ensures
        returned == strict_decode(stages.last().state, input, to_read).1,
        same_table(strict_decode(stages.last().state, input, to_read).0, done),
        told.len() == returned.unwrap().0,
        forall|i: int| 0 <= i < told.len() ==> #[trigger] told[i] is Record,
{
    let n = stages.len() - 1;
    let a = stages.last();
    let x = other_stages.last();
    lemma_handler_changes_nothing_over_calls(
        handler,
        calls,
        stages,
        other_calls,
        other_stages,
        n,
    );
    lemma_sessions_account(None::<&H>, calls, stages, n);
    lemma_sessions_account(Some(handler), other_calls, other_stages, n);
    lemma_told_of_records(other_stages[0].state, x.records, 1, 0);
    lemma_handler_changes_nothing(
        handler,
        a.state,
        x.state,
        input,
        to_read,
        told,
        done,
        returned,
    );
}

/// Two decoders that hold the same table give out the same records or the same error.
pub proof fn lemma_same_table_given_out(a: DecoderState, b: DecoderState)
    requires
        same_table(a, b),
    ensures
        a.rebase_fits() == b.rebase_fits(),
        a.rebased(a.rebase_count()).offsets == b.rebased(b.rebase_count()).offsets,
        forall|index: int| #[trigger] a.utf8_error(index) == b.utf8_error(index),
        a.rows() == b.rows(),
{
    lemma_same_rows(a, b);
}

} // verus!
