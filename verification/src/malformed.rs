//! What becomes of a stream without its malformed records.

use crate::cuts::{
    behind, ends_once, is_fresh, lemma_finish_twice, lemma_first_input, lemma_session_is_stream,
    lemma_split_behind_mark, lemma_start, records_of, start_of,
};
use crate::handler::CsvRecordErrorHandler;
use crate::model::{strict_decode, DecoderState};
use crate::outcomes::lemma_valid_records_decode;
use crate::reader::{
    home, lemma_dependable, lemma_owes_record, rested, rests, starts_with_mark, ReadResult,
    ReaderState,
};
use crate::sessions::{
    is_session, keeps_records, lemma_all_taken, lemma_sessions_account, lemma_sessions_deliver,
    lemma_taken_of_both, Call, Stage,
};
use crate::skipping::{lemma_same_taking, lemma_taken_first};
use crate::stream::{
    completed, finish, full_read, lemma_can_read_on, lemma_full_read_of_front, lemma_made_of_both,
    lemma_split_bytes, lemma_split_leaves, lemma_split_of_pieces, made_of, split, SplitRecord,
    Unfinished,
};
use vstd::prelude::*;

verus! {

/// The bytes of a stream are those of its records and those of what is unfinished, to the end.
proof fn lemma_stream_bytes(reader: ReaderState, stream: Seq<u8>, ended: bool)
    requires
        start_of(reader, false).can_read(stream.len()),
    ensures
        ({
            let (records, last) = records_of(reader, false, stream, ended);
            made_of(records) + last.bytes == stream
        }),
{
    let start = start_of(reader, false);
    let (records, last) = split(start, stream);
    lemma_split_bytes(start, stream);
    assert(start.bytes + stream =~= stream);
    if ended {
        let (more, end) = finish(last);
        lemma_made_of_both(records, more);
        reveal_with_fuel(made_of, 2);
        if more.len() > 0 {
            assert(more.drop_first() =~= Seq::empty());
            assert(last.bytes + Seq::<u8>::empty() =~= last.bytes);
            assert(made_of(more) =~= last.bytes);
        }
        assert(made_of(records + more) + end.bytes =~= stream);
    }
}

/// A record that is split off its own bytes alone, from between two records.
pub open spec fn is_whole(between: ReaderState, record: SplitRecord) -> bool {
    split(Unfinished::nothing(between), record.bytes) == (
        seq![record],
        Unfinished::nothing(between),
    )
}

/// The records of a stream are whole.
proof fn lemma_records_are_whole(between: ReaderState, input: Seq<u8>)
    requires
        Unfinished::nothing(between).can_read(input.len()),
        between.pending == 0,
        rests(between),
        rested(between) == between,
    ensures
        ({
            let (records, last) = split(Unfinished::nothing(between), input);
            &&& forall|i: int| 0 <= i < records.len() ==> is_whole(between, #[trigger] records[i])
            &&& split(Unfinished::nothing(between), last.bytes) == (
                Seq::<SplitRecord>::empty(),
                last,
            )
        }),
    decreases input.len(),
{
    let start = Unfinished::nothing(between);
    let (records, last) = split(start, input);
    if input.len() > 0 {
        let step = full_read(between, input);
        lemma_can_read_on(start, input, 0);
        lemma_dependable(between, input, input.len() + 1, input.len() + 1);
        if step.result == ReadResult::Record {
            let front = input.take(step.consumed as int);
            let unread = input.skip(step.consumed as int);
            let record = start.after(step, front).record();
            assert(home(step.after) == home(between));
            assert(rested(step.after) == between);
            lemma_records_are_whole(between, unread);
            lemma_full_read_of_front(between, input, step.consumed as int);
            assert(record.bytes =~= front);
            assert(front.take(step.consumed as int) =~= front);
            assert(front.skip(step.consumed as int) =~= Seq::empty());
            reveal_with_fuel(split, 2);
            assert(split(start, front).0 =~= seq![record]);
            assert(is_whole(between, record));
            let (others, _) = split(start, unread);
            assert(records == seq![record] + others);
            assert forall|i: int| 0 <= i < records.len() implies is_whole(
                between,
                #[trigger] records[i],
            ) by {
                if i > 0 {
                    assert(records[i] == others[i - 1]);
                }
            }
        } else {
            assert(input.take(step.consumed as int) =~= input);
            assert(last.bytes =~= input);
        }
    }
}

/// Whole records can be put together to a stream.
proof fn lemma_whole_records(between: ReaderState, records: Seq<SplitRecord>, tail: Seq<u8>)
    requires
        Unfinished::nothing(between).can_read((made_of(records) + tail).len()),
        between.started,
        forall|i: int| 0 <= i < records.len() ==> is_whole(between, #[trigger] records[i]),
    ensures
        ({
            let (more, last) = split(Unfinished::nothing(between), tail);
            split(Unfinished::nothing(between), made_of(records) + tail) == (records + more, last)
        }),
    decreases records.len(),
{
    let start = Unfinished::nothing(between);
    let (more, _) = split(start, tail);
    if records.len() == 0 {
        assert(made_of(records) + tail =~= tail);
        assert(records + more =~= more);
    } else {
        let others = records.drop_first();
        let rest = made_of(others) + tail;
        assert(made_of(records) + tail =~= records[0].bytes + rest);
        assert(is_whole(between, records[0]));
        assert forall|i: int| 0 <= i < others.len() implies is_whole(between, #[trigger] others[i])
            by {
            assert(others[i] == records[i + 1]);
        }
        lemma_whole_records(between, others, tail);
        lemma_split_of_pieces(start, records[0].bytes, rest);
        assert(seq![records[0]] + (others + more) =~= records + more);
    }
}

proof fn lemma_taken_among(s: DecoderState, records: Seq<SplitRecord>)
    ensures
        made_of(s.taken(records)).len() <= made_of(records).len(),
        forall|i: int|
            0 <= i < s.taken(records).len() ==> records.contains(#[trigger] s.taken(records)[i])
                && s.takes(s.taken(records)[i]),
    decreases records.len(),
{
    if records.len() > 0 {
        let others = records.drop_first();
        lemma_taken_among(s, others);
        let taken = s.taken(records);
        if s.takes(records[0]) {
            assert(taken.drop_first() =~= s.taken(others));
        }
        assert forall|i: int| 0 <= i < taken.len() implies records.contains(#[trigger] taken[i])
            && s.takes(taken[i]) by {
            let k = if s.takes(records[0]) {
                i - 1
            } else {
                i
            };
            if k < 0 {
                assert(records[0] == taken[i]);
            } else {
                assert(taken[i] == s.taken(others)[k]);
                let j = choose|j: int| 0 <= j < others.len() && others[j] == taken[i];
                assert(records[j + 1] == taken[i]);
            }
        }
    }
}

/// A stream with the bytes of its malformed records cut out.
pub open spec fn without_malformed(s: DecoderState, marked: bool, stream: Seq<u8>) -> Seq<u8> {
    let (records, last) = records_of(s.reader, marked, stream, true);
    made_of(s.taken(records)) + last.bytes
}

/// Whether the byte order mark of a stream is still there when its malformed records are cut out. It
/// is part of the first record.
pub open spec fn keeps_mark(s: DecoderState, marked: bool, stream: Seq<u8>) -> bool {
    let (records, _) = records_of(s.reader, marked, stream, true);
    marked && (records.len() == 0 || s.takes(records[0]))
}

/// The records of a stream without its malformed records are its valid records, where no byte order
/// mark counts.
proof fn lemma_cut_unmarked(s: DecoderState, stream: Seq<u8>)
    requires
        is_fresh(s.reader),
        stream.len() <= usize::MAX,
    ensures
        without_malformed(s, false, stream).len() <= stream.len(),
        records_of(s.reader, false, without_malformed(s, false, stream), true).0 == s.taken(
            records_of(s.reader, false, stream, true).0,
        ),
{
    let between = rested(s.reader);
    let start = Unfinished::nothing(between);
    let (records, last) = split(start, stream);
    let (more, end) = finish(last);
    let all = records + more;
    lemma_start(s.reader, false, stream.len());
    lemma_stream_bytes(s.reader, stream, true);
    lemma_stream_bytes(s.reader, stream, false);
    lemma_split_leaves(start, stream, 0);
    lemma_dependable(s.reader, Seq::empty(), 1, 1);
    lemma_records_are_whole(between, stream);
    lemma_taken_among(s, records);
    lemma_taken_among(s, all);
    lemma_taken_of_both(s, records, more);
    let kept = s.taken(records);
    assert forall|i: int| 0 <= i < kept.len() implies is_whole(between, #[trigger] kept[i]) by {
        let k = choose|k: int| 0 <= k < records.len() && records[k] == kept[i];
        assert(is_whole(between, records[k]));
    }
    let tail = if more.len() > 0 && !s.takes(more[0]) {
        Seq::<u8>::empty()
    } else {
        last.bytes
    };
    if more.len() > 0 {
        assert(last.bytes + Seq::<u8>::empty() =~= last.bytes);
        assert(more.drop_first() =~= Seq::empty());
        lemma_made_of_both(kept, s.taken(more));
        reveal_with_fuel(made_of, 2);
        reveal_with_fuel(DecoderState::taken, 2);
        if s.takes(more[0]) {
            assert(s.taken(more) =~= more);
            assert(made_of(more) =~= last.bytes);
        } else {
            assert(s.taken(more) =~= Seq::empty());
        }
        assert(without_malformed(s, false, stream) =~= made_of(kept) + tail);
    } else {
        assert(more =~= Seq::empty());
        assert(kept + s.taken(more) =~= kept);
        assert(without_malformed(s, false, stream) =~= made_of(kept) + tail);
    }
    lemma_whole_records(between, kept, tail);
    let (left, rest) = split(start, tail);
    assert(kept + left =~= kept);
    assert(records_of(s.reader, false, without_malformed(s, false, stream), true).0 =~= kept
        + finish(rest).0);
    if more.len() > 0 && !s.takes(more[0]) {
        lemma_dependable(between, Seq::empty(), 1, 1);
        assert(finish(start).0 =~= Seq::empty());
    }
    assert(kept + finish(rest).0 =~= s.taken(all));
}

/// To the end of a stream, too, a byte order mark only adds to the bytes of the first record.
proof fn lemma_records_behind_mark(reader: ReaderState, stream: Seq<u8>)
    requires
        is_fresh(reader),
        stream.len() <= usize::MAX,
        starts_with_mark(stream),
    ensures
        records_of(reader, true, stream, true) == behind(
            stream.take(3),
            records_of(reader, false, stream.skip(3), true),
        ),
{
    lemma_split_behind_mark(reader, stream);
    let (records, last) = split(start_of(reader, true), stream);
    let (others, other_last) = split(start_of(reader, false), stream.skip(3));
    let (more, end) = finish(last);
    let (other_more, other_end) = finish(other_last);
    let got = records_of(reader, true, stream, true);
    let want = behind(stream.take(3), records_of(reader, false, stream.skip(3), true));
    if others.len() == 0 && more.len() > 0 {
        assert(last.bytes + Seq::<u8>::empty() =~= last.bytes);
        assert(other_last.bytes + Seq::<u8>::empty() =~= other_last.bytes);
    }
    assert(got.0 =~= want.0);
    assert(got.1 =~= want.1);
}

/// The records of a stream without its malformed records are its valid records.
pub proof fn lemma_records_without_malformed(s: DecoderState, marked: bool, stream: Seq<u8>)
    requires
        is_fresh(s.reader),
        stream.len() <= usize::MAX,
        marked ==> starts_with_mark(stream),
    ensures
        ({
            let cut = without_malformed(s, marked, stream);
            &&& cut.len() <= stream.len()
            &&& keeps_mark(s, marked, stream) ==> starts_with_mark(cut)
            &&& records_of(s.reader, keeps_mark(s, marked, stream), cut, true).0 == s.taken(
                records_of(s.reader, marked, stream, true).0,
            )
        }),
{
    if !marked {
        lemma_cut_unmarked(s, stream);
    } else {
        let mark = stream.take(3);
        let rest = stream.skip(3);
        let (records, last) = records_of(s.reader, true, stream, true);
        let (others, other_last) = records_of(s.reader, false, rest, true);
        let cut = without_malformed(s, true, stream);
        let other_cut = without_malformed(s, false, rest);
        lemma_cut_unmarked(s, rest);
        lemma_records_behind_mark(s.reader, stream);
        if records.len() > 0 {
            assert(records.drop_first() =~= others.drop_first());
            lemma_taken_first(s, records);
            lemma_taken_first(s, others);
            assert(s.takes(records[0]) == s.takes(others[0]));
        }
        if keeps_mark(s, true, stream) {
            if records.len() > 0 {
                let taken = s.taken(records);
                let other_taken = s.taken(others);
                assert(taken.drop_first() =~= other_taken.drop_first());
                assert(made_of(taken) =~= mark + made_of(other_taken));
                assert(taken =~= other_taken.update(0, records[0]));
            }
            assert(cut =~= mark + other_cut);
            assert(cut.take(3) =~= mark);
            assert(cut.skip(3) =~= other_cut);
            lemma_records_behind_mark(s.reader, cut);
            assert(records_of(s.reader, true, cut, true).0 =~= s.taken(records));
        }
    }
}

/// What is unfinished and has ended a field is completed by the end of the data.
proof fn lemma_unfinished_is_completed(between: ReaderState, input: Seq<u8>)
    requires
        Unfinished::nothing(between).can_read(input.len()),
    ensures
        ({
            let (_, last) = split(Unfinished::nothing(between), input);
            last.ends.len() > 0 ==> finish(last).0.len() > 0
        }),
    decreases input.len(),
{
    if input.len() > 0 {
        let start = Unfinished::nothing(between);
        let step = full_read(between, input);
        lemma_can_read_on(start, input, 0);
        if step.result == ReadResult::Record {
            lemma_unfinished_is_completed(rested(step.after), input.skip(step.consumed as int));
        } else {
            lemma_owes_record(between, input, input.len() + 1, input.len() + 1);
            assert(start.ends + step.ends =~= step.ends);
        }
    }
}

/// What is unfinished has ended fewer fields than the record that it becomes a part of.
proof fn lemma_unfinished_is_shorter(unfinished: Unfinished, input: Seq<u8>)
    requires
        unfinished.can_read(input.len()),
    ensures
        ({
            let (records, last) = split(unfinished, input);
            let (more, _) = finish(last);
            &&& records.len() > 0 ==> unfinished.ends.len() < records[0].ends.len()
            &&& records.len() == 0 ==> unfinished.ends.len() <= last.ends.len()
            &&& more.len() > 0 ==> last.ends.len() < more[0].ends.len()
        }),
{
    let (records, last) = split(unfinished, input);
    lemma_split_leaves(unfinished, input, 0);
    lemma_dependable(last.reader, Seq::empty(), 1, 1);
    if input.len() > 0 {
        lemma_dependable(unfinished.reader, input, input.len() + 1, input.len() + 1);
    }
}

/// Of a stream of valid records, every front part leaves unfinished no more than a front part of a
/// valid record.
proof fn lemma_front_of_valid(
    s: DecoderState,
    marked: bool,
    stream: Seq<u8>,
    n: int,
)
    requires
        is_fresh(s.reader),
        s.num_columns > 0,
        stream.len() <= usize::MAX,
        0 <= n <= stream.len(),
        marked ==> n == 0 || n >= 3,
        ({
            let (records, _) = records_of(s.reader, marked, stream, true);
            forall|i: int| 0 <= i < records.len() ==> s.takes(#[trigger] records[i])
        }),
    ensures
        ({
            let (records, last) = split(start_of(s.reader, marked), stream.take(n));
            &&& forall|i: int| 0 <= i < records.len() ==> s.takes(#[trigger] records[i])
            &&& last.ends.len() < s.num_columns
        }),
{
    let start = start_of(s.reader, marked);
    let front = stream.take(n);
    let back = stream.skip(n);
    lemma_start(s.reader, marked, stream.len());
    assert(front + back =~= stream);
    lemma_split_of_pieces(start, front, back);
    lemma_split_leaves(start, front, back.len());
    let (records, between) = split(start, front);
    let (others, last) = split(between, back);
    let (more, _) = finish(last);
    let all = records_of(s.reader, marked, stream, true).0;
    assert(all == records + others + more);
    assert forall|i: int| 0 <= i < records.len() implies s.takes(#[trigger] records[i]) by {
        assert(all[i] == records[i]);
    }
    lemma_unfinished_is_shorter(between, back);
    lemma_unfinished_is_completed(start.reader, stream);
    if others.len() > 0 {
        assert(all[records.len() as int] == others[0]);
    } else if more.len() > 0 {
        assert(all[records.len() as int] == more[0]);
    }
}

/// Whether an input is the next piece of a stream, or its end.
pub open spec fn reads_on(b: Stage, marked: bool, stream: Seq<u8>, input: Seq<u8>) -> bool {
    &&& if input.len() == 0 {
        b.fed == stream
    } else {
        !b.ended && (b.fed + input).is_prefix_of(stream)
    }
    &&& if b.state.reader.started {
        b.marked == marked
    } else {
        starts_with_mark(input) == marked
    }
}

/// Decoding a stream of valid records without a handler succeeds, piece by piece and at its end,
/// where records have fields.
pub proof fn lemma_valid_stream_decodes<H: CsvRecordErrorHandler + ?Sized>(
    calls: Seq<Call>,
    stages: Seq<Stage>,
    handler: Option<&H>,
    marked: bool,
    stream: Seq<u8>,
    input: Seq<u8>,
    to_read: nat,
)
    requires
        is_session(handler, calls, stages),
        ends_once(calls, stages),
        handler is None,
        stages[0].state.num_columns > 0,
        stream.len() <= usize::MAX,
        reads_on(stages.last(), marked, stream, input),
        stages.last().state.reader.pending + input.len() <= usize::MAX,
        0 < to_read <= usize::MAX,
        ({
            let s = stages[0].state;
            let (records, _) = records_of(s.reader, marked, stream, true);
            forall|i: int| 0 <= i < records.len() ==> s.takes(#[trigger] records[i])
        }),
    ensures
        strict_decode(stages.last().state, input, to_read).1 is Ok,
{
    let s = stages[0].state;
    let b = stages.last();
    let n = stages.len() - 1;
    let start = start_of(s.reader, marked);
    let all = records_of(s.reader, marked, stream, true).0;
    lemma_sessions_account(handler, calls, stages, n);
    lemma_session_is_stream(handler, calls, stages, n);
    lemma_start(s.reader, marked, stream.len());
    let (more, end) = completed(b.unfinished, input, input.len());
    assert(input.take(input.len() as int) =~= input);
    if input.len() > 0 {
        let len = (b.fed + input).len() as int;
        assert(stream.take(len) =~= b.fed + input);
        lemma_front_of_valid(s, marked, stream, len);
        let (records, last) = split(start, b.fed + input);
        if b.state.reader.started {
            lemma_split_of_pieces(start, b.fed, input);
            assert forall|i: int| 0 <= i < more.len() implies b.state.takes(#[trigger] more[i]) by {
                assert(records[b.records.len() + i] == more[i]);
            }
        } else {
            assert(b.fed + input =~= input);
            if !marked {
                lemma_first_input(s.reader, input, input.len());
            }
            assert forall|i: int| 0 <= i < more.len() implies b.state.takes(#[trigger] more[i]) by {
                assert(records[i] == more[i]);
            }
        }
        if more.len() < to_read {
            assert((to_read - more.len()) * s.num_columns >= s.num_columns) by (nonlinear_arith)
                requires
                    to_read > more.len(),
            ;
        }
    } else {
        let (records, last) = split(start, stream);
        if !b.state.reader.started {
            lemma_dependable(s.reader, Seq::empty(), 1, 1);
        } else if b.ended {
            lemma_split_leaves(start, stream, 0);
            lemma_finish_twice(last);
        } else {
            assert forall|i: int| 0 <= i < more.len() implies b.state.takes(#[trigger] more[i]) by {
                assert(all[records.len() + i] == more[i]);
            }
        }
    }
    lemma_valid_records_decode(b.state, b.unfinished, input, to_read);
}

/// Decoding a stream to its end with malformed records skipped delivers what decoding without a
/// handler delivers of the stream without its malformed records, which succeeds piece by piece and
/// at its end.
///
/// A byte order mark that is still there when the malformed records are cut out is in the first
/// input as a whole for both; and nothing is taken for one that only comes first by cutting.
pub proof fn lemma_skipping_is_cutting_out<H: CsvRecordErrorHandler + ?Sized>(
    handler: &H,
    calls: Seq<Call>,
    stages: Seq<Stage>,
    other_calls: Seq<Call>,
    other_stages: Seq<Stage>,
)
    requires
        is_session(Some(handler), calls, stages),
        is_session(None::<&H>, other_calls, other_stages),
        ends_once(calls, stages),
        ends_once(other_calls, other_stages),
        forall|k: int| 0 <= k < calls.len() ==> keeps_records(#[trigger] calls[k], stages[k]),
        forall|k: int|
            0 <= k < other_calls.len() ==> keeps_records(
                #[trigger] other_calls[k],
                other_stages[k],
            ),
        stages[0].state.reader == other_stages[0].state.reader,
        stages[0].state.num_columns == other_stages[0].state.num_columns,
        stages[0].state.truncated_rows == other_stages[0].state.truncated_rows,
        stages[0].state.num_columns > 0,
        stages.last().ended,
        stages.last().fed.len() <= usize::MAX,
    ensures
        ({
            let s = stages[0].state;
            let a = stages.last();
            let b = other_stages.last();
            let cut = without_malformed(s, a.marked, a.fed);
            let marked = keeps_mark(s, a.marked, a.fed);
            &&& forall|input: Seq<u8>, to_read: nat|
                reads_on(b, marked, cut, input) && b.state.reader.pending + input.len()
                    <= usize::MAX && 0 < to_read <= usize::MAX ==> (#[trigger] strict_decode(
                    b.state,
                    input,
                    to_read,
                )).1 is Ok
            &&& b.ended && b.fed == cut && b.marked == marked ==> {
                &&& a.given + a.state.rows() == b.given + b.state.rows()
                &&& a.rows == b.rows
            }
        }),
{
    let s = stages[0].state;
    let t = other_stages[0].state;
    let a = stages.last();
    let b = other_stages.last();
    let last = stages.len() - 1;
    let other_last = other_stages.len() - 1;
    let cut = without_malformed(s, a.marked, a.fed);
    let marked = keeps_mark(s, a.marked, a.fed);
    lemma_sessions_account(Some(handler), calls, stages, last);
    lemma_sessions_account(None::<&H>, other_calls, other_stages, other_last);
    lemma_sessions_deliver(Some(handler), calls, stages, last);
    lemma_sessions_deliver(None::<&H>, other_calls, other_stages, other_last);
    lemma_session_is_stream(Some(handler), calls, stages, last);
    lemma_records_without_malformed(s, a.marked, a.fed);
    let valid = s.taken(a.records);
    lemma_taken_among(s, a.records);
    lemma_all_taken(s, valid);
    lemma_same_taking(s, t, valid);
    assert forall|i: int| 0 <= i < valid.len() implies t.takes(#[trigger] valid[i]) by {
        assert(s.takes(valid[i]));
    }
    assert forall|input: Seq<u8>, to_read: nat|
        reads_on(b, marked, cut, input) && b.state.reader.pending + input.len() <= usize::MAX && 0
            < to_read <= usize::MAX implies (#[trigger] strict_decode(b.state, input, to_read)).1
        is Ok by {
        lemma_valid_stream_decodes(
            other_calls,
            other_stages,
            None::<&H>,
            marked,
            cut,
            input,
            to_read,
        );
    }
    if b.ended && b.fed == cut && b.marked == marked {
        lemma_session_is_stream(None::<&H>, other_calls, other_stages, other_last);
    }
}

} // verus!
