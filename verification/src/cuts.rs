//! That it makes no difference how a stream is cut into pieces.

use crate::handler::CsvRecordErrorHandler;
use crate::pieces::lemma_more_room;
use crate::reader::{
    dependable, lemma_dependable, lemma_first_read, record_read, rested, rests, starts_with_mark,
    ReaderState,
};
use crate::sessions::{
    is_session, keeps_records, leads, lemma_decode_call, lemma_sessions_account,
    lemma_sessions_deliver, Call, Stage,
};
use crate::skipping::lemma_same_taking;
use crate::stream::{
    completed, finish, full_read, lemma_can_read_on, lemma_full_read, lemma_split_leaves,
    lemma_split_of_pieces, split, SplitRecord, Unfinished,
};
use vstd::prelude::*;

verus! {

/// What is unfinished at the start of a stream. Unless the stream is `marked`, nothing is taken for
/// a byte order mark.
pub open spec fn start_of(reader: ReaderState, marked: bool) -> Unfinished {
    if marked {
        Unfinished::nothing(reader)
    } else {
        Unfinished::nothing(rested(reader))
    }
}

/// The records of a stream that is read from its start, and what is unfinished behind them.
pub open spec fn records_of(reader: ReaderState, marked: bool, stream: Seq<u8>, ended: bool) -> (
    Seq<SplitRecord>,
    Unfinished,
) {
    let (records, last) = split(start_of(reader, marked), stream);
    if ended {
        let (more, end) = finish(last);
        (records + more, end)
    } else {
        (records, last)
    }
}

/// A reader that has not read.
pub open spec fn is_fresh(reader: ReaderState) -> bool {
    &&& dependable(reader)
    &&& !reader.started
    &&& reader.pending == 0
}

/// What a stream can be read from.
pub proof fn lemma_start(reader: ReaderState, marked: bool, len: nat)
    requires
        is_fresh(reader),
        len <= usize::MAX,
    ensures
        start_of(reader, marked).can_read(len),
        rests(rested(reader)),
        rested(rested(reader)) == rested(reader),
        rested(reader).started,
        rested(reader).pending == 0,
{
    lemma_dependable(reader, Seq::empty(), 1, 1);
}

/// The first of the records, or what is unfinished where there is none, with more bytes in front.
pub open spec fn behind(front: Seq<u8>, of: (Seq<SplitRecord>, Unfinished)) -> (
    Seq<SplitRecord>,
    Unfinished,
) {
    let (records, last) = of;
    if records.len() == 0 {
        (records, Unfinished { bytes: front + last.bytes, ..last })
    } else {
        (
            records.update(0, SplitRecord { bytes: front + records[0].bytes, ..records[0] }),
            last,
        )
    }
}

/// A byte order mark only adds to the bytes of the first record.
pub proof fn lemma_split_behind_mark(reader: ReaderState, stream: Seq<u8>)
    requires
        is_fresh(reader),
        stream.len() <= usize::MAX,
        starts_with_mark(stream),
    ensures
        split(start_of(reader, true), stream) == behind(
            stream.take(3),
            split(start_of(reader, false), stream.skip(3)),
        ),
{
    let mark = stream.take(3);
    let rest = stream.skip(3);
    let room = stream.len() + 1;
    let step = full_read(reader, stream);
    let between = rested(reader);
    lemma_start(reader, false, stream.len());
    lemma_dependable(reader, Seq::empty(), 1, 1);
    lemma_first_read(reader, stream, room, room);
    let later = record_read(between, rest, room, room);
    assert(step.consumed == later.consumed + 3);
    lemma_dependable(between, rest, room, room);
    assert(mark + rest =~= stream);
    if rest.len() == 0 {
        assert(rest =~= Seq::empty());
        assert(stream.take(step.consumed as int) =~= mark);
        assert(split(start_of(reader, true), stream) =~= behind(
            mark,
            split(start_of(reader, false), rest),
        ));
    } else {
        lemma_more_room(between, rest, room, room);
        lemma_full_read(between, rest, room);
        assert(later == full_read(between, rest));
        assert(stream.take(step.consumed as int) =~= mark + rest.take(later.consumed as int));
        assert(stream.skip(step.consumed as int) =~= rest.skip(later.consumed as int));
        lemma_can_read_on(start_of(reader, false), rest, 0);
        let got = split(start_of(reader, true), stream);
        let want = behind(mark, split(start_of(reader, false), rest));
        assert(got.0 =~= want.0);
        assert(got.1 =~= want.1);
    }
}

/// A byte order mark that a stream starts with is no part of any field.
pub proof fn lemma_mark_is_no_data(reader: ReaderState, stream: Seq<u8>, ended: bool)
    requires
        is_fresh(reader),
        stream.len() <= usize::MAX,
        starts_with_mark(stream),
    ensures
        ({
            let (records, last) = records_of(reader, true, stream, ended);
            let (others, other_last) = records_of(reader, false, stream.skip(3), ended);
            &&& records.len() == others.len()
            &&& forall|i: int|
                0 <= i < records.len() ==> (#[trigger] records[i]).ends == others[i].ends
                    && records[i].data == others[i].data
            &&& last.ends == other_last.ends
            &&& last.data == other_last.data
        }),
{
    lemma_split_behind_mark(reader, stream);
}

/// The end of a stream is the end, however often it is told.
pub proof fn lemma_finish_twice(unfinished: Unfinished)
    requires
        unfinished.can_read(0),
    ensures
        finish(finish(unfinished).1) == (Seq::<SplitRecord>::empty(), finish(unfinished).1),
        finish(unfinished).1.can_read(0),
{
    let step = record_read(unfinished.reader, Seq::empty(), 1, 1);
    lemma_dependable(unfinished.reader, Seq::empty(), 1, 1);
    lemma_dependable(step.after, Seq::empty(), 1, 1);
    lemma_dependable(rested(step.after), Seq::empty(), 1, 1);
}

/// What one more call adds to the records of the stream.
proof fn lemma_records_of_next(
    reader: ReaderState,
    marked: bool,
    fed: Seq<u8>,
    ended: bool,
    input: Seq<u8>,
    bytes: nat,
)
    requires
        is_fresh(reader),
        fed.len() + bytes <= usize::MAX,
        marked ==> fed.len() >= 3,
        bytes <= input.len(),
        ended ==> input.len() == 0,
    ensures
        ({
            let (records, last) = records_of(reader, marked, fed, ended);
            let (more, end) = completed(last, input, bytes);
            records_of(
                reader,
                marked,
                fed + input.take(bytes as int),
                ended || input.len() == 0,
            ) == (records + more, end)
        }),
{
    let start = start_of(reader, marked);
    let (records, last) = split(start, fed);
    let piece = input.take(bytes as int);
    lemma_start(reader, marked, fed.len() + bytes);
    lemma_split_leaves(start, fed, bytes);
    if input.len() == 0 {
        assert(fed + piece =~= fed);
        let (more, end) = finish(last);
        if ended {
            lemma_finish_twice(last);
            assert(records + more + Seq::<SplitRecord>::empty() =~= records + more);
        }
    } else {
        lemma_split_of_pieces(start, fed, piece);
    }
}

/// Whether no more data is decoded once the decoder was told the end of the data.
pub open spec fn ends_once(calls: Seq<Call>, stages: Seq<Stage>) -> bool {
    forall|k: int|
        0 <= k < calls.len() && stages[k].ended && #[trigger] calls[k] is Decode
            && calls[k]->to_read > 0 ==> calls[k]->input.len() == 0
}

/// The first input without a byte order mark.
pub proof fn lemma_first_input(reader: ReaderState, input: Seq<u8>, bytes: nat)
    requires
        is_fresh(reader),
        input.len() <= usize::MAX,
        bytes <= input.len(),
        !starts_with_mark(input),
        input.len() == 0 || bytes > 0,
    ensures
        completed(Unfinished::nothing(reader), input, bytes) == records_of(
            reader,
            false,
            input.take(bytes as int),
            input.len() == 0,
        ),
{
    let piece = input.take(bytes as int);
    lemma_dependable(reader, Seq::empty(), 1, 1);
    lemma_dependable(rested(reader), Seq::empty(), 1, 1);
    if input.len() == 0 {
        assert(piece =~= Seq::empty());
        assert(records_of(reader, false, piece, true).0 =~= Seq::empty());
    } else {
        lemma_first_read(reader, piece, piece.len() + 1, piece.len() + 1);
        assert(full_read(reader, piece) == full_read(rested(reader), piece));
    }
}

/// What the bytes that a decoder consumed complete is what the stream that they are completes.
pub proof fn lemma_session_is_stream<H: CsvRecordErrorHandler + ?Sized>(
    handler: Option<&H>,
    calls: Seq<Call>,
    stages: Seq<Stage>,
    i: int,
)
    requires
        is_session(handler, calls, stages),
        ends_once(calls, stages),
        0 <= i < stages.len(),
        stages[i].fed.len() <= usize::MAX,
    ensures
        ({
            let b = stages[i];
            let whole = records_of(stages[0].state.reader, b.marked, b.fed, b.ended);
            &&& b.records == whole.0
            &&& b.state.reader.started ==> b.unfinished == whole.1
        }),
    decreases i,
{
    let s = stages[0].state;
    lemma_sessions_account(handler, calls, stages, i);
    if i > 0 {
        let a = stages[i - 1];
        let b = stages[i];
        let call = calls[i - 1];
        lemma_sessions_account(handler, calls, stages, i - 1);
        assert(leads(handler, call, a, stages[i - 1 + 1]));
        if let Call::Decode { input, to_read, rows, bytes, told } = call {
            lemma_decode_call(handler, s, call, a, b);
            lemma_session_is_stream(handler, calls, stages, i - 1);
            if to_read > 0 {
                let piece = input.take(bytes as int);
                if a.state.reader.started {
                    lemma_records_of_next(
                        s.reader,
                        a.marked,
                        a.fed,
                        a.ended,
                        input,
                        bytes as nat,
                    );
                } else {
                    assert(a.fed + piece =~= piece);
                    if starts_with_mark(input) {
                        assert(a.records + split(a.unfinished, piece).0 =~= split(
                            a.unfinished,
                            piece,
                        ).0);
                    } else {
                        lemma_first_input(s.reader, input, bytes as nat);
                        let (more, _) = completed(a.unfinished, input, bytes as nat);
                        assert(a.records + more =~= more);
                    }
                }
            }
        } else {
            lemma_session_is_stream(handler, calls, stages, i - 1);
        }
    }
}

/// Two decoders with the same settings that were fed the same stream have delivered the same records
/// with the same totals, however the stream was cut into pieces, however many records each call
/// asked for and whenever records were given out between two records.
///
/// A byte order mark that the stream starts with is in the first input as a whole for both or for
/// neither.
pub proof fn lemma_pieces_are_irrelevant<G, H>(
    handler: Option<&G>,
    calls: Seq<Call>,
    stages: Seq<Stage>,
    other_handler: Option<&H>,
    other_calls: Seq<Call>,
    other_stages: Seq<Stage>,
) where G: CsvRecordErrorHandler + ?Sized, H: CsvRecordErrorHandler + ?Sized
    requires
        is_session(handler, calls, stages),
        is_session(other_handler, other_calls, other_stages),
        ends_once(calls, stages),
        ends_once(other_calls, other_stages),
        forall|k: int| 0 <= k < calls.len() ==> keeps_records(#[trigger] calls[k], stages[k]),
        forall|k: int|
            0 <= k < other_calls.len() ==> keeps_records(
                #[trigger] other_calls[k],
                other_stages[k],
            ),
        stages[0].state.reader == other_stages[0].state.reader,
        stages[0].state.num_columns == other_stages[0].state.num_columns,
        stages[0].state.truncated_rows == other_stages[0].state.truncated_rows,
        stages.last().fed == other_stages.last().fed,
        stages.last().fed.len() <= usize::MAX,
        stages.last().marked == other_stages.last().marked,
        stages.last().ended == other_stages.last().ended,
    ensures
        stages.last().given + stages.last().state.rows() == other_stages.last().given
            + other_stages.last().state.rows(),
        stages.last().rows == other_stages.last().rows,
        stages.last().bytes == other_stages.last().bytes == stages.last().fed.len(),
{
    let last = stages.len() - 1;
    let other_last = other_stages.len() - 1;
    lemma_sessions_account(handler, calls, stages, last);
    lemma_sessions_account(other_handler, other_calls, other_stages, other_last);
    lemma_sessions_deliver(handler, calls, stages, last);
    lemma_sessions_deliver(other_handler, other_calls, other_stages, other_last);
    lemma_session_is_stream(handler, calls, stages, last);
    lemma_session_is_stream(other_handler, other_calls, other_stages, other_last);
    lemma_same_taking(stages[0].state, other_stages[0].state, stages.last().records);
}

} // verus!
