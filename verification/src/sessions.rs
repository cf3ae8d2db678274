//! What a decoder does over any sequence of calls in which decoding succeeds.

use crate::error::{DecodeError, MAX_RECOVERABLE_EXCESS_FIELDS};
use crate::handler::{CsvRecordErrorHandler, Notice};
use crate::model::{recovering_decode, strict_decode, DecoderState};
use crate::reader::{dependable, starts_with_mark};
use crate::skipping::{bytes_of, lemma_same_taking, lemma_skipping_splits};
use crate::stream::{
    completed, lemma_completed_bytes, lemma_decoding_splits, lemma_made_of_both, lemma_reads_as,
    made_of, rows_of, SplitRecord, Unfinished,
};
use vstd::prelude::*;

verus! {

/// A call of a decoder.
pub enum Call {
    /// Decoding that succeeded: what went in, the numbers of records and bytes that it returned, and
    /// what the handler was told.
    Decode { input: Seq<u8>, to_read: nat, rows: usize, bytes: usize, told: Seq<Notice> },
    /// Giving out the buffered records.
    Flush,
    /// Giving out the buffered records, without success.
    FailedFlush,
    /// Dropping the buffered records.
    Clear,
}

/// How far a sequence of calls has come.
#[verifier::ext_equal]
pub struct Stage {
    /// The decoder.
    pub state: DecoderState,
    /// The bytes that decoding consumed.
    pub fed: Seq<u8>,
    /// The records that these bytes, and the end of the data where it was told, completed.
    pub records: Seq<SplitRecord>,
    /// What they left unfinished.
    pub unfinished: Unfinished,
    /// Whether the first input that was decoded started with a byte order mark.
    pub marked: bool,
    /// Whether the decoder was told the end of the data.
    pub ended: bool,
    /// The fields of the records given out.
    pub given: Seq<Seq<Seq<u8>>>,
    /// What the handler was told.
    pub told: Seq<Notice>,
    /// The sum of the numbers of records that decoding returned.
    pub rows: nat,
    /// The sum of the numbers of bytes that decoding returned.
    pub bytes: nat,
    /// The value of `rows` when the buffered records were last given out or dropped.
    pub rows_before: nat,
}

impl Stage {
    /// Before the first call.
    pub open spec fn first(state: DecoderState) -> Stage {
        Stage {
            state,
            fed: Seq::empty(),
            records: Seq::empty(),
            unfinished: Unfinished::nothing(state.reader),
            marked: false,
            ended: false,
            given: Seq::empty(),
            told: Seq::empty(),
            rows: 0,
            bytes: 0,
            rows_before: 0,
        }
    }
}

/// A decoder as it is made, with a reader that has not read.
pub open spec fn is_new(s: DecoderState) -> bool {
    &&& dependable(s.reader)
    &&& !s.reader.started
    &&& s.reader.pending == 0
    &&& s.line_number == 1
    &&& s.offsets == seq![0usize]
    &&& s.current_field == 0
    &&& s.num_rows == 0
    &&& s.data.len() == 0
    &&& s.record_bytes.len() == 0
    &&& s.stream_offset == 0
    &&& s.record_byte_offset == 0
    &&& s.record_data_start == 0
    &&& s.record_offsets_start == 1
}

/// Whether decoding can return the given numbers and tell a handler, if there is one, the given
/// notices.
pub open spec fn decodes<H: CsvRecordErrorHandler + ?Sized>(
    handler: Option<&H>,
    s: DecoderState,
    input: Seq<u8>,
    to_read: nat,
    told: Seq<Notice>,
    t: DecoderState,
    returned: (usize, usize),
) -> bool {
    match handler {
        None => told.len() == 0 && strict_decode(s, input, to_read) == (
            t,
            Ok::<_, DecodeError>(returned),
        ),
        Some(handler) => recovering_decode(
            handler,
            s,
            input,
            to_read,
            told,
            t,
            Ok::<_, DecodeError>(returned),
        ),
    }
}

/// The states that giving out the buffered records can leave without success.
pub open spec fn fails_to_flush(s: DecoderState, t: DecoderState) -> bool {
    t == s || exists|count: nat| t == #[trigger] s.rebased(count)
}

/// Whether a call leads from one stage to the next. Where decoding has to count in a machine's
/// numbers, they suffice.
pub open spec fn leads<H: CsvRecordErrorHandler + ?Sized>(
    handler: Option<&H>,
    call: Call,
    a: Stage,
    b: Stage,
) -> bool {
    match call {
        Call::Decode { input, to_read, rows, bytes, told } => {
            &&& decodes(handler, a.state, input, to_read, told, b.state, (rows, bytes))
            &&& if to_read == 0 {
                b == a
            } else {
                let (records, unfinished) = completed(a.unfinished, input, bytes as nat);
                &&& to_read <= usize::MAX
                &&& a.state.reader.pending + input.len() <= usize::MAX
                &&& handler is Some ==> a.state.record_offsets_start + (to_read + 1)
                    * a.state.num_columns + MAX_RECOVERABLE_EXCESS_FIELDS + 1 <= usize::MAX
                &&& b == Stage {
                    state: b.state,
                    fed: a.fed + input.take(bytes as int),
                    records: a.records + records,
                    unfinished,
                    marked: a.marked || !a.state.reader.started && starts_with_mark(input),
                    ended: a.ended || input.len() == 0,
                    told: a.told + told,
                    rows: a.rows + rows as nat,
                    bytes: a.bytes + bytes as nat,
                    ..a
                }
            }
        },
        Call::Flush => {
            &&& a.state.current_field == 0
            &&& a.state.num_columns > 0
            &&& b == Stage {
                state: a.state.rebased(a.state.rebase_count()).cleared(),
                given: a.given + a.state.rows(),
                rows_before: a.rows,
                ..a
            }
        },
        Call::FailedFlush => {
            &&& fails_to_flush(a.state, b.state)
            &&& b == Stage { state: b.state, ..a }
        },
        Call::Clear => b == Stage { state: a.state.cleared(), rows_before: a.rows, ..a },
    }
}

/// Whether the calls lead a new decoder from stage to stage.
pub open spec fn is_session<H: CsvRecordErrorHandler + ?Sized>(
    handler: Option<&H>,
    calls: Seq<Call>,
    stages: Seq<Stage>,
) -> bool {
    &&& stages.len() == calls.len() + 1
    &&& is_new(stages[0].state)
    &&& stages[0] == Stage::first(stages[0].state)
    &&& forall|i: int|
        0 <= i < calls.len() ==> leads(handler, #[trigger] calls[i], stages[i], stages[i + 1])
}

/// What holds at every stage, in terms of the records that the bytes consumed so far complete.
pub open spec fn accounts(s: DecoderState, handled: bool, b: Stage) -> bool {
    &&& b.state.stands_at(b.unfinished)
    &&& dependable(b.state.reader)
    &&& if b.state.reader.started {
        b.unfinished.reader.started
    } else {
        b == Stage { state: b.state, ..Stage::first(s) } && b.state.reader == s.reader
    }
    &&& b.state.offsets.len() > 0
    &&& b.state.num_columns == s.num_columns
    &&& b.state.truncated_rows == s.truncated_rows
    &&& b.marked ==> starts_with_mark(b.fed)
    &&& made_of(b.records) + b.unfinished.bytes == b.fed
    &&& b.bytes == b.fed.len()
    &&& b.rows == s.taken(b.records).len()
    &&& b.state.num_rows + b.rows_before == b.rows
    &&& !handled ==> s.taken(b.records) == b.records && b.told.len() == 0
    &&& handled ==> {
        &&& b.state.can_drop()
        &&& b.state.line_number == 1 + b.records.len()
        &&& b.state.notes(b.unfinished)
        &&& b.state.record_byte_offset == bytes_of(b.records)
        &&& b.told == s.notices_of(b.records, 1, 0)
    }
}

/// What holds as long as nothing is dropped and records are given out only between two records.
pub open spec fn delivers(s: DecoderState, handled: bool, b: Stage) -> bool {
    &&& b.state.holds(b.unfinished)
    &&& handled ==> b.state.synced()
    &&& b.given + b.state.rows() == rows_of(s.taken(b.records), s.num_columns)
}

/// The records taken of two sequences.
pub proof fn lemma_taken_of_both(s: DecoderState, a: Seq<SplitRecord>, b: Seq<SplitRecord>)
    ensures
        s.taken(a + b) == s.taken(a) + s.taken(b),
    decreases a.len(),
{
    if a.len() == 0 {
        assert(a + b =~= b);
        assert(s.taken(a) + s.taken(b) =~= s.taken(b));
    } else {
        assert((a + b).drop_first() =~= a.drop_first() + b);
        lemma_taken_of_both(s, a.drop_first(), b);
        assert(s.taken(a + b) =~= s.taken(a) + s.taken(b));
    }
}

/// What a handler is told of two sequences.
pub proof fn lemma_notices_of_both(
    s: DecoderState,
    a: Seq<SplitRecord>,
    b: Seq<SplitRecord>,
    line: nat,
    offset: nat,
)
    ensures
        s.notices_of(a + b, line, offset) == s.notices_of(a, line, offset) + s.notices_of(
            b,
            line + a.len(),
            offset + bytes_of(a),
        ),
        bytes_of(a + b) == bytes_of(a) + bytes_of(b),
    decreases a.len(),
{
    if a.len() == 0 {
        assert(a + b =~= b);
        assert(s.notices_of(a, line, offset) + s.notices_of(b, line, offset) =~= s.notices_of(
            b,
            line,
            offset,
        ));
    } else {
        let next = offset + a[0].bytes.len();
        assert((a + b).drop_first() =~= a.drop_first() + b);
        lemma_notices_of_both(s, a.drop_first(), b, line + 1, next);
        assert(s.notices_of(a + b, line, offset) =~= s.notices_of(a, line, offset)
            + s.notices_of(b, line + a.len(), offset + bytes_of(a)));
    }
}

/// Records that all are taken are the records taken.
pub proof fn lemma_all_taken(s: DecoderState, records: Seq<SplitRecord>)
    requires
        forall|i: int| 0 <= i < records.len() ==> s.takes(#[trigger] records[i]),
    ensures
        s.taken(records) == records,
    decreases records.len(),
{
    if records.len() > 0 {
        let others = records.drop_first();
        assert forall|i: int| 0 <= i < others.len() implies s.takes(#[trigger] others[i]) by {
            assert(others[i] == records[i + 1]);
        }
        lemma_all_taken(s, others);
        assert(s.taken(records) =~= records);
    }
}

/// Whether a call neither drops records nor gives them out in the middle of one.
pub open spec fn keeps_records(call: Call, a: Stage) -> bool {
    match call {
        Call::Decode { .. } => true,
        Call::Flush => a.state.reader.pending == 0,
        Call::FailedFlush => false,
        Call::Clear => false,
    }
}

/// Before the first call.
proof fn lemma_first_stage(s: DecoderState, handled: bool)
    requires
        is_new(s),
    ensures
        accounts(s, handled, Stage::first(s)),
        delivers(s, handled, Stage::first(s)),
{
    let b = Stage::first(s);
    assert(0 * s.num_columns == 0) by (nonlinear_arith);
    assert(s.partial_row() =~= Seq::empty());
    assert(s.data.skip(0) =~= Seq::empty());
    assert(s.data =~= Seq::empty());
    assert(s.record_bytes =~= Seq::empty());
    assert(made_of(b.records) + b.unfinished.bytes =~= b.fed);
    assert(b.given + s.rows() =~= rows_of(s.taken(Seq::empty()), s.num_columns));
}

/// Decoding keeps what holds at every stage.
#[verifier::spinoff_prover]
#[verifier::rlimit(40)]
pub proof fn lemma_decode_call<H: CsvRecordErrorHandler + ?Sized>(
    handler: Option<&H>,
    s: DecoderState,
    call: Call,
    a: Stage,
    b: Stage,
)
    requires
        is_new(s),
        accounts(s, handler is Some, a),
        call is Decode,
        leads(handler, call, a, b),
    ensures
        accounts(s, handler is Some, b),
        delivers(s, handler is Some, a) ==> delivers(s, handler is Some, b),
        call->to_read > 0 ==> b.state.reader.started,
        call->bytes <= call->input.len(),
        a.fed.len() <= b.fed.len(),
{
    if let Call::Decode { input, to_read, rows, bytes, told } = call {
        let (more, end) = completed(a.unfinished, input, bytes as nat);
        let nc = s.num_columns;
        if to_read > 0 {
            match handler {
                None => {
                    lemma_decoding_splits(a.state, a.unfinished, input, to_read);
                    assert forall|i: int| 0 <= i < more.len() implies s.takes(
                        #[trigger] more[i],
                    ) by {
                        assert(a.state.takes(more[i]));
                    }
                    lemma_all_taken(s, more);
                    assert(a.told + told =~= Seq::empty());
                },
                Some(handler) => {
                    lemma_skipping_splits(
                        handler,
                        a.state,
                        a.unfinished,
                        input,
                        to_read,
                        told,
                        b.state,
                        (rows, bytes),
                    );
                    lemma_same_taking(a.state, s, more);
                    lemma_notices_of_both(s, a.records, more, 1, 0);
                },
            }
            lemma_reads_as(a.state.reader, a.unfinished.reader, input, 1, 1);
            lemma_taken_of_both(s, a.records, more);
            lemma_made_of_both(a.records, more);
            lemma_completed_bytes(a.unfinished, input, bytes as nat);
            let piece = input.take(bytes as int);
            assert(made_of(a.records) + (a.unfinished.bytes + piece) =~= made_of(a.records)
                + a.unfinished.bytes + piece);
            assert(made_of(a.records) + (made_of(more) + end.bytes) =~= made_of(a.records)
                + made_of(more) + end.bytes);
            assert(rows_of(s.taken(b.records), nc) =~= rows_of(s.taken(a.records), nc) + rows_of(
                s.taken(more),
                nc,
            ));
            if delivers(s, handler is Some, a) {
                assert(a.given + (a.state.rows() + rows_of(s.taken(more), nc)) =~= a.given
                    + a.state.rows() + rows_of(s.taken(more), nc));
            }
        }
    }
}

/// The other calls keep what holds at every stage.
proof fn lemma_other_call<H: CsvRecordErrorHandler + ?Sized>(
    handler: Option<&H>,
    s: DecoderState,
    call: Call,
    a: Stage,
    b: Stage,
)
    requires
        is_new(s),
        accounts(s, handler is Some, a),
        !(call is Decode),
        leads(handler, call, a, b),
    ensures
        accounts(s, handler is Some, b),
        delivers(s, handler is Some, a) && keeps_records(call, a) ==> delivers(
            s,
            handler is Some,
            b,
        ),
{
    if call is Flush && delivers(s, handler is Some, a) && keeps_records(call, a) {
        assert(0 * s.num_columns == 0) by (nonlinear_arith);
        assert(b.state.partial_row() =~= Seq::empty());
        assert(a.unfinished.ends =~= Seq::empty());
        assert(a.unfinished.data =~= Seq::empty());
        assert(b.state.data.skip(0) =~= Seq::empty());
        assert(b.given + b.state.rows() =~= a.given + a.state.rows());
    }
}

/// At every stage of every sequence of calls in which decoding succeeds, what the decoder returned,
/// holds and told its handler is what the records of the bytes consumed so far amount to.
pub proof fn lemma_sessions_account<H: CsvRecordErrorHandler + ?Sized>(
    handler: Option<&H>,
    calls: Seq<Call>,
    stages: Seq<Stage>,
    i: int,
)
    requires
        is_session(handler, calls, stages),
        0 <= i < stages.len(),
    ensures
        accounts(stages[0].state, handler is Some, stages[i]),
    decreases i,
{
    let s = stages[0].state;
    if i == 0 {
        lemma_first_stage(s, handler is Some);
    } else {
        lemma_sessions_account(handler, calls, stages, i - 1);
        assert(leads(handler, calls[i - 1], stages[i - 1], stages[i - 1 + 1]));
        if calls[i - 1] is Decode {
            lemma_decode_call(handler, s, calls[i - 1], stages[i - 1], stages[i]);
        } else {
            lemma_other_call(handler, s, calls[i - 1], stages[i - 1], stages[i]);
        }
    }
}

/// As long as no records are dropped, and they are given out only between two records, the records
/// given out and those buffered are the valid records of the bytes consumed so far.
pub proof fn lemma_sessions_deliver<H: CsvRecordErrorHandler + ?Sized>(
    handler: Option<&H>,
    calls: Seq<Call>,
    stages: Seq<Stage>,
    i: int,
)
    requires
        is_session(handler, calls, stages),
        0 <= i < stages.len(),
        forall|k: int| 0 <= k < i ==> keeps_records(#[trigger] calls[k], stages[k]),
    ensures
        delivers(stages[0].state, handler is Some, stages[i]),
    decreases i,
{
    let s = stages[0].state;
    if i == 0 {
        lemma_first_stage(s, handler is Some);
    } else {
        lemma_sessions_deliver(handler, calls, stages, i - 1);
        lemma_sessions_account(handler, calls, stages, i - 1);
        assert(leads(handler, calls[i - 1], stages[i - 1], stages[i - 1 + 1]));
        assert(keeps_records(calls[i - 1], stages[i - 1]));
        if calls[i - 1] is Decode {
            lemma_decode_call(handler, s, calls[i - 1], stages[i - 1], stages[i]);
        } else {
            lemma_other_call(handler, s, calls[i - 1], stages[i - 1], stages[i]);
        }
    }
}

/// The number of buffered records is that of the valid records completed since they were last given
/// out or dropped.
pub proof fn lemma_len_counts_records<H: CsvRecordErrorHandler + ?Sized>(
    handler: Option<&H>,
    calls: Seq<Call>,
    stages: Seq<Stage>,
    before: int,
    now: int,
)
    requires
        is_session(handler, calls, stages),
        0 <= before <= now < stages.len(),
        before == 0 || calls[before - 1] is Flush || calls[before - 1] is Clear,
        forall|k: int|
            before <= k < now ==> !(#[trigger] calls[k] is Flush) && !(calls[k] is Clear),
    ensures
        ({
            let s = stages[0].state;
            stages[now].state.num_rows == s.taken(stages[now].records).len() - s.taken(
                stages[before].records,
            ).len()
        }),
{
    lemma_sessions_account(handler, calls, stages, before);
    lemma_sessions_account(handler, calls, stages, now);
    if before > 0 {
        assert(leads(handler, calls[before - 1], stages[before - 1], stages[before - 1 + 1]));
    }
    lemma_rows_before_kept(handler, calls, stages, before, now);
}

proof fn lemma_rows_before_kept<H: CsvRecordErrorHandler + ?Sized>(
    handler: Option<&H>,
    calls: Seq<Call>,
    stages: Seq<Stage>,
    before: int,
    now: int,
)
    requires
        is_session(handler, calls, stages),
        0 <= before <= now < stages.len(),
        forall|k: int|
            before <= k < now ==> !(#[trigger] calls[k] is Flush) && !(calls[k] is Clear),
    ensures
        stages[now].rows_before == stages[before].rows_before,
    decreases now - before,
{
    if before < now {
        lemma_rows_before_kept(handler, calls, stages, before, now - 1);
        assert(leads(handler, calls[now - 1], stages[now - 1], stages[now - 1 + 1]));
    }
}

} // verus!
