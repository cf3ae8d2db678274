//! The records of a stream, and that a decoder buffers just these.

use crate::layout::{
    lemma_field_in_data, lemma_read_keeps_layout, lemma_row_keeps_layout, lemma_rows_agree,
    row_base,
};
use crate::model::{strict_decode, DecoderState};
use crate::pieces::{
    can_run, lemma_can_go_on, lemma_more_ends, lemma_more_room, lemma_read_of_pieces,
    lemma_run_leaves, lemma_runs_agree, roomy_read, roomy_run,
};
use crate::reader::{
    dependable, lemma_dependable, lemma_first_read, overlooks_end, read_is_sound, record_read,
    rested, rests, starts_with_mark, ReadResult, ReadStep, ReaderState,
};
use vstd::prelude::*;

verus! {

/// A record as the reader splits it off a stream.
#[verifier::ext_equal]
pub struct SplitRecord {
    /// The ends of the fields in `data`.
    pub ends: Seq<usize>,
    /// The data of the fields.
    pub data: Seq<u8>,
    /// The bytes of the stream that the record was made of.
    pub bytes: Seq<u8>,
}

/// What has been read of a record that is not complete yet.
#[verifier::ext_equal]
pub struct Unfinished {
    /// The state of the reader.
    pub reader: ReaderState,
    /// The ends of the fields in `data`.
    pub ends: Seq<usize>,
    /// The data of the fields.
    pub data: Seq<u8>,
    /// The bytes read of the stream.
    pub bytes: Seq<u8>,
}

impl Unfinished {
    /// Nothing has been read of the next record.
    pub open spec fn nothing(reader: ReaderState) -> Unfinished {
        Unfinished { reader, ends: Seq::empty(), data: Seq::empty(), bytes: Seq::empty() }
    }

    /// What has been read after one more read.
    pub open spec fn after(self, step: ReadStep, consumed: Seq<u8>) -> Unfinished {
        Unfinished {
            reader: step.after,
            ends: self.ends + step.ends,
            data: self.data + step.output,
            bytes: self.bytes + consumed,
        }
    }

    /// The record, once it is complete.
    pub open spec fn record(self) -> SplitRecord {
        SplitRecord { ends: self.ends, data: self.data, bytes: self.bytes }
    }

    /// More can be read of a stream of `len` bytes.
    pub open spec fn can_read(self, len: nat) -> bool {
        &&& dependable(self.reader)
        &&& self.reader.pending + len <= usize::MAX
    }
}

/// A read with room for everything.
pub open spec fn full_read(state: ReaderState, input: Seq<u8>) -> ReadStep {
    roomy_read(state, input, input.len() + 1)
}

/// The records that the input completes, and what it leaves unfinished.
pub open spec fn split(unfinished: Unfinished, input: Seq<u8>) -> (Seq<SplitRecord>, Unfinished)
    decreases input.len(),
{
    let step = full_read(unfinished.reader, input);
    let read = unfinished.after(step, input.take(step.consumed as int));
    let next = Unfinished::nothing(rested(step.after));
    if input.len() == 0 {
        (Seq::empty(), unfinished)
    } else if step.result != ReadResult::Record {
        (Seq::empty(), read)
    } else if 0 < step.consumed <= input.len() {
        let (records, rest) = split(next, input.skip(step.consumed as int));
        (seq![read.record()] + records, rest)
    } else {
        (seq![read.record()], next)
    }
}

/// The record that the end of the stream completes, if any, and what it leaves unfinished.
pub open spec fn finish(unfinished: Unfinished) -> (Seq<SplitRecord>, Unfinished) {
    let step = record_read(unfinished.reader, Seq::empty(), 1, 1);
    if step.result == ReadResult::Record {
        (
            seq![unfinished.after(step, Seq::empty()).record()],
            Unfinished::nothing(rested(step.after)),
        )
    } else {
        (Seq::empty(), Unfinished { reader: step.after, ..unfinished })
    }
}

/// Room for field ends that does not run out makes no difference.
pub proof fn lemma_full_read(state: ReaderState, input: Seq<u8>, ends_room: nat)
    requires
        dependable(state),
        state.pending + input.len() <= usize::MAX,
        input.len() > 0,
    ensures
        full_read(state, input).result != ReadResult::OutputFull,
        full_read(state, input).result != ReadResult::OutputEndsFull,
        roomy_read(state, input, ends_room).result != ReadResult::OutputEndsFull ==> roomy_read(
            state,
            input,
            ends_room,
        ) == full_read(state, input),
        ends_room > input.len() ==> roomy_read(state, input, ends_room) == full_read(state, input),
{
    lemma_dependable(state, input, input.len() + 1, input.len() + 1);
    lemma_more_room(state, input, input.len() + 1, input.len() + 1);
    if ends_room > input.len() {
        lemma_more_ends(state, input, input.len() + 1, ends_room);
    } else if roomy_read(state, input, ends_room).result != ReadResult::OutputEndsFull {
        lemma_more_ends(state, input, ends_room, input.len() + 1);
    }
}

/// A full read of two pieces is one of the first and what comes after it.
proof fn lemma_full_read_of_pieces(state: ReaderState, a: Seq<u8>, b: Seq<u8>)
    requires
        dependable(state),
        state.pending + a.len() + b.len() <= usize::MAX,
        a.len() > 0,
        b.len() > 0,
        state.started || !starts_with_mark(a + b) || a.len() >= 3,
    ensures
        ({
            let first = full_read(state, a);
            full_read(state, a + b) == if first.result == ReadResult::Record {
                first
            } else {
                first.and_then(full_read(first.after, b))
            }
        }),
        full_read(state, a).result != ReadResult::Record ==> full_read(state, a).consumed
            == a.len(),
{
    let room = (a + b).len() + 1;
    let first = full_read(state, a);
    lemma_full_read(state, a, room);
    lemma_full_read(state, a + b, room);
    lemma_dependable(state, a, a.len() + 1, a.len() + 1);
    lemma_read_of_pieces(state, a, b, room);
    if first.result != ReadResult::Record {
        lemma_full_read(first.after, b, (room - first.ends.len()) as nat);
    }
}

/// What a full read leaves.
pub proof fn lemma_can_read_on(unfinished: Unfinished, input: Seq<u8>, more: nat)
    requires
        unfinished.can_read(input.len() + more),
        input.len() > 0,
    ensures
        ({
            let step = full_read(unfinished.reader, input);
            let read = unfinished.after(step, input.take(step.consumed as int));
            let next = Unfinished::nothing(rested(step.after));
            &&& step.consumed <= input.len()
            &&& step.result == ReadResult::Record ==> step.consumed > 0
            &&& step.result != ReadResult::Record ==> step.consumed == input.len()
            &&& read.reader.started
            &&& next.reader.started
            &&& read.can_read((input.len() - step.consumed + more) as nat)
            &&& step.result == ReadResult::Record ==> next.can_read(
                (input.len() - step.consumed + more) as nat,
            )
            &&& step.result == ReadResult::Record ==> next.reader.pending == 0
        }),
{
    let step = full_read(unfinished.reader, input);
    lemma_dependable(unfinished.reader, input, input.len() + 1, input.len() + 1);
    lemma_full_read(unfinished.reader, input, 0);
    lemma_dependable(step.after, Seq::empty(), 1, 1);
}

/// What splitting leaves.
pub proof fn lemma_split_leaves(unfinished: Unfinished, input: Seq<u8>, more: nat)
    requires
        unfinished.can_read(input.len() + more),
    ensures
        split(unfinished, input).1.can_read(more),
        input.len() > 0 || unfinished.reader.started ==> split(unfinished, input).1.reader.started,
    decreases input.len(),
{
    if input.len() > 0 {
        let step = full_read(unfinished.reader, input);
        lemma_can_read_on(unfinished, input, more);
        if step.result == ReadResult::Record {
            lemma_split_leaves(
                Unfinished::nothing(rested(step.after)),
                input.skip(step.consumed as int),
                more,
            );
        }
    }
}

/// The records of two pieces are those of the first and those that the second then completes. Only
/// a byte order mark has to be in the first as a whole.
pub proof fn lemma_split_of_pieces(unfinished: Unfinished, a: Seq<u8>, b: Seq<u8>)
    requires
        unfinished.can_read(a.len() + b.len()),
        unfinished.reader.started || !starts_with_mark(a + b) || a.len() == 0 || a.len() >= 3,
    ensures
        ({
            let (first, between) = split(unfinished, a);
            let (second, last) = split(between, b);
            split(unfinished, a + b) == (first + second, last)
        }),
    decreases a.len(),
{
    let (first, between) = split(unfinished, a);
    let (second, last) = split(between, b);
    if a.len() == 0 {
        assert(a + b =~= b);
        assert(first + second =~= second);
    } else if b.len() == 0 {
        assert(a + b =~= a);
        assert(first + second =~= first);
    } else {
        let one = full_read(unfinished.reader, a);
        let both = full_read(unfinished.reader, a + b);
        lemma_full_read_of_pieces(unfinished.reader, a, b);
        lemma_can_read_on(unfinished, a, b.len());
        lemma_can_read_on(unfinished, a + b, 0);
        if one.result == ReadResult::Record {
            let next = Unfinished::nothing(rested(one.after));
            let rest = a.skip(one.consumed as int);
            assert((a + b).skip(one.consumed as int) =~= rest + b);
            assert((a + b).take(one.consumed as int) =~= a.take(one.consumed as int));
            lemma_split_of_pieces(next, rest, b);
            let record = unfinished.after(one, a.take(one.consumed as int)).record();
            assert(first + second =~= seq![record] + (split(next, rest).0 + second));
        } else {
            let two = full_read(one.after, b);
            lemma_can_read_on(between, b, 0);
            let read = unfinished.after(both, (a + b).take(both.consumed as int));
            assert(a.take(one.consumed as int) =~= a);
            assert((a + b).take(both.consumed as int) =~= a + b.take(two.consumed as int));
            assert(read =~= between.after(two, b.take(two.consumed as int)));
            assert((a + b).skip(both.consumed as int) =~= b.skip(two.consumed as int));
            assert(first + second =~= second);
        }
    }
}

impl SplitRecord {
    /// The fields of the record in a table of `num_columns` columns; missing fields are empty.
    pub open spec fn fields(self, num_columns: nat) -> Seq<Seq<u8>> {
        Seq::new(
            num_columns,
            |column: int|
                if column < self.ends.len() {
                    self.data.subrange(
                        if column == 0 {
                            0
                        } else {
                            self.ends[column - 1] as int
                        },
                        self.ends[column] as int,
                    )
                } else {
                    Seq::empty()
                },
        )
    }
}

impl DecoderState {
    /// Whether a record has a number of fields to buffer it with.
    pub open spec fn takes(self, record: SplitRecord) -> bool {
        ||| record.ends.len() == self.num_columns
        ||| self.truncated_rows && record.ends.len() < self.num_columns
    }

    /// The fields of the buffered records.
    pub open spec fn rows(self) -> Seq<Seq<Seq<u8>>> {
        Seq::new(
            self.num_rows,
            |row: int|
                Seq::new(self.num_columns, |column: int| self.field(row as nat, column as nat)),
        )
    }

    /// The decoder reads on as from what is unfinished.
    pub open spec fn stands_at(self, unfinished: Unfinished) -> bool {
        &&& reads_as(self.reader, unfinished.reader)
        &&& self.current_field == unfinished.ends.len()
    }

    /// What is unfinished lies in the buffers behind the buffered records.
    pub open spec fn holds(self, unfinished: Unfinished) -> bool {
        &&& self.laid_out()
        &&& self.partial_row() == unfinished.ends
        &&& self.data.skip(row_base(self.offsets, self.num_columns, self.num_rows) as int)
            == unfinished.data
    }
}

/// A reader in the first state reads on as one in the second.
pub open spec fn reads_as(state: ReaderState, other: ReaderState) -> bool {
    ||| state == other
    ||| {
        &&& state.started
        &&& other == rested(state)
        &&& rests(state)
        &&& overlooks_end(state)
        &&& state.pending == 0
    }
}

/// What two readers that read on alike do.
pub proof fn lemma_reads_as(
    state: ReaderState,
    other: ReaderState,
    input: Seq<u8>,
    output_room: nat,
    ends_room: nat,
)
    requires
        dependable(state),
        reads_as(state, other),
        state.pending + input.len() <= usize::MAX,
    ensures
        dependable(other),
        other.pending == state.pending,
        state != other ==> other.started,
        input.len() > 0 && output_room > 0 && ends_room > 0 ==> record_read(
            state,
            input,
            output_room,
            ends_room,
        ) == record_read(other, input, output_room, ends_room),
        rested(state) == rested(other),
        rests(state) ==> rests(other) && reads_as(rested(state), rested(other)),
{
    lemma_dependable(state, Seq::empty(), 1, 1);
}

/// What a read adds to the buffers is what it adds to what is unfinished.
pub proof fn lemma_holds_after_read(
    s: DecoderState,
    unfinished: Unfinished,
    input: Seq<u8>,
    output_room: nat,
    ends_room: nat,
    step: ReadStep,
    consumed: Seq<u8>,
)
    requires
        s.holds(unfinished),
        read_is_sound(s.reader, input, output_room, ends_room, step),
    ensures
        ({
            let t = s.after_read(step);
            let read = unfinished.after(step, consumed);
            &&& step.result != ReadResult::Record ==> t.holds(read) && t.rows() == s.rows()
            &&& step.result == ReadResult::Record && t.row_fits() ==> {
                let next = t.complete_row();
                &&& next.holds(Unfinished::nothing(rested(step.after)))
                &&& next.rows() == s.rows().push(read.record().fields(s.num_columns))
            }
        }),
{
    let t = s.after_read(step);
    let read = unfinished.after(step, consumed);
    let nc = s.num_columns;
    let base = row_base(s.offsets, nc, s.num_rows);
    lemma_rows_agree(s.offsets, t.offsets, nc, s.num_rows);
    assert(t.partial_row() =~= s.partial_row() + step.ends);
    assert(t.data.skip(base as int) =~= s.data.skip(base as int) + step.output);
    if step.result != ReadResult::Record {
        lemma_read_keeps_layout(s, input, output_room, ends_room, step);
        lemma_rows_kept(s, t);
    } else if t.row_fits() {
        let next = t.complete_row();
        let record = read.record();
        lemma_row_keeps_layout(s, input, output_room, ends_room, step);
        lemma_rows_agree(s.offsets, next.offsets, nc, s.num_rows);
        lemma_rows_kept(s, next);
        assert(next.num_rows * nc == s.num_rows * nc + nc) by (nonlinear_arith)
            requires
                next.num_rows == s.num_rows + 1,
        ;
        let row = next.rows()[s.num_rows as int];
        assert(next.partial_row() =~= Seq::empty());
        assert(next.data.skip(row_base(next.offsets, nc, next.num_rows) as int) =~= Seq::empty());
        assert forall|column: int| 0 <= column < nc implies #[trigger] row[column]
            == record.fields(nc)[column] by {
            lemma_field_in_data(next, s.num_rows, column as nat);
            let i = s.num_rows * nc + column;
            let end = next.offsets[i + 1];
            assert(column < record.ends.len() ==> end == record.ends[column]);
            assert(0 < column <= record.ends.len() ==> next.offsets[i] == record.ends[column - 1]);
            assert(column >= record.ends.len() ==> next.offsets[i] == t.offsets.last() && end
                == t.offsets.last());
            assert(row[column] == next.field(s.num_rows, column as nat));
            assert(row[column] =~= record.fields(nc)[column]);
        }
        assert(row =~= record.fields(nc));
        assert(next.rows() =~= s.rows().push(row));
    }
}

/// What is buffered depends on the buffers alone.
pub proof fn lemma_same_rows(a: DecoderState, b: DecoderState)
    requires
        a.offsets == b.offsets,
        a.data == b.data,
        a.num_columns == b.num_columns,
        a.num_rows == b.num_rows,
    ensures
        a.rows() == b.rows(),
{
    assert forall|row: int| 0 <= row < a.num_rows implies #[trigger] a.rows()[row]
        == b.rows()[row] by {
        assert(a.rows()[row] =~= b.rows()[row]);
    }
    assert(a.rows() =~= b.rows());
}

/// Buffered records stay what they are whatever is put behind them.
pub proof fn lemma_rows_kept(s: DecoderState, t: DecoderState)
    requires
        s.laid_out(),
        t.num_columns == s.num_columns,
        s.num_rows <= t.num_rows,
        s.row_offsets() <= t.offsets.len(),
        row_base(s.offsets, s.num_columns, s.num_rows) <= t.data.len(),
        forall|i: int| 0 <= i < s.row_offsets() ==> #[trigger] s.offsets[i] == t.offsets[i],
        forall|i: int|
            0 <= i < row_base(s.offsets, s.num_columns, s.num_rows) ==> #[trigger] s.data[i]
                == t.data[i],
    ensures
        t.rows().take(s.num_rows as int) == s.rows(),
{
    let nc = s.num_columns;
    assert forall|row: int, column: int| 0 <= row < s.num_rows && 0 <= column < nc implies t.field(
        row as nat,
        column as nat,
    ) == #[trigger] s.field(row as nat, column as nat) by {
        lemma_field_in_data(s, row as nat, column as nat);
        assert(row * nc <= s.num_rows * nc) by (nonlinear_arith)
            requires
                row < s.num_rows,
        ;
        lemma_rows_agree(s.offsets, t.offsets, nc, row as nat);
        assert(t.field(row as nat, column as nat) =~= s.field(row as nat, column as nat));
    }
    assert forall|row: int| 0 <= row < s.num_rows implies t.rows()[row] == #[trigger] s.rows()[row]
        by {
        assert(t.rows()[row] =~= s.rows()[row]);
    }
    assert(t.rows().take(s.num_rows as int) =~= s.rows());
}

/// A record is split off a front part of the input that holds it as it is off the whole.
pub proof fn lemma_full_read_of_front(state: ReaderState, input: Seq<u8>, n: int)
    requires
        dependable(state),
        state.pending + input.len() <= usize::MAX,
        full_read(state, input).result == ReadResult::Record,
        0 < full_read(state, input).consumed <= n <= input.len(),
    ensures
        full_read(state, input.take(n)) == full_read(state, input),
{
    let front = input.take(n);
    let back = input.skip(n);
    assert(front + back =~= input);
    if !state.started {
        lemma_first_read(state, input, input.len() + 1, input.len() + 1);
    }
    if n == input.len() {
        assert(front =~= input);
    } else {
        lemma_full_read_of_pieces(state, front, back);
        let first = full_read(state, front);
        lemma_dependable(state, front, front.len() + 1, front.len() + 1);
        if first.result != ReadResult::Record {
            lemma_dependable(first.after, back, back.len() + 1, back.len() + 1);
        }
    }
}

/// The fields of records in a table of `num_columns` columns.
pub open spec fn rows_of(records: Seq<SplitRecord>, num_columns: nat) -> Seq<Seq<Seq<u8>>> {
    Seq::new(records.len(), |i: int| records[i].fields(num_columns))
}

/// A decoder with no handler that decodes `rest` buffers the records that it splits into.
#[verifier::rlimit(40)]
proof fn lemma_run_splits(s: DecoderState, unfinished: Unfinished, rest: Seq<u8>, left: nat)
    requires
        can_run(s, rest, left),
        s.stands_at(unfinished),
        roomy_run(s, rest, left) is Some,
    ensures
        ({
            let (t, rows, bytes) = roomy_run(s, rest, left).unwrap();
            let (records, last) = split(unfinished, rest.take(bytes as int));
            &&& records.len() == rows
            &&& forall|i: int| 0 <= i < rows ==> s.takes(#[trigger] records[i])
            &&& t.stands_at(last)
            &&& last.reader.started
            &&& t.num_rows == s.num_rows + rows
            &&& t.truncated_rows == s.truncated_rows
            &&& !s.reader.started && starts_with_mark(rest) ==> bytes >= 3
            &&& s.holds(unfinished) ==> {
                &&& t.holds(last)
                &&& t.rows() == s.rows() + rows_of(records, s.num_columns)
            }
        }),
    decreases rest.len(),
{
    let step = roomy_read(s.reader, rest, s.ends_room());
    let t = s.after_read(step).bare();
    lemma_dependable(s.reader, rest, rest.len() + 1, s.ends_room());
    lemma_reads_as(s.reader, unfinished.reader, rest, rest.len() + 1, s.ends_room());
    lemma_full_read(unfinished.reader, rest, s.ends_room());
    lemma_can_go_on(s, rest, left, rest.len() + 1);
    if !s.reader.started {
        lemma_first_read(s.reader, rest, rest.len() + 1, s.ends_room());
    }
    let consumed = rest.take(step.consumed as int);
    let read = unfinished.after(step, consumed);
    if s.holds(unfinished) {
        lemma_holds_after_read(
            s,
            unfinished,
            rest,
            rest.len() + 1,
            s.ends_room(),
            step,
            consumed,
        );
        lemma_same_rows(s.after_read(step), t);
        lemma_same_rows(s.after_read(step).complete_row(), t.complete_row());
    }
    let (_, _, bytes) = roomy_run(s, rest, left).unwrap();
    let front = rest.take(bytes as int);
    if step.result == ReadResult::Record {
        let next = Unfinished::nothing(rested(step.after));
        let unread = rest.skip(step.consumed as int);
        lemma_dependable(step.after, Seq::empty(), 1, 1);
        if left == 1 || step.consumed == rest.len() {
            lemma_full_read_of_front(unfinished.reader, rest, bytes as int);
            assert(front.take(step.consumed as int) =~= consumed);
            assert(front.skip(step.consumed as int) =~= Seq::empty());
            reveal_with_fuel(split, 2);
            assert(split(unfinished, front).0 =~= seq![read.record()]);
            assert(s.rows().push(read.record().fields(s.num_columns)) =~= s.rows() + rows_of(
                seq![read.record()],
                s.num_columns,
            ));
        } else {
            lemma_run_splits(t.complete_row(), next, unread, (left - 1) as nat);
            let (_, _, more) = roomy_run(t.complete_row(), unread, (left - 1) as nat).unwrap();
            lemma_run_leaves(t.complete_row(), unread, (left - 1) as nat);
            lemma_full_read_of_front(unfinished.reader, rest, bytes as int);
            assert(front.take(step.consumed as int) =~= consumed);
            assert(front.skip(step.consumed as int) =~= unread.take(more as int));
            let (others, _) = split(next, unread.take(more as int));
            let records = seq![read.record()] + others;
            assert(split(unfinished, front).0 == records);
            assert(s.rows().push(read.record().fields(s.num_columns)) + rows_of(
                others,
                s.num_columns,
            ) =~= s.rows() + rows_of(records, s.num_columns));
            assert forall|i: int| 0 <= i < records.len() implies s.takes(#[trigger] records[i]) by {
                if i > 0 {
                    assert(records[i] == others[i - 1]);
                }
            }
        }
    } else {
        assert(front =~= rest);
        assert(s.rows() =~= s.rows() + rows_of(Seq::empty(), s.num_columns));
    }
}

/// The records that one call of decoding completes: those of the bytes that it consumes, or the one
/// that the end of the stream completes.
pub open spec fn completed(unfinished: Unfinished, input: Seq<u8>, bytes: nat) -> (
    Seq<SplitRecord>,
    Unfinished,
) {
    if input.len() == 0 {
        finish(unfinished)
    } else {
        split(unfinished, input.take(bytes as int))
    }
}

/// What decoding may rely on.
pub open spec fn can_decode(s: DecoderState, input: Seq<u8>, to_read: nat) -> bool {
    &&& dependable(s.reader)
    &&& s.reader.pending + input.len() <= usize::MAX
    &&& s.offsets.len() > 0
    &&& 0 < to_read <= usize::MAX
}

/// Decoding without a handler buffers the records that it completes.
pub proof fn lemma_decoding_splits(
    s: DecoderState,
    unfinished: Unfinished,
    input: Seq<u8>,
    to_read: nat,
)
    requires
        can_decode(s, input, to_read),
        s.stands_at(unfinished),
        strict_decode(s, input, to_read).1 is Ok,
    ensures
        ({
            let (t, returned) = strict_decode(s, input, to_read);
            let (rows, bytes) = returned.unwrap();
            let (records, last) = completed(unfinished, input, bytes as nat);
            &&& rows <= to_read
            &&& bytes <= input.len()
            &&& rows < to_read ==> bytes == input.len()
            &&& records.len() == rows
            &&& forall|i: int| 0 <= i < rows ==> s.takes(#[trigger] records[i])
            &&& t.stands_at(last)
            &&& last.reader.started
            &&& dependable(t.reader)
            &&& t.reader.started
            &&& t.reader.pending <= s.reader.pending + bytes
            &&& t.offsets.len() > 0
            &&& t.num_columns == s.num_columns
            &&& t.truncated_rows == s.truncated_rows
            &&& t.num_rows == s.num_rows + rows
            &&& !s.reader.started && starts_with_mark(input) ==> bytes >= 3
            &&& s.holds(unfinished) ==> {
                &&& t.holds(last)
                &&& t.rows() == s.rows() + rows_of(records, s.num_columns)
            }
        }),
{
    let start = s.reserve_offsets(to_read).reserve_data(to_read);
    let (t, returned) = strict_decode(s, input, to_read);
    let nc = s.num_columns;
    assert(to_read * nc >= nc) by (nonlinear_arith)
        requires
            to_read > 0,
    ;
    assert(input.skip(0) =~= input);
    lemma_same_rows(s, start);
    if input.len() > 0 {
        lemma_runs_agree(start, input, 0, to_read, 0);
        lemma_run_leaves(start, input, to_read);
        lemma_run_splits(start, unfinished, input, to_read);
        let (roomy, _, _) = roomy_run(start, input, to_read).unwrap();
        assert(t.bare() == roomy.bare());
        assert(t.offsets == t.bare().offsets && roomy.offsets == roomy.bare().offsets);
        lemma_same_rows(t, roomy);
    } else {
        let step = record_read(start.reader, input, start.output_room(), start.ends_room());
        let end = record_read(unfinished.reader, Seq::empty(), 1, 1);
        assert(input =~= Seq::empty());
        lemma_dependable(start.reader, input, start.output_room(), start.ends_room());
        lemma_reads_as(s.reader, unfinished.reader, input, 1, 1);
        lemma_dependable(unfinished.reader, Seq::empty(), 1, 1);
        lemma_dependable(step.after, Seq::empty(), 1, 1);
        let read = start.after_read(step);
        if s.holds(unfinished) {
            lemma_holds_after_read(
                start,
                unfinished,
                input,
                start.output_room(),
                start.ends_room(),
                step,
                Seq::empty(),
            );
        }
        if step.result == ReadResult::Record {
            let record = unfinished.after(end, Seq::empty()).record();
            assert(s.rows().push(record.fields(nc)) =~= s.rows() + rows_of(seq![record], nc));
        } else {
            assert(start.offsets + step.ends =~= start.offsets);
            assert(start.data + step.output =~= start.data);
            assert(s.rows() =~= s.rows() + rows_of(Seq::empty(), nc));
        }
    }
}

/// The bytes that records are made of.
pub open spec fn made_of(records: Seq<SplitRecord>) -> Seq<u8>
    decreases records.len(),
{
    if records.len() == 0 {
        Seq::empty()
    } else {
        records[0].bytes + made_of(records.drop_first())
    }
}

/// The bytes of two sequences of records.
pub proof fn lemma_made_of_both(a: Seq<SplitRecord>, b: Seq<SplitRecord>)
    ensures
        made_of(a + b) == made_of(a) + made_of(b),
    decreases a.len(),
{
    if a.len() == 0 {
        assert(a + b =~= b);
        assert(made_of(a) + made_of(b) =~= made_of(b));
    } else {
        assert((a + b).drop_first() =~= a.drop_first() + b);
        lemma_made_of_both(a.drop_first(), b);
        assert(made_of(a + b) =~= made_of(a) + made_of(b));
    }
}

/// The bytes of a stream are those of its records and those of what is unfinished.
pub proof fn lemma_split_bytes(unfinished: Unfinished, input: Seq<u8>)
    requires
        unfinished.can_read(input.len()),
    ensures
        ({
            let (records, last) = split(unfinished, input);
            made_of(records) + last.bytes == unfinished.bytes + input
        }),
    decreases input.len(),
{
    let (records, last) = split(unfinished, input);
    if input.len() == 0 {
        assert(made_of(records) + last.bytes =~= unfinished.bytes + input);
    } else {
        let step = full_read(unfinished.reader, input);
        lemma_can_read_on(unfinished, input, 0);
        if step.result == ReadResult::Record {
            let next = Unfinished::nothing(rested(step.after));
            let unread = input.skip(step.consumed as int);
            lemma_split_bytes(next, unread);
            let (others, _) = split(next, unread);
            assert(records.drop_first() =~= others);
            assert(input =~= input.take(step.consumed as int) + unread);
            assert(made_of(others) + last.bytes =~= unread);
            assert(made_of(records) + last.bytes =~= unfinished.bytes + input);
        } else {
            assert(input.take(step.consumed as int) =~= input);
            assert(made_of(records) + last.bytes =~= unfinished.bytes + input);
        }
    }
}

/// The bytes that one call of decoding consumes are those of the records that it completes and those
/// of what is then unfinished.
pub proof fn lemma_completed_bytes(unfinished: Unfinished, input: Seq<u8>, bytes: nat)
    requires
        unfinished.can_read(bytes),
        bytes <= input.len(),
    ensures
        ({
            let (records, last) = completed(unfinished, input, bytes);
            made_of(records) + last.bytes == unfinished.bytes + input.take(bytes as int)
        }),
{
    let (records, last) = completed(unfinished, input, bytes);
    if input.len() == 0 {
        reveal_with_fuel(made_of, 2);
        if records.len() > 0 {
            assert(records.drop_first() =~= Seq::empty());
        }
        assert(made_of(records) + last.bytes =~= unfinished.bytes + input.take(bytes as int));
    } else {
        lemma_split_bytes(unfinished, input.take(bytes as int));
    }
}

} // verus!
