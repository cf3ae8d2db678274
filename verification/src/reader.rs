//! The CSV reader that a decoder is built on.
//!
//! Splitting bytes into fields and records is the work of [`csv_core::Reader`]. This module holds
//! such a reader inside [`RecordReader`], together with the two counts that keep its own counters in
//! range, and states what the library relies on.

use vstd::prelude::*;

verus! {

/// What ends a record.
#[derive(Debug, Clone, Copy, PartialEq, Eq, Structural)]
pub enum Terminator {
    /// `\r`, `\n` or `\r\n`.
    CRLF,
    /// The given byte.
    Any(u8),
}

/// The variant of CSV that a reader reads.
#[derive(Debug, Clone, Copy, PartialEq, Eq, Structural)]
pub struct Dialect {
    /// The byte between two fields.
    pub delimiter: u8,
    /// What ends a record.
    pub terminator: Terminator,
    /// The byte that opens and closes a quoted field.
    pub quote: u8,
    /// The byte that takes away the meaning of a quote inside a quoted field, if there is one.
    pub escape: Option<u8>,
    /// Whether a doubled quote inside a quoted field stands for one quote.
    pub double_quote: bool,
    /// Whether quotes mean anything at all.
    pub quoting: bool,
    /// The byte that makes a line starting with it a comment, if there is one.
    pub comment: Option<u8>,
}

impl Dialect {
    /// Fields between commas, records on lines, quotes written `"` and doubled inside quotes.
    pub open spec fn standard() -> Dialect {
        Dialect {
            delimiter: 0x2c,
            terminator: Terminator::CRLF,
            quote: 0x22,
            escape: None,
            double_quote: true,
            quoting: true,
            comment: None,
        }
    }

    /// The standard dialect.
    pub fn new() -> (dialect: Dialect)
        ensures
            dialect == Dialect::standard(),
            dialect.delimiter == ',',
            dialect.quote == '"',
            dialect.terminator == Terminator::CRLF,
            dialect.escape is None,
            dialect.comment is None,
            dialect.double_quote && dialect.quoting,
    {
        Dialect {
            delimiter: 0x2c,
            terminator: Terminator::CRLF,
            quote: 0x22,
            escape: None,
            double_quote: true,
            quoting: true,
            comment: None,
        }
    }
}

/// Why a read stopped.
#[derive(Debug, Clone, Copy, PartialEq, Eq, Structural)]
pub enum ReadResult {
    /// The input ran out before the end of a record.
    InputEmpty,
    /// The buffer for field data is full.
    OutputFull,
    /// The buffer for field ends is full.
    OutputEndsFull,
    /// The end of a record was reached.
    Record,
    /// There is no more data.
    End,
}

/// The state of a [`csv_core::Reader`], without its line counter.
pub struct ReaderState {
    /// Bytes of field data already written for the record being read.
    pub pending: nat,
    /// Whether the reader has read before; only its first read skips a byte order mark.
    pub started: bool,
    /// The settings, the transition table and the position in it.
    pub rest: Seq<int>,
}

/// Everything that one read does.
#[verifier::ext_equal]
pub struct ReadStep {
    /// The state that the reader is left in.
    pub after: ReaderState,
    /// Why the read stopped.
    pub result: ReadResult,
    /// How many bytes of the input were consumed.
    pub consumed: nat,
    /// The bytes written to the output.
    pub output: Seq<u8>,
    /// The field ends written, counted from the start of the record.
    pub ends: Seq<usize>,
}

impl ReadStep {
    /// This read and the next one together.
    pub open spec fn and_then(self, next: ReadStep) -> ReadStep {
        ReadStep {
            after: next.after,
            result: next.result,
            consumed: self.consumed + next.consumed,
            output: self.output + next.output,
            ends: self.ends + next.ends,
        }
    }
}

/// The state of `reader`, as plain values.
pub uninterp spec fn reader_state(reader: csv_core::Reader) -> ReaderState;

/// The line counter of `reader`.
pub uninterp spec fn reader_line(reader: csv_core::Reader) -> nat;

/// The state of the reader that [`csv_core::ReaderBuilder`] builds for `dialect`.
pub uninterp spec fn built_reader(dialect: Dialect) -> ReaderState;

/// What [`csv_core::Reader::read_record`] does in the given state, for the given input and with
/// room for the given numbers of data bytes and field ends.
pub uninterp spec fn record_read(
    state: ReaderState,
    input: Seq<u8>,
    output_room: nat,
    ends_room: nat,
) -> ReadStep;

/// Whether the input starts with a UTF-8 byte order mark.
pub open spec fn starts_with_mark(input: Seq<u8>) -> bool {
    input.len() >= 3 && input[0] == 0xef && input[1] == 0xbb && input[2] == 0xbf
}

/// The state of a reader that is as in the given state, but has read before.
pub open spec fn begun(state: ReaderState) -> ReaderState {
    ReaderState { started: true, ..state }
}

/// The state that a reader in the given state is left in by an empty input.
pub open spec fn rested(state: ReaderState) -> ReaderState {
    record_read(state, Seq::empty(), 1, 1).after
}

/// Whether a reader in this state answers an empty input with [`ReadResult::End`].
pub open spec fn sinks(state: ReaderState) -> bool {
    forall|output_room: nat, ends_room: nat|
        ({
            let step = #[trigger] record_read(state, Seq::empty(), output_room, ends_room);
            step.result == ReadResult::End && step.after == rested(state)
        })
}

/// Whether a reader in this state stands between two records: an empty input is the end for it, and
/// leaves it where further empty inputs leave it too.
pub open spec fn rests(state: ReaderState) -> bool {
    &&& sinks(state)
    &&& sinks(rested(state))
    &&& rested(rested(state)) == rested(state)
}

/// Whether a reader in this state reads on after an empty input as if there had been none.
pub open spec fn overlooks_end(state: ReaderState) -> bool {
    forall|input: Seq<u8>, output_room: nat, ends_room: nat|
        input.len() > 0 && output_room > 0 && ends_room > 0 ==> #[trigger] record_read(
            rested(state),
            input,
            output_room,
            ends_room,
        ) == record_read(state, input, output_room, ends_room)
}

/// The state between two records of a reader in the given state.
pub open spec fn home(state: ReaderState) -> ReaderState {
    rested(rested(state))
}

/// What every read keeps to: it stays inside its buffers, writes no more than it consumes, counts
/// the ends of a record from the record's start, and says truthfully why it stopped.
pub open spec fn read_is_sound(
    state: ReaderState,
    input: Seq<u8>,
    output_room: nat,
    ends_room: nat,
    step: ReadStep,
) -> bool {
    let total = state.pending + step.output.len();
    &&& step.consumed <= input.len()
    &&& step.output.len() <= output_room
    &&& step.output.len() <= step.consumed
    &&& step.ends.len() <= ends_room
    &&& input.len() > 0 ==> step.ends.len() <= step.consumed
    &&& step.after.started
    &&& step.after.pending == if step.result == ReadResult::Record { 0 } else { total }
    &&& forall|i: int| 0 <= i < step.ends.len() ==> state.pending <= #[trigger] step.ends[i] <= total
    &&& forall|i: int, j: int|
        0 <= i <= j < step.ends.len() ==> #[trigger] step.ends[i] <= #[trigger] step.ends[j]
    &&& match step.result {
        ReadResult::InputEmpty => step.consumed == input.len(),
        ReadResult::End => {
            &&& step.consumed == input.len()
            &&& step.output.len() == 0
            &&& step.ends.len() == 0
        },
        ReadResult::OutputFull => {
            &&& step.output.len() == output_room
            &&& step.consumed == 0 ==> output_room == 0 && step.ends.len() == 0
        },
        ReadResult::OutputEndsFull => {
            &&& step.ends.len() == ends_room
            &&& step.consumed == 0 ==> ends_room == 0
            &&& input.len() > 0 ==> step.output.len() < output_room
        },
        ReadResult::Record => {
            &&& step.ends.len() > 0
            &&& step.ends.last() == total
            &&& step.consumed == 0 ==> input.len() == 0
            &&& rests(step.after)
            &&& overlooks_end(step.after)
        },
    }
}

/// An empty input completes the record being read or is the end, whatever the room, as long as
/// there is room for a field end. Without room the record stays as it is.
pub open spec fn read_of_nothing(state: ReaderState, ends_room: nat, step: ReadStep) -> bool {
    &&& ends_room > 0 ==> step == record_read(state, Seq::empty(), 1, 1)
    &&& match step.result {
        ReadResult::Record => true,
        ReadResult::End => rests(state),
        ReadResult::OutputEndsFull => ends_room == 0 && step.after == begun(state),
        ReadResult::InputEmpty | ReadResult::OutputFull => false,
    }
}

/// Where there is input but no room, nothing is read of it.
pub open spec fn read_needs_room(
    state: ReaderState,
    input: Seq<u8>,
    output_room: nat,
    ends_room: nat,
    step: ReadStep,
) -> bool {
    input.len() > 0 && (state.started || !starts_with_mark(input)) && (output_room == 0 || ends_room
        == 0) ==> step == ReadStep {
        after: ReaderState { started: true, ..state },
        result: if output_room == 0 {
            ReadResult::OutputFull
        } else {
            ReadResult::OutputEndsFull
        },
        consumed: 0,
        output: Seq::empty(),
        ends: Seq::empty(),
    }
}

/// It makes no difference where a read stops for want of input or of room: the next one takes it up
/// there. Only a byte order mark has to be in the input as a whole.
pub open spec fn read_resumes(
    state: ReaderState,
    input: Seq<u8>,
    output_room: nat,
    ends_room: nat,
    step: ReadStep,
) -> bool {
    forall|k: int, less_output: nat, less_ends: nat|
        #![trigger record_read(state, input.take(k), less_output, less_ends)]
        0 < k <= input.len() && less_output <= output_room && less_ends <= ends_room && (
        state.started || !starts_with_mark(input) || k >= 3) ==> {
            let first = record_read(state, input.take(k), less_output, less_ends);
            step == if first.result == ReadResult::Record || first.consumed == input.len() {
                first
            } else {
                first.and_then(
                    record_read(
                        first.after,
                        input.skip(first.consumed as int),
                        (output_room - first.output.len()) as nat,
                        (ends_room - first.ends.len()) as nat,
                    ),
                )
            }
        }
}

/// The input without the byte order mark that it starts with, if it does.
pub open spec fn unmarked(input: Seq<u8>) -> Seq<u8> {
    if starts_with_mark(input) {
        input.skip(3)
    } else {
        input
    }
}

/// The first read is like a later one of the input without its byte order mark, which it consumes.
pub open spec fn read_passes_mark(
    state: ReaderState,
    input: Seq<u8>,
    output_room: nat,
    ends_room: nat,
    step: ReadStep,
) -> bool {
    !state.started ==> {
        let later = record_read(begun(state), unmarked(input), output_room, ends_room);
        step == ReadStep {
            consumed: later.consumed + (input.len() - unmarked(input).len()) as nat,
            ..later
        }
    }
}

/// A reader that has ended a field and not its record has a record for the end of the data to
/// complete.
pub open spec fn read_owes_record(step: ReadStep) -> bool {
    step.ends.len() > 0 && step.result != ReadResult::Record ==> record_read(
        step.after,
        Seq::empty(),
        1,
        1,
    ).result == ReadResult::Record
}

/// A reader in this state keeps to the six statements above for `depth` more reads and one, keeps
/// the state that it comes to between two records, and starts out as between two records.
pub open spec fn dependable_for(state: ReaderState, depth: nat) -> bool
    decreases depth,
{
    &&& !state.started ==> state.pending == 0 && rests(state) && rested(state) == begun(state)
    &&& forall|input: Seq<u8>, output_room: nat, ends_room: nat|
        #![trigger record_read(state, input, output_room, ends_room)]
        state.pending + input.len() <= usize::MAX ==> {
            let step = record_read(state, input, output_room, ends_room);
            &&& home(step.after) == home(state)
            &&& input.len() == 0 ==> read_of_nothing(state, ends_room, step)
            &&& read_is_sound(state, input, output_room, ends_room, step)
            &&& read_needs_room(state, input, output_room, ends_room, step)
            &&& read_resumes(state, input, output_room, ends_room, step)
            &&& read_passes_mark(state, input, output_room, ends_room, step)
            &&& read_owes_record(step)
            &&& depth > 0 ==> dependable_for(step.after, (depth - 1) as nat)
        }
}

/// A reader in this state keeps to all this whatever it reads.
pub open spec fn dependable(state: ReaderState) -> bool {
    forall|depth: nat| #[trigger] dependable_for(state, depth)
}

/// What a dependable reader does, and that it stays dependable.
pub proof fn lemma_dependable(
    state: ReaderState,
    input: Seq<u8>,
    output_room: nat,
    ends_room: nat,
)
    requires
        dependable(state),
        state.pending + input.len() <= usize::MAX,
    ensures
        !state.started ==> state.pending == 0 && rests(state) && rested(state) == begun(state),
        ({
            let step = record_read(state, input, output_room, ends_room);
            &&& home(step.after) == home(state)
            &&& input.len() == 0 ==> read_of_nothing(state, ends_room, step)
            &&& read_is_sound(state, input, output_room, ends_room, step)
            &&& read_needs_room(state, input, output_room, ends_room, step)
            &&& read_resumes(state, input, output_room, ends_room, step)
            &&& dependable(step.after)
        }),
{
    let step = record_read(state, input, output_room, ends_room);
    assert(dependable_for(state, 0));
    assert forall|depth: nat| #[trigger] dependable_for(step.after, depth) by {
        assert(dependable_for(state, depth + 1));
    }
}

/// What the first read of a dependable reader does.
pub proof fn lemma_first_read(
    state: ReaderState,
    input: Seq<u8>,
    output_room: nat,
    ends_room: nat,
)
    requires
        dependable(state),
        state.pending + input.len() <= usize::MAX,
        !state.started,
    ensures
        ({
            let step = record_read(state, input, output_room, ends_room);
            let later = record_read(begun(state), unmarked(input), output_room, ends_room);
            step == ReadStep {
                consumed: later.consumed + (input.len() - unmarked(input).len()) as nat,
                ..later
            }
        }),
        starts_with_mark(input) ==> record_read(state, input, output_room, ends_room).consumed >= 3,
{
    assert(dependable_for(state, 0));
    assert(read_passes_mark(
        state,
        input,
        output_room,
        ends_room,
        record_read(state, input, output_room, ends_room),
    ));
}

/// What a dependable reader has left to do once it ended a field.
pub proof fn lemma_owes_record(
    state: ReaderState,
    input: Seq<u8>,
    output_room: nat,
    ends_room: nat,
)
    requires
        dependable(state),
        state.pending + input.len() <= usize::MAX,
    ensures
        read_owes_record(record_read(state, input, output_room, ends_room)),
{
    assert(dependable_for(state, 0));
}

/// A [`csv_core::Reader`] is carried as a value without visible contents.
#[verifier::external_type_specification]
#[verifier::external_body]
pub struct ExCsvReader(csv_core::Reader);

/// Calls [`csv_core::ReaderBuilder`] with the settings of `dialect` and builds the reader.
///
/// Claimed: the state depends on the dialect alone; nothing was read yet and the line counter
/// stands at one; and every read of the reader, whatever it read before, keeps to
/// [`read_is_sound`], [`read_of_nothing`], [`read_needs_room`], [`read_resumes`],
/// [`read_passes_mark`] and [`read_owes_record`] and keeps the [`home`] of the reader, which is
/// where it starts out, but for that it has not read. A reader that is built strips a byte order
/// mark off its first input and reads byte by byte by its transition table, which is what these come
/// from.
#[verifier::external_body]
fn build_reader(dialect: &Dialect) -> (reader: csv_core::Reader)
    ensures
        reader_state(reader) == built_reader(*dialect),
        reader_state(reader).pending == 0,
        !reader_state(reader).started,
        reader_line(reader) == 1,
        dependable(reader_state(reader)),
{
    let terminator = match dialect.terminator {
        Terminator::CRLF => csv_core::Terminator::CRLF,
        Terminator::Any(byte) => csv_core::Terminator::Any(byte),
    };
    csv_core::ReaderBuilder::new()
        .delimiter(dialect.delimiter)
        .terminator(terminator)
        .quote(dialect.quote)
        .escape(dialect.escape)
        .double_quote(dialect.double_quote)
        .quoting(dialect.quoting)
        .comment(dialect.comment)
        .build()
}

/// Calls [`csv_core::Reader::read_record`].
///
/// Claimed: the outcome depends on the reader's state, the input and the sizes of the two buffers
/// alone; only the front of each buffer is written; and the line counter grows by no more than the
/// bytes consumed. The line counter and the count of bytes written for a record must not leave
/// their types.
#[verifier::external_body]
fn call_read_record(
    reader: &mut csv_core::Reader,
    input: &[u8],
    output: &mut [u8],
    ends: &mut [usize],
) -> (r: (ReadResult, usize, usize, usize))
    requires
        dependable(reader_state(*old(reader))),
        reader_state(*old(reader)).pending + input@.len() <= usize::MAX,
        reader_line(*old(reader)) + input@.len() <= u64::MAX,
    ensures
        ({
            let before = reader_state(*old(reader));
            let step = record_read(before, input@, old(output)@.len(), old(ends)@.len());
            &&& reader_state(*final(reader)) == step.after
            &&& reader_line(*final(reader)) <= reader_line(*old(reader)) + step.consumed
            &&& r.0 == step.result
            &&& r.1 == step.consumed
            &&& r.2 == step.output.len()
            &&& r.3 == step.ends.len()
            &&& final(output)@ == step.output + old(output)@.skip(step.output.len() as int)
            &&& final(ends)@ == step.ends + old(ends)@.skip(step.ends.len() as int)
        }),
{
    let (result, consumed, written, ended) = reader.read_record(input, output, ends);
    let result = match result {
        csv_core::ReadRecordResult::InputEmpty => ReadResult::InputEmpty,
        csv_core::ReadRecordResult::OutputFull => ReadResult::OutputFull,
        csv_core::ReadRecordResult::OutputEndsFull => ReadResult::OutputEndsFull,
        csv_core::ReadRecordResult::Record => ReadResult::Record,
        csv_core::ReadRecordResult::End => ReadResult::End,
    };
    (result, consumed, written, ended)
}

/// A reader that splits CSV data into fields and records.
#[derive(Debug)]
pub struct RecordReader {
    /// The reader that does the splitting.
    pub inner: csv_core::Reader,
    /// Bytes of field data already written for the record being read.
    pub record_len: usize,
    /// How many bytes of input were consumed in all.
    pub bytes_read: u64,
}

impl RecordReader {
    /// The state of the underlying reader.
    pub open spec fn state(&self) -> ReaderState {
        reader_state(self.inner)
    }

    /// The counts agree with the underlying reader.
    pub open spec fn well_formed(&self) -> bool {
        &&& dependable(self.state())
        &&& self.state().pending == self.record_len
        &&& reader_line(self.inner) <= 1 + self.bytes_read
    }

    /// A reader of the standard dialect.
    pub fn new() -> (reader: RecordReader)
        ensures
            reader.well_formed(),
            reader.state() == built_reader(Dialect::standard()),
            !reader.state().started,
            reader.record_len == 0,
            reader.bytes_read == 0,
    {
        RecordReader::with_dialect(Dialect::new())
    }

    /// A reader of the given dialect.
    pub fn with_dialect(dialect: Dialect) -> (reader: RecordReader)
        ensures
            reader.well_formed(),
            reader.state() == built_reader(dialect),
            !reader.state().started,
            reader.record_len == 0,
            reader.bytes_read == 0,
    {
        RecordReader { inner: build_reader(&dialect), record_len: 0, bytes_read: 0 }
    }

    /// Whether the reader's counters stay in range while it reads `amount` more bytes.
    pub open spec fn has_count_for(&self, amount: nat) -> bool {
        &&& self.record_len + amount <= usize::MAX
        &&& 1 + self.bytes_read + amount <= u64::MAX
    }

    /// Reads at most one record from `input[input_start..]`.
    ///
    /// Field data goes to `data[data_start..]` and field ends to `ends[ends_start..ends_end]`.
    /// Returns why the read stopped and how much it consumed, wrote and ended.
    pub fn read_record(
        &mut self,
        input: &[u8],
        input_start: usize,
        data: &mut Vec<u8>,
        data_start: usize,
        ends: &mut Vec<usize>,
        ends_start: usize,
        ends_end: usize,
    ) -> (r: (ReadResult, usize, usize, usize))
        requires
            old(self).well_formed(),
            input_start <= input@.len(),
            data_start <= old(data)@.len(),
            ends_start <= ends_end <= old(ends)@.len(),
            old(self).has_count_for((input@.len() - input_start) as nat),
        ensures
            final(self).well_formed(),
            ({
                let rest = input@.skip(input_start as int);
                let output_room = (old(data)@.len() - data_start) as nat;
                let ends_room = (ends_end - ends_start) as nat;
                let step = record_read(old(self).state(), rest, output_room, ends_room);
                &&& read_is_sound(old(self).state(), rest, output_room, ends_room, step)
                &&& final(self).state() == step.after
                &&& final(self).bytes_read == old(self).bytes_read + step.consumed
                &&& r.0 == step.result
                &&& r.1 == step.consumed
                &&& r.2 == step.output.len()
                &&& r.3 == step.ends.len()
                &&& final(data)@ == old(data)@.take(data_start as int) + step.output
                    + old(data)@.skip(data_start + step.output.len())
                &&& final(ends)@ == old(ends)@.take(ends_start as int) + step.ends
                    + old(ends)@.skip(ends_start + step.ends.len())
            }),
    {
        let rest = vstd::slice::slice_subrange(input, input_start, input.len());
        let (_, output) = data.as_mut_slice().split_at_mut(data_start);
        let (front, _) = ends.as_mut_slice().split_at_mut(ends_end);
        let (_, ends_room) = front.split_at_mut(ends_start);
        assert(rest@ == input@.skip(input_start as int));
        proof {
            lemma_dependable(self.state(), rest@, output@.len(), ends_room@.len());
        }
        let r = call_read_record(&mut self.inner, rest, output, ends_room);
        if let ReadResult::Record = r.0 {
            self.record_len = 0;
        } else {
            self.record_len = self.record_len + r.2;
        }
        self.bytes_read = self.bytes_read + r.1 as u64;
        r
    }
}

} // verus!
