//! Decoding does not depend on how the data is cut into pieces.

use crate::error::DecodeError;
use crate::model::{reads_left, strict_decode, strict_run, DecoderState, Progress};
use crate::reader::{
    dependable, lemma_dependable, record_read, starts_with_mark, ReadResult, ReadStep, ReaderState,
};
use vstd::prelude::*;

verus! {

impl DecoderState {
    /// The decoder without regard to how much room its buffer of field data has.
    pub open spec fn bare(self) -> DecoderState {
        DecoderState { data_size: 0, ..self }
    }

    /// The buffer of field ends is sized for `left` more records.
    pub open spec fn has_ends_for(self, left: nat) -> bool {
        &&& 1 <= self.offsets.len() <= self.offsets_size
        &&& self.offsets.len() + left * self.num_columns <= self.offsets_size + self.current_field
    }
}

/// The two decoders differ at most in how much room their buffers have.
pub open spec fn same_records(a: DecoderState, b: DecoderState) -> bool {
    a == DecoderState { offsets_size: a.offsets_size, data_size: a.data_size, ..b }
}

/// A read with room for all field data.
pub open spec fn roomy_read(state: ReaderState, input: Seq<u8>, ends_room: nat) -> ReadStep {
    record_read(state, input, input.len() + 1, ends_room)
}

/// Decodes `rest` up to `left` records, with room for all field data. Gives the last state and the
/// numbers of records and bytes read, or nothing where decoding fails.
pub open spec fn roomy_run(s: DecoderState, rest: Seq<u8>, left: nat) -> Option<
    (DecoderState, nat, nat),
>
    decreases rest.len(),
{
    let step = roomy_read(s.reader, rest, s.ends_room());
    let t = s.after_read(step).bare();
    match step.result {
        ReadResult::Record => if !t.row_fits() {
            None
        } else if left == 1 || step.consumed == rest.len() {
            Some((t.complete_row(), 1, step.consumed))
        } else if 0 < step.consumed < rest.len() {
            match roomy_run(
                t.complete_row(),
                rest.skip(step.consumed as int),
                (left - 1) as nat,
            ) {
                Some((u, rows, bytes)) => Some((u, rows + 1, bytes + step.consumed)),
                None => None,
            }
        } else {
            None
        },
        ReadResult::InputEmpty | ReadResult::End => Some((t, 0, step.consumed)),
        ReadResult::OutputFull | ReadResult::OutputEndsFull => None,
    }
}

/// More room than the input is long makes no difference.
pub proof fn lemma_more_room(state: ReaderState, input: Seq<u8>, output_room: nat, ends_room: nat)
    requires
        dependable(state),
        state.pending + input.len() <= usize::MAX,
        input.len() > 0,
        output_room > input.len(),
    ensures
        record_read(state, input, output_room, ends_room) == roomy_read(state, input, ends_room),
        roomy_read(state, input, ends_room).result != ReadResult::OutputFull,
{
    let step = record_read(state, input, output_room, ends_room);
    let first = roomy_read(state, input, ends_room);
    lemma_dependable(state, input, output_room, ends_room);
    lemma_dependable(state, input, input.len() + 1, ends_room);
    assert(input.take(input.len() as int) =~= input);
    if first.result != ReadResult::Record && first.consumed != input.len() {
        let rest = input.skip(first.consumed as int);
        let room = (output_room - first.output.len()) as nat;
        lemma_dependable(first.after, rest, room, 0);
        assert(step =~= first);
    }
}

/// A read with enough room is a read with less room and what comes after it.
pub proof fn lemma_less_room(
    state: ReaderState,
    input: Seq<u8>,
    output_room: nat,
    less_ends: nat,
    ends_room: nat,
)
    requires
        dependable(state),
        state.pending + input.len() <= usize::MAX,
        input.len() > 0,
        less_ends <= ends_room,
    ensures
        ({
            let step = record_read(state, input, output_room, less_ends);
            roomy_read(state, input, ends_room) == if step.result == ReadResult::Record
                || step.consumed == input.len() {
                step
            } else {
                step.and_then(
                    roomy_read(
                        step.after,
                        input.skip(step.consumed as int),
                        (ends_room - step.ends.len()) as nat,
                    ),
                )
            }
        }),
{
    let step = record_read(state, input, output_room, less_ends);
    let room = output_room + input.len() + 1;
    lemma_dependable(state, input, output_room, less_ends);
    lemma_dependable(state, input, room, ends_room);
    lemma_more_room(state, input, room, ends_room);
    assert(input.take(input.len() as int) =~= input);
    if step.result != ReadResult::Record && step.consumed != input.len() {
        let rest = input.skip(step.consumed as int);
        lemma_more_room(
            step.after,
            rest,
            (room - step.output.len()) as nat,
            (ends_room - step.ends.len()) as nat,
        );
    }
}

/// More room for field ends changes nothing but that it may run out later.
pub proof fn lemma_more_ends(state: ReaderState, input: Seq<u8>, less: nat, more: nat)
    requires
        dependable(state),
        state.pending + input.len() <= usize::MAX,
        input.len() > 0,
        less <= more,
        roomy_read(state, input, less).result != ReadResult::OutputEndsFull,
    ensures
        roomy_read(state, input, more) == roomy_read(state, input, less),
{
    lemma_more_room(state, input, input.len() + 1, less);
    lemma_dependable(state, input, input.len() + 1, less);
    lemma_dependable(state, input, input.len() + 1, more);
    assert(input.take(input.len() as int) =~= input);
}

/// A read of two pieces is a read of the first and what comes after it.
pub proof fn lemma_read_of_pieces(state: ReaderState, a: Seq<u8>, b: Seq<u8>, ends_room: nat)
    requires
        dependable(state),
        state.pending + a.len() + b.len() <= usize::MAX,
        a.len() > 0,
        b.len() > 0,
        state.started || !starts_with_mark(a + b) || a.len() >= 3,
    ensures
        ({
            let first = roomy_read(state, a, ends_room);
            let step = roomy_read(state, a + b, ends_room);
            match first.result {
                ReadResult::Record => step == first,
                ReadResult::InputEmpty | ReadResult::End => step == first.and_then(
                    roomy_read(first.after, b, (ends_room - first.ends.len()) as nat),
                ),
                ReadResult::OutputFull => false,
                ReadResult::OutputEndsFull => step.result == ReadResult::OutputEndsFull,
            }
        }),
{
    let first = roomy_read(state, a, ends_room);
    let input = a + b;
    let room = input.len() + 1;
    lemma_dependable(state, a, a.len() + 1, ends_room);
    lemma_dependable(state, input, room, ends_room);
    lemma_more_room(state, a, a.len() + 1, ends_room);
    assert(input.take(a.len() as int) =~= a);
    if first.result != ReadResult::Record {
        let rest = input.skip(first.consumed as int);
        let output_room = (room - first.output.len()) as nat;
        let left = (ends_room - first.ends.len()) as nat;
        lemma_dependable(first.after, rest, output_room, left);
        if first.result != ReadResult::OutputEndsFull {
            assert(rest =~= b);
            lemma_more_room(first.after, b, output_room, left);
        }
    }
}

/// Reading in two steps adds up.
pub proof fn lemma_absorb_twice(s: DecoderState, first: ReadStep, second: ReadStep)
    ensures
        s.after_read(first.and_then(second)) == s.after_read(first).after_read(second),
{
    assert(s.offsets + (first.ends + second.ends) =~= s.offsets + first.ends + second.ends);
    assert(s.data + (first.output + second.output) =~= s.data + first.output + second.output);
}

/// A row more, and what is left of the rows.
pub proof fn lemma_one_row_less(left: nat, num_columns: nat)
    requires
        left > 0,
    ensures
        left * num_columns == (left - 1) * num_columns + num_columns,
{
    assert(left * num_columns == (left - 1) * num_columns + num_columns) by (nonlinear_arith);
}

/// What decoding of `rest` from `s` may rely on.
pub open spec fn can_run(s: DecoderState, rest: Seq<u8>, left: nat) -> bool {
    &&& dependable(s.reader)
    &&& s.reader.pending + rest.len() <= usize::MAX
    &&& rest.len() > 0
    &&& left > 0
    &&& s.has_ends_for(left)
}

/// After a record, decoding goes on in the same way.
pub proof fn lemma_can_go_on(s: DecoderState, rest: Seq<u8>, left: nat, output_room: nat)
    requires
        can_run(s, rest, left),
    ensures
        ({
            let step = record_read(s.reader, rest, output_room, s.ends_room());
            let t = s.after_read(step);
            &&& dependable(t.reader)
            &&& t.reader.started
            &&& t.reader.pending <= s.reader.pending + step.consumed
            &&& t.has_ends_for(left)
            &&& t.row_fits() ==> t.complete_row().has_ends_for((left - 1) as nat)
            &&& t.row_fits() ==> t.complete_row().offsets.len() == t.offsets.len()
                - t.current_field + t.num_columns
        }),
{
    lemma_dependable(s.reader, rest, output_room, s.ends_room());
    lemma_one_row_less(left, s.num_columns);
    assert(0 <= (left - 1) * s.num_columns) by (nonlinear_arith)
        requires
            left > 0,
    ;
}

/// What decoding leaves.
pub proof fn lemma_run_leaves(s: DecoderState, rest: Seq<u8>, left: nat)
    requires
        can_run(s, rest, left),
        roomy_run(s, rest, left) is Some,
    ensures
        ({
            let (t, rows, bytes) = roomy_run(s, rest, left).unwrap();
            &&& dependable(t.reader)
            &&& t.reader.started
            &&& t.reader.pending <= s.reader.pending + bytes
            &&& rows <= left
            &&& bytes <= rest.len()
            &&& rows < left ==> bytes == rest.len()
            &&& t.num_columns == s.num_columns
            &&& t.offsets_size == s.offsets_size
            &&& t.has_ends_for((left - rows) as nat)
            &&& t.offsets.len() - t.current_field == s.offsets.len() - s.current_field + rows
                * s.num_columns
        }),
    decreases rest.len(),
{
    let step = roomy_read(s.reader, rest, s.ends_room());
    let t = s.after_read(step).bare();
    lemma_dependable(s.reader, rest, rest.len() + 1, s.ends_room());
    lemma_can_go_on(s, rest, left, rest.len() + 1);
    assert(0 * s.num_columns == 0 && 1 * s.num_columns == s.num_columns) by (nonlinear_arith);
    if step.result == ReadResult::Record && t.row_fits() && left != 1 && step.consumed
        < rest.len() {
        let next = rest.skip(step.consumed as int);
        lemma_run_leaves(t.complete_row(), next, (left - 1) as nat);
        let (_, rows, _) = roomy_run(t.complete_row(), next, (left - 1) as nat).unwrap();
        lemma_one_row_less(rows + 1, s.num_columns);
    }
}

/// Decoding a whole gives what decoding its first piece and then its second gives.
proof fn lemma_run_of_pieces(s: DecoderState, a: Seq<u8>, b: Seq<u8>, left: nat)
    requires
        can_run(s, a, left),
        b.len() > 0,
        s.reader.pending + a.len() + b.len() <= usize::MAX,
        s.reader.started || !starts_with_mark(a + b) || a.len() >= 3,
        roomy_run(s, a + b, left) is Some,
    ensures
        ({
            let (t, rows, bytes) = roomy_run(s, a + b, left).unwrap();
            &&& roomy_run(s, a, left) matches Some((m, first_rows, first_bytes))
            &&& if first_rows == left {
                t == m && rows == first_rows && bytes == first_bytes
            } else {
                roomy_run(m, b, (left - first_rows) as nat) == Some(
                    (t, (rows - first_rows) as nat, (bytes - a.len()) as nat),
                ) && rows >= first_rows && bytes >= a.len()
            }
        }),
    decreases a.len(),
{
    let first = roomy_read(s.reader, a, s.ends_room());
    let step = roomy_read(s.reader, a + b, s.ends_room());
    let m = s.after_read(first).bare();
    lemma_dependable(s.reader, a, a.len() + 1, s.ends_room());
    lemma_dependable(s.reader, a + b, (a + b).len() + 1, s.ends_room());
    lemma_read_of_pieces(s.reader, a, b, s.ends_room());
    lemma_can_go_on(s, a, left, a.len() + 1);
    match first.result {
        ReadResult::Record => {
            if left != 1 {
                let rest = a.skip(first.consumed as int);
                if first.consumed < a.len() {
                    assert((a + b).skip(first.consumed as int) =~= rest + b);
                    lemma_run_of_pieces(m.complete_row(), rest, b, (left - 1) as nat);
                } else {
                    assert((a + b).skip(first.consumed as int) =~= b);
                }
            }
        },
        _ => {
            let second = roomy_read(first.after, b, (s.ends_room() - first.ends.len()) as nat);
            lemma_absorb_twice(s, first, second);
            lemma_dependable(
                first.after,
                b,
                b.len() + 1,
                (s.ends_room() - first.ends.len()) as nat,
            );
            assert(m.ends_room() == s.ends_room() - first.ends.len());
            assert(s.after_read(step).bare() == m.after_read(second).bare());
            assert((a + b).skip(step.consumed as int) =~= b.skip(second.consumed as int));
        },
    }
}

/// With more room for field ends, decoding that succeeds gives the same.
proof fn lemma_run_with_more_ends(s: DecoderState, more: nat, rest: Seq<u8>, left: nat)
    requires
        can_run(s, rest, left),
        s.offsets_size <= more,
        roomy_run(s, rest, left) is Some,
    ensures
        ({
            let (t, rows, bytes) = roomy_run(s, rest, left).unwrap();
            roomy_run(DecoderState { offsets_size: more, ..s }, rest, left) == Some(
                (DecoderState { offsets_size: more, ..t }, rows, bytes),
            )
        }),
    decreases rest.len(),
{
    let step = roomy_read(s.reader, rest, s.ends_room());
    let t = s.after_read(step).bare();
    let u = DecoderState { offsets_size: more, ..s };
    lemma_dependable(s.reader, rest, rest.len() + 1, s.ends_room());
    lemma_more_ends(s.reader, rest, s.ends_room(), u.ends_room());
    lemma_can_go_on(s, rest, left, rest.len() + 1);
    assert(u.after_read(step).bare() == DecoderState { offsets_size: more, ..t });
    if step.result == ReadResult::Record && t.row_fits() {
        assert((DecoderState { offsets_size: more, ..t }).complete_row() == DecoderState {
            offsets_size: more,
            ..t.complete_row()
        });
        if left != 1 && step.consumed < rest.len() {
            lemma_run_with_more_ends(
                t.complete_row(),
                more,
                rest.skip(step.consumed as int),
                (left - 1) as nat,
            );
        }
    }
}

/// Whether the two descriptions of decoding agree.
pub open spec fn runs_agree(
    run: (DecoderState, Result<(usize, usize), DecodeError>),
    roomy: Option<(DecoderState, nat, nat)>,
    read: nat,
    used: nat,
) -> bool {
    match run.1 {
        Ok((rows, bytes)) => {
            &&& roomy matches Some((t, more_rows, more_bytes))
            &&& run.0.bare() == t.bare()
            &&& rows == read + more_rows
            &&& bytes == used + more_bytes
        },
        Err(_) => roomy is None,
    }
}

/// How much room there is for field data makes no difference.
pub proof fn lemma_runs_agree(s: DecoderState, input: Seq<u8>, used: nat, to_read: nat, read: nat)
    requires
        used < input.len() <= usize::MAX,
        read < to_read <= usize::MAX,
        can_run(s, input.skip(used as int), (to_read - read) as nat),
        s.data.len() <= s.data_size,
    ensures
        runs_agree(
            strict_run(s, input, used, to_read, read),
            roomy_run(s, input.skip(used as int), (to_read - read) as nat),
            read,
            used,
        ),
    decreases reads_left((input.len() - used) as nat, s.output_room(), 1, false),
{
    let rest = input.skip(used as int);
    let left = (to_read - read) as nat;
    let step = record_read(s.reader, rest, s.output_room(), s.ends_room());
    let roomy = roomy_read(s.reader, rest, s.ends_room());
    let now = used + step.consumed;
    let (t, verdict) = s.after_read(step).strict_verdict(step.result);
    lemma_dependable(s.reader, rest, s.output_room(), s.ends_room());
    lemma_less_room(s.reader, rest, s.output_room(), s.ends_room(), s.ends_room());
    lemma_more_room(s.reader, rest, rest.len() + 1, s.ends_room());
    lemma_can_go_on(s, rest, left, s.output_room());
    assert(rest.skip(step.consumed as int) =~= input.skip(now as int));
    match verdict {
        Ok(Progress::OutputFull) => {
            let next = t.reserve_data(left);
            let second = roomy_read(
                step.after,
                input.skip(now as int),
                (s.ends_room() - step.ends.len()) as nat,
            );
            lemma_absorb_twice(s, step, second);
            assert(next.ends_room() == s.ends_room() - step.ends.len());
            assert(s.after_read(roomy).bare() == next.after_read(second).bare());
            lemma_dependable(
                next.reader,
                input.skip(now as int),
                input.skip(now as int).len() + 1,
                next.ends_room(),
            );
            assert(rest.skip(roomy.consumed as int) =~= input.skip(now as int).skip(
                second.consumed as int,
            ));
            lemma_runs_agree(next, input, now, to_read, read);
        },
        Ok(Progress::Row) => {
            assert(t.bare() == s.after_read(step).bare().complete_row());
            if read + 1 < to_read && now < input.len() {
                lemma_runs_agree(t, input, now, to_read, read + 1);
                lemma_bare_start(t, input.skip(now as int), (left - 1) as nat);
            }
        },
        Err(_) => {
            if step.result == ReadResult::OutputEndsFull && step.consumed < rest.len() {
                let second = roomy_read(
                    step.after,
                    input.skip(now as int),
                    (s.ends_room() - step.ends.len()) as nat,
                );
                lemma_dependable(
                    step.after,
                    input.skip(now as int),
                    input.skip(now as int).len() + 1,
                    (s.ends_room() - step.ends.len()) as nat,
                );
            }
        },
        Ok(Progress::Exhausted) => {},
    }
}

/// The room for field data does not matter to a run that has room for all of it.
proof fn lemma_bare_start(s: DecoderState, rest: Seq<u8>, left: nat)
    ensures
        roomy_run(s.bare(), rest, left) == roomy_run(s, rest, left),
{
    let step = roomy_read(s.reader, rest, s.ends_room());
    assert(s.bare().after_read(step).bare() == s.after_read(step).bare());
}

/// Decoding without a handler does not depend on how much room the buffers had before.
pub proof fn lemma_room_before_is_irrelevant(
    a: DecoderState,
    b: DecoderState,
    input: Seq<u8>,
    to_read: nat,
)
    requires
        same_records(a, b),
        to_read > 0,
    ensures
        strict_decode(a, input, to_read) == strict_decode(b, input, to_read),
{
    assert(a.reserve_offsets(to_read).reserve_data(to_read) == b.reserve_offsets(
        to_read,
    ).reserve_data(to_read));
}

/// Where decoding a whole succeeds, decoding it in two pieces gives the same records.
///
/// The decoder stands between two records, and a byte order mark is not cut in two.
pub proof fn lemma_decoding_in_two_pieces(
    s: DecoderState,
    a: Seq<u8>,
    b: Seq<u8>,
    to_read: nat,
)
    requires
        dependable(s.reader),
        s.reader.pending + a.len() + b.len() <= usize::MAX,
        s.offsets.len() > 0,
        s.current_field == 0,
        a.len() > 0,
        b.len() > 0,
        0 < to_read <= usize::MAX,
        s.reader.started || !starts_with_mark(a + b) || a.len() >= 3,
        strict_decode(s, a + b, to_read).1 is Ok,
    ensures
        ({
            let (t, whole) = strict_decode(s, a + b, to_read);
            let (rows, bytes) = whole.unwrap();
            let (m, first) = strict_decode(s, a, to_read);
            &&& first matches Ok((first_rows, first_bytes))
            &&& if first_rows == to_read {
                same_records(t, m) && rows == first_rows && bytes == first_bytes
            } else {
                let (u, second) = strict_decode(m, b, (to_read - first_rows) as nat);
                &&& first_rows < to_read
                &&& first_bytes == a.len()
                &&& second matches Ok((second_rows, second_bytes))
                &&& same_records(t, u)
                &&& rows == first_rows + second_rows
                &&& bytes == first_bytes + second_bytes
            }
        }),
{
    let start = s.reserve_offsets(to_read).reserve_data(to_read);
    let whole = roomy_run(start, a + b, to_read);
    let first = roomy_run(start, a, to_read);
    assert(0 <= to_read * s.num_columns) by (nonlinear_arith);
    assert((a + b).skip(0) =~= a + b);
    assert(a.skip(0) =~= a);
    lemma_runs_agree(start, a + b, 0, to_read, 0);
    lemma_run_of_pieces(start, a, b, to_read);
    lemma_runs_agree(start, a, 0, to_read, 0);
    lemma_run_leaves(start, a, to_read);
    let (m, _) = strict_decode(s, a, to_read);
    let (roomy_m, rows, _) = first.unwrap();
    if rows < to_read {
        let left = (to_read - rows) as nat;
        let again = m.reserve_offsets(left).reserve_data(left);
        assert(left * s.num_columns + rows * s.num_columns == to_read * s.num_columns)
            by (nonlinear_arith)
            requires
                left + rows == to_read,
        ;
        lemma_run_with_more_ends(roomy_m, again.offsets_size, b, left);
        let more = DecoderState { offsets_size: again.offsets_size, ..roomy_m };
        assert(more.bare() == again.bare());
        lemma_bare_start(more, b, left);
        lemma_bare_start(again, b, left);
        assert(b.skip(0) =~= b);
        lemma_runs_agree(again, b, 0, left, 0);
    }
}

/// Decodes piece after piece until there are `to_read` records. Gives the last state and the
/// numbers of records and bytes read, or nothing where decoding fails.
pub open spec fn decode_pieces(s: DecoderState, pieces: Seq<Seq<u8>>, to_read: nat) -> Option<
    (DecoderState, nat, nat),
>
    decreases pieces.len(),
{
    if pieces.len() == 0 {
        Some((s, 0, 0))
    } else {
        match decode_pieces(s, pieces.drop_last(), to_read) {
            Some((m, rows, bytes)) => if rows >= to_read {
                Some((m, rows, bytes))
            } else {
                match strict_decode(m, pieces.last(), (to_read - rows) as nat) {
                    (t, Ok((more_rows, more_bytes))) => Some(
                        (t, rows + more_rows as nat, bytes + more_bytes as nat),
                    ),
                    (_, Err(_)) => None,
                }
            },
            None => None,
        }
    }
}

/// The pieces put together again.
pub open spec fn joined(pieces: Seq<Seq<u8>>) -> Seq<u8>
    decreases pieces.len(),
{
    if pieces.len() == 0 {
        Seq::empty()
    } else {
        joined(pieces.drop_last()) + pieces.last()
    }
}

proof fn lemma_joined_starts_with_first(pieces: Seq<Seq<u8>>)
    requires
        pieces.len() > 0,
    ensures
        joined(pieces).len() >= pieces[0].len(),
    decreases pieces.len(),
{
    if pieces.len() > 1 {
        lemma_joined_starts_with_first(pieces.drop_last());
    }
}

/// Where decoding a whole succeeds, decoding it piece by piece gives the same records, in however
/// many pieces it comes.
///
/// The decoder stands between two records, no piece is empty, and a byte order mark is not cut in
/// two.
pub proof fn lemma_decoding_in_pieces(s: DecoderState, pieces: Seq<Seq<u8>>, to_read: nat)
    requires
        dependable(s.reader),
        s.reader.pending + joined(pieces).len() <= usize::MAX,
        s.offsets.len() > 0,
        s.current_field == 0,
        pieces.len() > 0,
        forall|i: int| 0 <= i < pieces.len() ==> (#[trigger] pieces[i]).len() > 0,
        0 < to_read <= usize::MAX,
        s.reader.started || !starts_with_mark(joined(pieces)) || pieces[0].len() >= 3,
        strict_decode(s, joined(pieces), to_read).1 is Ok,
    ensures
        ({
            let (t, whole) = strict_decode(s, joined(pieces), to_read);
            let (rows, bytes) = whole.unwrap();
            &&& decode_pieces(s, pieces, to_read) matches Some((u, piece_rows, piece_bytes))
            &&& same_records(t, u)
            &&& piece_rows == rows
            &&& piece_bytes == bytes
        }),
    decreases pieces.len(),
{
    let front = pieces.drop_last();
    let b = pieces.last();
    let a = joined(front);
    assert(b == pieces[pieces.len() - 1]);
    reveal_with_fuel(decode_pieces, 2);
    if front.len() == 0 {
        assert(a + b =~= b);
    } else {
        lemma_joined_starts_with_first(front);
        assert(front[0] == pieces[0]);
        assert(a.len() > 0);
        assert(starts_with_mark(a) ==> starts_with_mark(a + b));
        assert forall|i: int| 0 <= i < front.len() implies (#[trigger] front[i]).len() > 0 by {
            assert(front[i] == pieces[i]);
        }
        lemma_decoding_in_two_pieces(s, a, b, to_read);
        lemma_decoding_in_pieces(s, front, to_read);
        let (m, first) = strict_decode(s, a, to_read);
        let (first_rows, _) = first.unwrap();
        let (u, _, _) = decode_pieces(s, front, to_read).unwrap();
        if first_rows < to_read {
            lemma_room_before_is_irrelevant(m, u, b, (to_read - first_rows) as nat);
        }
    }
}

} // verus!
