//! What decoding gives, said of the records that the reader splits the data into: of the numbers of
//! their fields, of their data and of their bytes.

use crate::cuts::{ends_once, lemma_session_is_stream, lemma_start, records_of, start_of};
use crate::handler::{CsvRecordErrorHandler, Notice};
use crate::layout::{lemma_field_given_back, lemma_rebased_in_order};
use crate::malformed::without_malformed;
use crate::model::DecoderState;
use crate::reader::{
    dependable, home, lemma_dependable, record_read, rested, ReadResult, ReaderState,
};
use crate::records::{cut_between_chars, lemma_text_by_field};
use crate::sessions::{
    is_session, keeps_records, lemma_sessions_account, lemma_sessions_deliver, Call, Stage,
};
use crate::skipping::{bytes_of, lemma_taken_first};
use crate::stream::{
    finish, full_read, lemma_can_read_on, lemma_full_read_of_front, lemma_split_leaves, made_of,
    rows_of, split, SplitRecord, Unfinished,
};
use vstd::prelude::*;
use vstd::utf8::valid_utf8;

verus! {

/// The records that are taken are those with a fitting number of fields.
pub proof fn lemma_taken_by_field_count(
    s: DecoderState,
    records: Seq<SplitRecord>,
    fits: spec_fn(SplitRecord) -> bool,
)
    requires
        forall|record: SplitRecord| #[trigger]
            fits(record) <==> record.ends.len() == s.num_columns || s.truncated_rows
                && record.ends.len() < s.num_columns,
    ensures
        s.taken(records) == records.filter(fits),
    decreases records.len(),
{
    if records.len() > 0 {
        let first = seq![records[0]];
        let others = records.drop_first();
        assert(records =~= first + others);
        assert(first.drop_last() =~= Seq::empty());
        reveal_with_fuel(Seq::filter, 2);
        Seq::filter_distributes_over_add(first, others, fits);
        lemma_taken_by_field_count(s, others, fits);
        lemma_taken_first(s, records);
        assert(s.takes(records[0]) == fits(records[0]));
        assert(s.taken(records) =~= records.filter(fits));
    }
}

/// Over every sequence of calls in which decoding succeeds, the records counted and buffered are
/// those with as many fields as there are columns, and where short records are allowed those with
/// fewer. Without a handler there are no others.
pub proof fn lemma_rows_by_field_count<H: CsvRecordErrorHandler + ?Sized>(
    handler: Option<&H>,
    calls: Seq<Call>,
    stages: Seq<Stage>,
    i: int,
    fits: spec_fn(SplitRecord) -> bool,
)
    requires
        is_session(handler, calls, stages),
        0 <= i < stages.len(),
        forall|record: SplitRecord| #[trigger]
            fits(record) <==> record.ends.len() == stages[0].state.num_columns
                || stages[0].state.truncated_rows && record.ends.len()
                < stages[0].state.num_columns,
    ensures
        ({
            let b = stages[i];
            let nc = stages[0].state.num_columns;
            let valid = b.records.filter(fits);
            &&& b.rows == valid.len()
            &&& b.bytes == b.fed.len()
            &&& b.state.num_rows + b.rows_before == valid.len()
            &&& handler is None ==> valid == b.records
            &&& handler is None ==> forall|k: int|
                0 <= k < b.records.len() ==> (#[trigger] b.records[k]).ends.len() == nc
                    || stages[0].state.truncated_rows && b.records[k].ends.len() < nc
        }),
{
    let s = stages[0].state;
    let b = stages[i];
    lemma_sessions_account(handler, calls, stages, i);
    lemma_taken_by_field_count(s, b.records, fits);
    if handler is None {
        assert forall|k: int| 0 <= k < b.records.len() implies (#[trigger] b.records[k]).ends.len()
            == s.num_columns || s.truncated_rows && b.records[k].ends.len() < s.num_columns by {
            b.records.lemma_filter_pred(fits, k);
        }
    }
}

/// As long as nothing is dropped and records are given out only between two records, the records
/// given out and then those buffered are the ones with a fitting number of fields, and field by
/// field they are what the reader split them into. Fields that a record lacks are empty.
pub proof fn lemma_fields_as_split<H: CsvRecordErrorHandler + ?Sized>(
    handler: Option<&H>,
    calls: Seq<Call>,
    stages: Seq<Stage>,
    i: int,
    fits: spec_fn(SplitRecord) -> bool,
)
    requires
        is_session(handler, calls, stages),
        0 <= i < stages.len(),
        forall|k: int| 0 <= k < i ==> keeps_records(#[trigger] calls[k], stages[k]),
        forall|record: SplitRecord| #[trigger]
            fits(record) <==> record.ends.len() == stages[0].state.num_columns
                || stages[0].state.truncated_rows && record.ends.len()
                < stages[0].state.num_columns,
    ensures
        ({
            let b = stages[i];
            let nc = stages[0].state.num_columns;
            let valid = b.records.filter(fits);
            let table = b.given + b.state.rows();
            &&& table.len() == valid.len()
            &&& b.given.len() + b.state.num_rows == valid.len()
            &&& forall|row: int| 0 <= row < valid.len() ==> (#[trigger] table[row]).len() == nc
            &&& forall|row: int, column: int|
                0 <= row < valid.len() && 0 <= column < nc ==> #[trigger] table[row][column]
                    == if column >= valid[row].ends.len() {
                    Seq::empty()
                } else {
                    valid[row].data.subrange(
                        if column == 0 {
                            0
                        } else {
                            valid[row].ends[column - 1] as int
                        },
                        valid[row].ends[column] as int,
                    )
                }
            &&& forall|row: nat, column: nat|
                row < b.state.num_rows && column < nc ==> #[trigger] b.state.field(row, column)
                    == table[b.given.len() + row as int][column as int]
        }),
{
    let s = stages[0].state;
    let b = stages[i];
    let nc = s.num_columns;
    let valid = b.records.filter(fits);
    let table = b.given + b.state.rows();
    lemma_sessions_account(handler, calls, stages, i);
    lemma_sessions_deliver(handler, calls, stages, i);
    lemma_taken_by_field_count(s, b.records, fits);
    assert(table == rows_of(valid, nc));
    assert(table.len() == valid.len());
    assert forall|row: int, column: int| 0 <= row < valid.len() && 0 <= column < nc implies
        #[trigger] table[row][column] == if column >= valid[row].ends.len() {
        Seq::empty()
    } else {
        valid[row].data.subrange(
            if column == 0 {
                0
            } else {
                valid[row].ends[column - 1] as int
            },
            valid[row].ends[column] as int,
        )
    } by {
        assert(table[row] == valid[row].fields(nc));
    }
    assert forall|row: int| 0 <= row < valid.len() implies (#[trigger] table[row]).len() == nc by {
        assert(table[row] == valid[row].fields(nc));
    }
    assert forall|row: nat, column: nat|
        row < b.state.num_rows && column < nc implies #[trigger] b.state.field(row, column)
        == table[b.given.len() + row as int][column as int] by {
        assert(table[b.given.len() + row as int] == b.state.rows()[row as int]);
    }
}

/// The bytes of records one after the other.
proof fn lemma_made_of_bytes(records: Seq<SplitRecord>, bytes: spec_fn(SplitRecord) -> Seq<u8>)
    requires
        forall|record: SplitRecord| #[trigger] bytes(record) == record.bytes,
    ensures
        made_of(records) == records.map_values(bytes).flatten(),
        bytes_of(records) == records.map_values(bytes).flatten().len(),
    decreases records.len(),
{
    if records.len() > 0 {
        lemma_made_of_bytes(records.drop_first(), bytes);
        assert(records.map_values(bytes).drop_first() =~= records.drop_first().map_values(bytes));
        assert(records.map_values(bytes).first() == records[0].bytes);
    }
}

/// What is told of one record.
proof fn lemma_notice_at(s: DecoderState, records: Seq<SplitRecord>, line: nat, offset: nat, k: int)
    requires
        0 <= k < records.len(),
    ensures
        s.notices_of(records, line, offset).len() == records.len(),
        s.notices_of(records, line, offset)[k] == s.notice_of(
            records[k],
            (line + k) as nat,
            offset + bytes_of(records.take(k)),
        ),
    decreases records.len(),
{
    let others = records.drop_first();
    if k > 0 {
        lemma_notice_at(s, others, line + 1, offset + records[0].bytes.len(), k - 1);
        assert(records.take(k).drop_first() =~= others.take(k - 1));
        assert(records.take(k)[0] == records[0]);
        assert(others[k - 1] == records[k]);
    } else {
        assert(records.take(0) =~= Seq::empty());
        reveal_with_fuel(DecoderState::notices_of, 2);
        if others.len() > 0 {
            lemma_notice_at(s, others, line + 1, offset + records[0].bytes.len(), 0);
        }
    }
}

/// Over every sequence of calls in which decoding succeeds, a handler is told of each record once
/// and in order: of one with a fitting number of fields as such, of every other as malformed, with
/// the number of fields that a record has and the number that the reader split this one into; and in
/// both cases with the record's line, where its bytes start in the data, and its bytes.
pub proof fn lemma_notices_by_field_count<H: CsvRecordErrorHandler + ?Sized>(
    handler: &H,
    calls: Seq<Call>,
    stages: Seq<Stage>,
    i: int,
    bytes: spec_fn(SplitRecord) -> Seq<u8>,
)
    requires
        is_session(Some(handler), calls, stages),
        0 <= i < stages.len(),
        forall|record: SplitRecord| #[trigger] bytes(record) == record.bytes,
    ensures
        ({
            let b = stages[i];
            let nc = stages[0].state.num_columns;
            &&& b.told.len() == b.records.len()
            &&& b.records.map_values(bytes).flatten() + b.unfinished.bytes == b.fed
            &&& forall|k: int|
                0 <= k < b.told.len() ==> #[trigger] b.told[k] == if b.records[k].ends.len() == nc
                    || stages[0].state.truncated_rows && b.records[k].ends.len() < nc {
                    Notice::Record {
                        line_number: (1 + k) as nat,
                        byte_offset: b.records.take(k).map_values(bytes).flatten().len(),
                        record: b.records[k].bytes,
                    }
                } else {
                    Notice::Malformed {
                        line_number: (1 + k) as nat,
                        byte_offset: b.records.take(k).map_values(bytes).flatten().len(),
                        expected_fields: nc,
                        actual_fields: b.records[k].ends.len(),
                        record: b.records[k].bytes,
                    }
                }
        }),
{
    let s = stages[0].state;
    let b = stages[i];
    let nc = s.num_columns;
    lemma_sessions_account(Some(handler), calls, stages, i);
    lemma_made_of_bytes(b.records, bytes);
    if b.records.len() > 0 {
        lemma_notice_at(s, b.records, 1, 0, 0);
    }
    assert forall|k: int| 0 <= k < b.told.len() implies #[trigger] b.told[k]
        == if b.records[k].ends.len() == nc || s.truncated_rows && b.records[k].ends.len() < nc {
        Notice::Record {
            line_number: (1 + k) as nat,
            byte_offset: b.records.take(k).map_values(bytes).flatten().len(),
            record: b.records[k].bytes,
        }
    } else {
        Notice::Malformed {
            line_number: (1 + k) as nat,
            byte_offset: b.records.take(k).map_values(bytes).flatten().len(),
            expected_fields: nc,
            actual_fields: b.records[k].ends.len(),
            record: b.records[k].bytes,
        }
    } by {
        lemma_notice_at(s, b.records, 1, 0, k);
        lemma_made_of_bytes(b.records.take(k), bytes);
    }
}

/// Every record that is split off a stream is what the reader makes of the record's own bytes, and
/// what is left is what it makes of the bytes that are left.
proof fn lemma_split_reads(from: ReaderState, between: ReaderState, input: Seq<u8>)
    requires
        Unfinished::nothing(from).can_read(input.len()),
        from.pending == 0,
        home(from) == between,
        between.pending == 0,
        dependable(between),
    ensures
        ({
            let (records, last) = split(Unfinished::nothing(from), input);
            &&& forall|k: int|
                #![trigger records[k]]
                0 <= k < records.len() ==> {
                    let r = records[k];
                    let step = record_read(
                        if k == 0 {
                            from
                        } else {
                            between
                        },
                        r.bytes,
                        r.bytes.len() + 1,
                        r.bytes.len() + 1,
                    );
                    &&& r.bytes.len() > 0
                    &&& step.result == ReadResult::Record
                    &&& step.consumed == r.bytes.len()
                    &&& step.ends == r.ends
                    &&& step.output == r.data
                }
            &&& ({
                let f = if records.len() == 0 {
                    from
                } else {
                    between
                };
                let step = record_read(
                    f,
                    last.bytes,
                    last.bytes.len() + 1,
                    last.bytes.len() + 1,
                );
                if last.bytes.len() == 0 {
                    last == Unfinished::nothing(f)
                } else {
                    &&& step.result != ReadResult::Record
                    &&& step.ends == last.ends
                    &&& step.output == last.data
                    &&& step.after == last.reader
                }
            })
        }),
    decreases input.len(),
{
    let start = Unfinished::nothing(from);
    let (records, last) = split(start, input);
    if input.len() > 0 {
        let step = full_read(from, input);
        lemma_can_read_on(start, input, 0);
        lemma_dependable(from, input, input.len() + 1, input.len() + 1);
        let front = input.take(step.consumed as int);
        assert(start.ends + step.ends =~= step.ends);
        assert(start.data + step.output =~= step.output);
        assert(start.bytes + front =~= front);
        if step.result == ReadResult::Record {
            let unread = input.skip(step.consumed as int);
            let record = start.after(step, front).record();
            assert(rested(step.after) == between);
            lemma_dependable(step.after, Seq::empty(), 1, 1);
            lemma_full_read_of_front(from, input, step.consumed as int);
            lemma_dependable(between, Seq::empty(), 1, 1);
            assert(home(between) == home(step.after));
            lemma_split_reads(between, between, unread);
            let (others, _) = split(Unfinished::nothing(between), unread);
            assert(records == seq![record] + others);
            assert forall|k: int|
                #![trigger records[k]]
                0 <= k < records.len() implies {
                let r = records[k];
                let read = record_read(
                    if k == 0 {
                        from
                    } else {
                        between
                    },
                    r.bytes,
                    r.bytes.len() + 1,
                    r.bytes.len() + 1,
                );
                &&& r.bytes.len() > 0
                &&& read.result == ReadResult::Record
                &&& read.consumed == r.bytes.len()
                &&& read.ends == r.ends
                &&& read.output == r.data
            } by {
                if k > 0 {
                    assert(records[k] == others[k - 1]);
                }
            }
        } else {
            assert(front =~= input);
        }
    }
}

/// The records that a decoder is fed are what the reader makes of their bytes, and their bytes, one
/// after the other and followed by those of what is unfinished, are the data consumed. Only the end
/// of the data completes a record that its bytes do not.
///
/// The first record is read by the reader as it came if the data starts with a byte order mark, all
/// others by the reader as it stands between two records.
pub proof fn lemma_records_are_reads<H: CsvRecordErrorHandler + ?Sized>(
    handler: Option<&H>,
    calls: Seq<Call>,
    stages: Seq<Stage>,
    i: int,
    bytes: spec_fn(SplitRecord) -> Seq<u8>,
)
    requires
        is_session(handler, calls, stages),
        ends_once(calls, stages),
        0 <= i < stages.len(),
        stages[i].fed.len() <= usize::MAX,
        forall|record: SplitRecord| #[trigger] bytes(record) == record.bytes,
    ensures
        ({
            let b = stages[i];
            let reader = stages[0].state.reader;
            let between = record_read(reader, Seq::empty(), 1, 1).after;
            &&& b.records.map_values(bytes).flatten() + b.unfinished.bytes == b.fed
            &&& forall|k: int|
                #![trigger b.records[k]]
                0 <= k < b.records.len() ==> {
                    let r = b.records[k];
                    let step = record_read(
                        if k == 0 && b.marked {
                            reader
                        } else {
                            between
                        },
                        r.bytes,
                        r.bytes.len() + 1,
                        r.bytes.len() + 1,
                    );
                    let end = record_read(step.after, Seq::empty(), 1, 1);
                    &&& r.bytes.len() > 0
                    &&& if step.result == ReadResult::Record {
                        &&& step.consumed == r.bytes.len()
                        &&& step.ends == r.ends
                        &&& step.output == r.data
                    } else {
                        &&& b.ended
                        &&& k == b.records.len() - 1
                        &&& end.result == ReadResult::Record
                        &&& step.ends + end.ends == r.ends
                        &&& step.output == r.data
                    }
                }
            &&& !b.ended && b.unfinished.bytes.len() > 0 ==> {
                let u = b.unfinished;
                let step = record_read(
                    if b.records.len() == 0 && b.marked {
                        reader
                    } else {
                        between
                    },
                    u.bytes,
                    u.bytes.len() + 1,
                    u.bytes.len() + 1,
                );
                &&& step.result != ReadResult::Record
                &&& step.ends == u.ends
                &&& step.output == u.data
            }
        }),
{
    let b = stages[i];
    let reader = stages[0].state.reader;
    let between = rested(reader);
    let start = start_of(reader, b.marked);
    let (records, last) = split(start, b.fed);
    lemma_sessions_account(handler, calls, stages, i);
    lemma_session_is_stream(handler, calls, stages, i);
    lemma_made_of_bytes(b.records, bytes);
    lemma_start(reader, b.marked, b.fed.len());
    lemma_start(reader, false, b.fed.len());
    lemma_dependable(reader, Seq::empty(), 1, 1);
    lemma_split_reads(start.reader, between, b.fed);
    if b.ended {
        let (more, _) = finish(last);
        lemma_split_leaves(start, b.fed, 0);
        lemma_dependable(last.reader, Seq::empty(), 1, 1);
        if more.len() > 0 {
            assert(last.bytes + Seq::<u8>::empty() =~= last.bytes);
            assert(last.bytes.len() > 0);
        }
        assert forall|k: int|
            #![trigger b.records[k]]
            0 <= k < b.records.len() implies {
            let r = b.records[k];
            let step = record_read(
                if k == 0 && b.marked {
                    reader
                } else {
                    between
                },
                r.bytes,
                r.bytes.len() + 1,
                r.bytes.len() + 1,
            );
            let end = record_read(step.after, Seq::empty(), 1, 1);
            &&& r.bytes.len() > 0
            &&& if step.result == ReadResult::Record {
                &&& step.consumed == r.bytes.len()
                &&& step.ends == r.ends
                &&& step.output == r.data
            } else {
                &&& b.ended
                &&& k == b.records.len() - 1
                &&& end.result == ReadResult::Record
                &&& step.ends + end.ends == r.ends
                &&& step.output == r.data
            }
        } by {
            if k < records.len() {
                assert(b.records[k] == records[k]);
            } else {
                assert(b.records[k] == more[k - records.len()]);
                let end = record_read(last.reader, Seq::empty(), 1, 1);
                assert(last.data + end.output =~= last.data);
            }
        }
    }
}

/// A stream with its malformed records cut out is made of the bytes of the records with a fitting
/// number of fields, one after the other, and of those that are left at its end.
pub proof fn lemma_cut_by_field_count(
    s: DecoderState,
    marked: bool,
    stream: Seq<u8>,
    fits: spec_fn(SplitRecord) -> bool,
    bytes: spec_fn(SplitRecord) -> Seq<u8>,
)
    requires
        forall|record: SplitRecord| #[trigger]
            fits(record) <==> record.ends.len() == s.num_columns || s.truncated_rows
                && record.ends.len() < s.num_columns,
        forall|record: SplitRecord| #[trigger] bytes(record) == record.bytes,
    ensures
        ({
            let (records, last) = records_of(s.reader, marked, stream, true);
            without_malformed(s, marked, stream) == records.filter(fits).map_values(bytes).flatten()
                + last.bytes
        }),
{
    let (records, _) = records_of(s.reader, marked, stream, true);
    lemma_taken_by_field_count(s, records, fits);
    lemma_made_of_bytes(records.filter(fits), bytes);
}

/// Buffered records can be given out just where every one of their fields is UTF-8 by itself.
///
/// The decoder stands between two records.
pub proof fn lemma_given_out_if_fields_are_text(s: DecoderState)
    requires
        s.laid_out(),
        s.current_field == 0,
        s.reader.pending == 0,
        s.num_columns > 0,
        s.data.len() <= usize::MAX,
    ensures
        s.rebase_fits(),
        valid_utf8(s.data) && cut_between_chars(s.data, s.rebased(s.rebase_count()).offsets)
            <==> forall|row: nat, column: nat|
            row < s.num_rows && column < s.num_columns ==> valid_utf8(
                #[trigger] s.field(row, column),
            ),
{
    let nc = s.num_columns;
    let ends = s.rebased(s.rebase_count()).offsets;
    lemma_rebased_in_order(s);
    lemma_text_by_field(s.data, ends);
    if forall|row: nat, column: nat|
        row < s.num_rows && column < nc ==> valid_utf8(#[trigger] s.field(row, column)) {
        assert forall|k: int| 0 <= k < ends.len() - 1 implies valid_utf8(
            #[trigger] s.data.subrange(ends[k] as int, ends[k + 1] as int),
        ) by {
            let row = (k / nc as int) as nat;
            let column = (k % nc as int) as nat;
            lemma_place_of_field(k, nc, s.num_rows);
            lemma_field_given_back(s, row, column);
            assert(valid_utf8(s.field(row, column)));
        }
    }
    if valid_utf8(s.data) && cut_between_chars(s.data, ends) {
        assert forall|row: nat, column: nat| row < s.num_rows && column < nc implies valid_utf8(
            #[trigger] s.field(row, column),
        ) by {
            let k = (row * nc + column) as int;
            lemma_field_given_back(s, row, column);
            assert(valid_utf8(s.data.subrange(ends[k] as int, ends[k + 1] as int)));
        }
    }
}

/// The row and the column of a field.
proof fn lemma_place_of_field(k: int, num_columns: nat, rows: nat)
    requires
        num_columns > 0,
        0 <= k < rows * num_columns,
    ensures
        0 <= k / (num_columns as int) < rows,
        0 <= k % (num_columns as int) < num_columns,
        (k / (num_columns as int)) * num_columns + k % (num_columns as int) == k,
{
    let d = num_columns as int;
    let row = k / d;
    vstd::arithmetic::div_mod::lemma_fundamental_div_mod(k, d);
    vstd::arithmetic::div_mod::lemma_mod_bound(k, d);
    vstd::arithmetic::div_mod::lemma_div_pos_is_pos(k, d);
    assert(d * row == row * d) by (nonlinear_arith);
    assert(row < rows) by (nonlinear_arith)
        requires
            row * d <= k,
            k < rows * d,
            d > 0,
    ;
}

} // verus!
