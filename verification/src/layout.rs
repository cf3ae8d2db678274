//! How the field ends and the field data of buffered records lie in their buffers.

use crate::error::CsvError;
use crate::model::DecoderState;
use crate::reader::{read_is_sound, ReadResult, ReadStep};
use vstd::prelude::*;

verus! {

/// Where the data of a row starts, from the ends of the rows before it.
pub open spec fn row_base(offsets: Seq<usize>, num_columns: nat, row: nat) -> nat
    decreases row,
{
    if row == 0 {
        0
    } else {
        row_base(offsets, num_columns, (row - 1) as nat) + offsets[(row * num_columns) as int] as nat
    }
}

/// The ends of a row's fields.
pub open spec fn row_ends(offsets: Seq<usize>, num_columns: nat, row: nat) -> Seq<usize> {
    offsets.subrange((1 + row * num_columns) as int, (1 + (row + 1) * num_columns) as int)
}

/// No entry is greater than a later one.
pub open spec fn ordered(entries: Seq<usize>) -> bool {
    forall|i: int, j: int|
        0 <= i <= j < entries.len() ==> #[trigger] entries[i] <= #[trigger] entries[j]
}

impl DecoderState {
    /// How many offsets the buffered records take.
    pub open spec fn row_offsets(self) -> nat {
        1 + self.num_rows * self.num_columns
    }

    /// The ends of the fields of the record being read.
    pub open spec fn partial_row(self) -> Seq<usize> {
        self.offsets.skip(self.row_offsets() as int)
    }

    /// The offsets are those of whole records and of the record being read, in order, and they
    /// account for all of the data.
    pub open spec fn laid_out(self) -> bool {
        &&& self.offsets.len() == self.row_offsets() + self.current_field
        &&& self.offsets[0] == 0
        &&& forall|row: nat|
            row < self.num_rows ==> ordered(
                #[trigger] row_ends(self.offsets, self.num_columns, row),
            )
        &&& ordered(self.partial_row())
        &&& self.current_field > 0 ==> self.partial_row().last() <= self.reader.pending
        &&& row_base(self.offsets, self.num_columns, self.num_rows) + self.reader.pending
            == self.data.len()
    }

    /// The place to go back to is the start of the record being read.
    pub open spec fn synced(self) -> bool {
        &&& self.record_offsets_start == self.row_offsets()
        &&& self.record_data_start + self.reader.pending == self.data.len()
    }

    /// The offsets that stay when the record being read is dropped.
    pub open spec fn kept_offsets(self) -> Seq<usize> {
        self.offsets.take(self.record_offsets_start as int)
    }

    /// The data that stays when the record being read is dropped.
    pub open spec fn kept_data(self) -> Seq<u8> {
        self.data.take(self.record_data_start as int)
    }

    /// The bytes of a field of a buffered record.
    pub open spec fn field(self, row: nat, column: nat) -> Seq<u8> {
        let base = row_base(self.offsets, self.num_columns, row);
        let i = (row * self.num_columns + column) as int;
        let start = if column == 0 {
            base
        } else {
            base + self.offsets[i] as nat
        };
        self.data.subrange(start as int, (base + self.offsets[i + 1]) as int)
    }

    /// How many field ends are counted from the start of the data when the records are given out.
    pub open spec fn rebase_count(self) -> nat {
        whole_rows(self.offsets, self.num_columns) * self.num_columns
    }

    /// Whether all field ends fit their type when counted from the start of the data.
    pub open spec fn rebase_fits(self) -> bool {
        rebase_fits(self.offsets, self.num_columns, self.rebase_count())
    }

    /// The field end at `i` is the first that does not fit its type when counted from the start of
    /// the data.
    pub open spec fn overflows_first_at(self, i: int) -> bool {
        &&& 1 <= i <= self.rebase_count()
        &&& rebase_fits(self.offsets, self.num_columns, (i - 1) as nat)
        &&& rebased_end(self.offsets, self.num_columns, i) > usize::MAX
    }

    /// Whether the lines of the buffered records can be counted. They can in every decoder that only
    /// decoded, gave out and dropped records.
    pub open spec fn lines_fit(self) -> bool {
        ||| self.laid_out() && self.numbered()
        ||| {
            &&& self.num_rows <= self.line_number
            &&& self.line_number - self.num_rows + whole_rows(self.offsets, self.num_columns)
                <= usize::MAX
        }
    }

    /// The error for data that is not UTF-8 in the field that starts at the entry `index` of the
    /// offsets.
    pub open spec fn utf8_error(self, index: int) -> CsvError {
        CsvError::InvalidUtf8 {
            line: (self.line_number - self.num_rows + index / self.num_columns as int) as usize,
            field: (index % self.num_columns as int + 1) as usize,
        }
    }

    /// The decoder with the first `count` field ends counted from the start of the data.
    pub open spec fn rebased(self, count: nat) -> DecoderState {
        DecoderState { offsets: rebased(self.offsets, self.num_columns, count), ..self }
    }

    /// The bytes kept of the record being read are those read since its start.
    pub open spec fn bytes_tracked(self) -> bool {
        self.record_byte_offset + self.record_bytes.len() == self.stream_offset
    }
}

proof fn lemma_next_row(row: nat, num_columns: nat)
    ensures
        (row + 1) * num_columns == row * num_columns + num_columns,
{
    assert((row + 1) * num_columns == row * num_columns + num_columns) by (nonlinear_arith);
}

proof fn lemma_rows_monotone(a: nat, b: nat, num_columns: nat)
    requires
        a <= b,
    ensures
        a * num_columns <= b * num_columns,
{
    assert(a * num_columns <= b * num_columns) by (nonlinear_arith)
        requires
            a <= b,
    ;
}

/// Rows look the same in two buffers that agree on them.
pub proof fn lemma_rows_agree(a: Seq<usize>, b: Seq<usize>, num_columns: nat, rows: nat)
    requires
        1 + rows * num_columns <= a.len(),
        1 + rows * num_columns <= b.len(),
        forall|i: int| 0 <= i < 1 + rows * num_columns ==> #[trigger] a[i] == b[i],
    ensures
        row_base(a, num_columns, rows) == row_base(b, num_columns, rows),
        forall|row: nat|
            row < rows ==> #[trigger] row_ends(a, num_columns, row) == row_ends(
                b,
                num_columns,
                row,
            ),
    decreases rows,
{
    if rows > 0 {
        let before = (rows - 1) as nat;
        lemma_next_row(before, num_columns);
        lemma_rows_agree(a, b, num_columns, before);
        assert forall|row: nat| row < rows implies #[trigger] row_ends(a, num_columns, row)
            == row_ends(b, num_columns, row) by {
            lemma_next_row(row, num_columns);
            lemma_rows_monotone((row + 1) as nat, rows, num_columns);
            assert(row_ends(a, num_columns, row) =~= row_ends(b, num_columns, row));
        }
    }
}

/// What a read adds to the record being read.
proof fn lemma_partial_row_after_read(
    s: DecoderState,
    input: Seq<u8>,
    output_room: nat,
    ends_room: nat,
    step: ReadStep,
)
    requires
        s.laid_out(),
        read_is_sound(s.reader, input, output_room, ends_room, step),
    ensures
        ({
            let t = s.after_read(step);
            &&& t.offsets.len() == t.row_offsets() + t.current_field
            &&& t.offsets[0] == 0
            &&& t.partial_row() == s.partial_row() + step.ends
            &&& ordered(t.partial_row())
            &&& t.current_field > 0 ==> t.partial_row().last() <= s.reader.pending
                + step.output.len()
            &&& row_base(t.offsets, t.num_columns, t.num_rows) == row_base(
                s.offsets,
                s.num_columns,
                s.num_rows,
            )
            &&& forall|row: nat|
                row < t.num_rows ==> ordered(
                    #[trigger] row_ends(t.offsets, t.num_columns, row),
                )
        }),
{
    let t = s.after_read(step);
    lemma_rows_agree(s.offsets, t.offsets, s.num_columns, s.num_rows);
    let before = s.partial_row();
    assert(t.partial_row() =~= before + step.ends);
    assert(before.len() == s.current_field);
    assert forall|i: int, j: int| 0 <= i <= j < t.partial_row().len() implies #[trigger]
        t.partial_row()[i] <= #[trigger] t.partial_row()[j] by {
        if j < before.len() {
            assert(before[i] <= before[j]);
        } else if i < before.len() {
            assert(before[i] <= before[before.len() - 1]);
            assert(before.last() == before[before.len() - 1]);
            assert(step.ends[j - before.len()] >= s.reader.pending);
        } else {
            assert(step.ends[i - before.len()] <= step.ends[j - before.len()]);
        }
    }
    assert forall|row: nat| row < t.num_rows implies ordered(
        #[trigger] row_ends(t.offsets, t.num_columns, row),
    ) by {
        assert(row_ends(s.offsets, s.num_columns, row) == row_ends(t.offsets, t.num_columns, row));
    }
}

/// A read that ends no record keeps the layout.
pub proof fn lemma_read_keeps_layout(
    s: DecoderState,
    input: Seq<u8>,
    output_room: nat,
    ends_room: nat,
    step: ReadStep,
)
    requires
        s.laid_out(),
        read_is_sound(s.reader, input, output_room, ends_room, step),
        step.result != ReadResult::Record,
    ensures
        s.after_read(step).laid_out(),
        s.synced() ==> s.after_read(step).synced(),
{
    lemma_partial_row_after_read(s, input, output_room, ends_room, step);
}

/// Buffering the record just read keeps the layout.
pub proof fn lemma_row_keeps_layout(
    s: DecoderState,
    input: Seq<u8>,
    output_room: nat,
    ends_room: nat,
    step: ReadStep,
)
    requires
        s.laid_out(),
        read_is_sound(s.reader, input, output_room, ends_room, step),
        step.result == ReadResult::Record,
        s.after_read(step).row_fits(),
    ensures
        s.after_read(step).complete_row().laid_out(),
        s.after_read(step).complete_row().begin_record().synced(),
{
    lemma_partial_row_after_read(s, input, output_room, ends_room, step);
    let t = s.after_read(step);
    let u = t.complete_row();
    let total = s.reader.pending + step.output.len();
    lemma_next_row(t.num_rows, t.num_columns);
    lemma_rows_agree(t.offsets, u.offsets, t.num_columns, t.num_rows);
    let row = row_ends(u.offsets, u.num_columns, t.num_rows);
    let partial = t.partial_row();
    assert(partial.last() == step.ends.last());
    assert(t.offsets.last() == partial.last());
    assert(row =~= partial + Seq::new(t.missing_fields(), |i: int| t.offsets.last()));
    assert(row.last() == total);
    assert(u.offsets[((t.num_rows + 1) * t.num_columns) as int] == row.last());
    assert(ordered(row)) by {
        assert forall|i: int, j: int| 0 <= i <= j < row.len() implies #[trigger] row[i]
            <= #[trigger] row[j] by {
            if i < partial.len() {
                assert(partial[i] <= partial[partial.len() - 1]);
                if j < partial.len() {
                    assert(partial[i] <= partial[j]);
                }
            }
        }
    }
    assert forall|k: nat| k < u.num_rows implies ordered(
        #[trigger] row_ends(u.offsets, u.num_columns, k),
    ) by {
        if k < t.num_rows {
            assert(row_ends(t.offsets, t.num_columns, k) == row_ends(u.offsets, u.num_columns, k));
        }
    }
    assert(u.partial_row() =~= Seq::empty());
}

/// Dropping a malformed record leaves the records before it.
pub proof fn lemma_skip_keeps_layout(
    s: DecoderState,
    input: Seq<u8>,
    output_room: nat,
    ends_room: nat,
    step: ReadStep,
)
    requires
        s.laid_out(),
        s.synced(),
        read_is_sound(s.reader, input, output_room, ends_room, step),
        step.result == ReadResult::Record,
    ensures
        s.after_read(step).skip_record().laid_out(),
        s.after_read(step).skip_record().synced(),
        s.after_read(step).skip_record().offsets == s.offsets.take(s.row_offsets() as int),
        s.after_read(step).skip_record().data == s.data.take(s.record_data_start as int),
{
    lemma_partial_row_after_read(s, input, output_room, ends_room, step);
    let t = s.after_read(step);
    let u = t.skip_record();
    lemma_rows_agree(t.offsets, u.offsets, t.num_columns, t.num_rows);
    assert(u.offsets =~= s.offsets.take(s.row_offsets() as int));
    assert(u.data =~= s.data.take(s.record_data_start as int));
    assert(u.partial_row() =~= Seq::empty());
    assert forall|k: nat| k < u.num_rows implies ordered(
        #[trigger] row_ends(u.offsets, u.num_columns, k),
    ) by {
        assert(row_ends(t.offsets, t.num_columns, k) == row_ends(u.offsets, u.num_columns, k));
    }
}

/// How many whole rows the offsets hold.
pub open spec fn whole_rows(offsets: Seq<usize>, num_columns: nat) -> nat {
    ((offsets.len() - 1) / num_columns as int) as nat
}

/// Where the field that ends at entry `i` ends in the data.
pub open spec fn rebased_end(offsets: Seq<usize>, num_columns: nat, i: int) -> nat {
    offsets[i] as nat + row_base(offsets, num_columns, ((i - 1) / num_columns as int) as nat)
}

/// Whether the first `count` field ends fit their type when counted from the start of the data.
pub open spec fn rebase_fits(offsets: Seq<usize>, num_columns: nat, count: nat) -> bool {
    forall|i: int| 1 <= i <= count ==> #[trigger] rebased_end(offsets, num_columns, i) <= usize::MAX
}

/// The offsets with the first `count` field ends counted from the start of the data.
pub open spec fn rebased(offsets: Seq<usize>, num_columns: nat, count: nat) -> Seq<usize> {
    Seq::new(
        offsets.len(),
        |i: int|
            if 1 <= i <= count {
                rebased_end(offsets, num_columns, i) as usize
            } else {
                offsets[i]
            },
    )
}

/// The row and the column of a field end.
proof fn lemma_row_of(i: int, num_columns: nat, rows: nat)
    requires
        num_columns > 0,
        1 <= i <= rows * num_columns,
    ensures
        ({
            let row = (i - 1) / (num_columns as int);
            &&& 0 <= row < rows
            &&& row * num_columns <= i - 1 < row * num_columns + num_columns
        }),
{
    let d = num_columns as int;
    let row = (i - 1) / d;
    vstd::arithmetic::div_mod::lemma_fundamental_div_mod(i - 1, d);
    vstd::arithmetic::div_mod::lemma_mod_bound(i - 1, d);
    vstd::arithmetic::div_mod::lemma_div_pos_is_pos(i - 1, d);
    assert(d * row == row * d) by (nonlinear_arith);
    assert(row < rows) by (nonlinear_arith)
        requires
            row * d <= i - 1,
            i - 1 < rows * d,
            d > 0,
    ;
}

/// The field end in a given row and column.
pub proof fn lemma_row_at(row: nat, column: nat, num_columns: nat)
    requires
        column < num_columns,
    ensures
        (row * num_columns + column) as int / num_columns as int == row,
{
    vstd::arithmetic::div_mod::lemma_fundamental_div_mod_converse(
        (row * num_columns + column) as int,
        num_columns as int,
        row as int,
        column as int,
    );
}

proof fn lemma_row_base_monotone(offsets: Seq<usize>, num_columns: nat, a: nat, b: nat)
    requires
        a <= b,
    ensures
        row_base(offsets, num_columns, a) <= row_base(offsets, num_columns, b),
    decreases b,
{
    if a < b {
        lemma_row_base_monotone(offsets, num_columns, a, (b - 1) as nat);
    }
}

/// The rows that a decoder without a record being read holds are all its offsets.
proof fn lemma_whole_rows(s: DecoderState)
    requires
        s.laid_out(),
        s.current_field == 0,
        s.num_columns > 0,
    ensures
        whole_rows(s.offsets, s.num_columns) == s.num_rows,
{
    vstd::arithmetic::div_mod::lemma_div_multiples_vanish(
        s.num_rows as int,
        s.num_columns as int,
    );
    assert(s.num_columns * s.num_rows == s.num_rows * s.num_columns) by (nonlinear_arith);
}

/// A field ends no earlier than its row starts and no later than its row ends.
proof fn lemma_end_in_row(s: DecoderState, i: int)
    requires
        s.laid_out(),
        s.num_columns > 0,
        1 <= i <= s.num_rows * s.num_columns,
    ensures
        ({
            let row = ((i - 1) / s.num_columns as int) as nat;
            &&& row < s.num_rows
            &&& row_base(s.offsets, s.num_columns, row) <= rebased_end(
                s.offsets,
                s.num_columns,
                i,
            ) <= row_base(s.offsets, s.num_columns, row + 1)
        }),
{
    lemma_row_of(i, s.num_columns, s.num_rows);
    let row = ((i - 1) / s.num_columns as int) as nat;
    lemma_next_row(row, s.num_columns);
    lemma_rows_monotone((row + 1) as nat, s.num_rows, s.num_columns);
    let ends = row_ends(s.offsets, s.num_columns, row);
    let column = i - 1 - row * s.num_columns;
    assert(ends[column] == s.offsets[i]);
    assert(ends[ends.len() - 1] == s.offsets[((row + 1) * s.num_columns) as int]);
    assert(ends[column] <= ends[ends.len() - 1]);
}

/// Two fields of the buffered records end in the order in which they stand.
proof fn lemma_ends_in_order(s: DecoderState, i: int, j: int)
    requires
        s.laid_out(),
        s.num_columns > 0,
        1 <= i <= j <= s.num_rows * s.num_columns,
    ensures
        rebased_end(s.offsets, s.num_columns, i) <= rebased_end(s.offsets, s.num_columns, j),
{
    lemma_end_in_row(s, i);
    lemma_end_in_row(s, j);
    lemma_row_of(i, s.num_columns, s.num_rows);
    lemma_row_of(j, s.num_columns, s.num_rows);
    let a = ((i - 1) / s.num_columns as int) as nat;
    let b = ((j - 1) / s.num_columns as int) as nat;
    vstd::arithmetic::div_mod::lemma_div_is_ordered(i - 1, j - 1, s.num_columns as int);
    if a < b {
        lemma_row_base_monotone(s.offsets, s.num_columns, (a + 1) as nat, b);
    } else {
        lemma_next_row(a, s.num_columns);
        lemma_rows_monotone((a + 1) as nat, s.num_rows, s.num_columns);
        let ends = row_ends(s.offsets, s.num_columns, a);
        assert(ends[i - 1 - a * s.num_columns] == s.offsets[i]);
        assert(ends[j - 1 - a * s.num_columns] == s.offsets[j]);
    }
}

/// The field ends of a decoder's buffered records, counted from the start of the data, fit their
/// type, are in order and lie in the data.
pub proof fn lemma_rebased_in_order(s: DecoderState)
    requires
        s.laid_out(),
        s.current_field == 0,
        s.num_columns > 0,
        s.data.len() <= usize::MAX,
    ensures
        whole_rows(s.offsets, s.num_columns) == s.num_rows,
        rebase_fits(s.offsets, s.num_columns, s.num_rows * s.num_columns),
        ordered(rebased(s.offsets, s.num_columns, s.num_rows * s.num_columns)),
        rebased(s.offsets, s.num_columns, s.num_rows * s.num_columns).len() == s.num_rows
            * s.num_columns + 1,
        rebased(s.offsets, s.num_columns, s.num_rows * s.num_columns)[0] == 0,
        rebased(s.offsets, s.num_columns, s.num_rows * s.num_columns).last() + s.reader.pending
            == s.data.len(),
{
    let count = s.num_rows * s.num_columns;
    let ends = rebased(s.offsets, s.num_columns, count);
    lemma_whole_rows(s);
    assert forall|i: int| 1 <= i <= count implies #[trigger] rebased_end(
        s.offsets,
        s.num_columns,
        i,
    ) <= usize::MAX by {
        lemma_end_in_row(s, i);
        lemma_row_base_monotone(
            s.offsets,
            s.num_columns,
            ((i - 1) / s.num_columns as int + 1) as nat,
            s.num_rows,
        );
    }
    assert forall|i: int, j: int| 0 <= i <= j < ends.len() implies #[trigger] ends[i]
        <= #[trigger] ends[j] by {
        if i > 0 {
            lemma_ends_in_order(s, i, j);
            assert(rebased_end(s.offsets, s.num_columns, i) <= usize::MAX);
            assert(rebased_end(s.offsets, s.num_columns, j) <= usize::MAX);
        }
    }
    if s.num_rows > 0 {
        let last = (s.num_rows - 1) as nat;
        lemma_next_row(last, s.num_columns);
        lemma_row_at(last, (s.num_columns - 1) as nat, s.num_columns);
        assert(rebased_end(s.offsets, s.num_columns, count as int) == row_base(
            s.offsets,
            s.num_columns,
            s.num_rows,
        ));
        assert(rebased_end(s.offsets, s.num_columns, count as int) <= usize::MAX);
        assert(count >= 1);
    } else {
        assert(count == 0);
    }
}

/// Fields that a buffered record lacks are empty.
pub proof fn lemma_missing_fields_are_empty(s: DecoderState, column: nat)
    requires
        s.offsets.len() == s.row_offsets() + s.current_field,
        0 < s.current_field <= column < s.num_columns,
        row_base(s.offsets, s.num_columns, s.num_rows) + s.offsets.last() <= s.data.len(),
    ensures
        s.complete_row().field(s.num_rows, column).len() == 0,
{
    let u = s.complete_row();
    let i = (s.num_rows * s.num_columns + column) as int;
    lemma_rows_agree(s.offsets, u.offsets, s.num_columns, s.num_rows);
    assert(u.offsets[i] == s.offsets.last());
    assert(u.offsets[i + 1] == s.offsets.last());
}

/// The last entry that is no greater than `bound` stands at `index`.
pub open spec fn is_last_at_most(entries: Seq<usize>, bound: int, index: int) -> bool {
    &&& 0 <= index < entries.len()
    &&& entries[index] <= bound
    &&& forall|i: int| index < i < entries.len() ==> #[trigger] entries[i] > bound
}

/// A field of the buffered records lies in the data that they take.
pub proof fn lemma_field_in_data(s: DecoderState, row: nat, column: nat)
    requires
        s.laid_out(),
        row < s.num_rows,
        column < s.num_columns,
    ensures
        ({
            let base = row_base(s.offsets, s.num_columns, row);
            let i = (row * s.num_columns + column) as int;
            &&& i + 1 < s.row_offsets()
            &&& column > 0 ==> s.offsets[i] <= s.offsets[i + 1]
            &&& base + s.offsets[i + 1] <= row_base(s.offsets, s.num_columns, s.num_rows)
                <= s.data.len()
        }),
{
    let nc = s.num_columns;
    let i = (row * nc + column) as int;
    lemma_next_row(row, nc);
    lemma_rows_monotone((row + 1) as nat, s.num_rows, nc);
    lemma_row_at(row, column, nc);
    lemma_end_in_row(s, i + 1);
    lemma_row_base_monotone(s.offsets, nc, (row + 1) as nat, s.num_rows);
    if column > 0 {
        let ends = row_ends(s.offsets, nc, row);
        assert(ends[column - 1] == s.offsets[i]);
        assert(ends[column as int] == s.offsets[i + 1]);
    }
}

/// A field of the buffered records lies between two neighbouring field ends once these are counted
/// from the start of the data.
pub proof fn lemma_field_given_back(s: DecoderState, row: nat, column: nat)
    requires
        s.laid_out(),
        s.current_field == 0,
        s.data.len() <= usize::MAX,
        row < s.num_rows,
        column < s.num_columns,
    ensures
        ({
            let ends = s.rebased(s.rebase_count()).offsets;
            let i = (row * s.num_columns + column) as int;
            &&& 0 <= i < ends.len() - 1
            &&& s.field(row, column) == s.data.subrange(ends[i] as int, ends[i + 1] as int)
        }),
{
    let nc = s.num_columns;
    let count = s.num_rows * nc;
    let i = (row * nc + column) as int;
    lemma_rebased_in_order(s);
    lemma_next_row(row, nc);
    lemma_rows_monotone((row + 1) as nat, s.num_rows, nc);
    lemma_row_at(row, column, nc);
    assert(rebased_end(s.offsets, nc, i + 1) <= usize::MAX);
    assert(row == 0 ==> row * nc == 0) by (nonlinear_arith);
    if i > 0 {
        assert(rebased_end(s.offsets, nc, i) <= usize::MAX);
        if column > 0 {
            lemma_row_at(row, (column - 1) as nat, nc);
        } else {
            let before = (row - 1) as nat;
            lemma_next_row(before, nc);
            lemma_row_at(before, (nc - 1) as nat, nc);
        }
    }
}

/// The field that is named for data that is not UTF-8 is the one that holds the first byte at
/// fault.
pub proof fn lemma_fault_in_field(s: DecoderState, valid_up_to: int, index: int)
    requires
        s.laid_out(),
        s.current_field == 0,
        s.reader.pending == 0,
        s.num_columns > 0,
        s.data.len() <= usize::MAX,
        0 <= valid_up_to < s.data.len(),
        is_last_at_most(s.rebased(s.rebase_count()).offsets, valid_up_to, index),
    ensures
        ({
            let ends = s.rebased(s.rebase_count()).offsets;
            &&& index < s.num_rows * s.num_columns
            &&& ends[index] <= valid_up_to < ends[index + 1]
        }),
{
    lemma_rebased_in_order(s);
    let ends = s.rebased(s.rebase_count()).offsets;
    if index == ends.len() - 1 {
        assert(ends[index] == ends.last());
    }
}

/// The error for data that is not UTF-8 names the line and the number of the field that holds the
/// first byte at fault: lines are counted from that of the first buffered record, and fields from
/// one.
pub proof fn lemma_error_names_field(s: DecoderState, valid_up_to: int, index: int)
    requires
        s.laid_out(),
        s.current_field == 0,
        s.reader.pending == 0,
        s.num_columns > 0,
        s.data.len() <= usize::MAX,
        0 <= valid_up_to < s.data.len(),
        is_last_at_most(s.rebased(s.rebase_count()).offsets, valid_up_to, index),
    ensures
        exists|row: nat, column: nat|
            {
                let ends = s.rebased(s.rebase_count()).offsets;
                let i = (row * s.num_columns + column) as int;
                &&& row < s.num_rows
                &&& column < s.num_columns
                &&& ends[i] <= valid_up_to < ends[i + 1]
                &&& #[trigger] s.field(row, column) == s.data.subrange(
                    ends[i] as int,
                    ends[i + 1] as int,
                )
                &&& s.utf8_error(index) == (CsvError::InvalidUtf8 {
                    line: (s.line_number - s.num_rows + row) as usize,
                    field: (column + 1) as usize,
                })
            },
{
    let d = s.num_columns as int;
    lemma_fault_in_field(s, valid_up_to, index);
    lemma_row_of(index + 1, s.num_columns, s.num_rows);
    vstd::arithmetic::div_mod::lemma_fundamental_div_mod(index, d);
    vstd::arithmetic::div_mod::lemma_mod_bound(index, d);
    let row = (index / d) as nat;
    let column = (index % d) as nat;
    assert(d * (index / d) == (index / d) * d) by (nonlinear_arith);
    lemma_field_given_back(s, row, column);
    assert(row * s.num_columns + column == index);
}

/// When field ends are counted from the start of the data, those of a row are counted on from where
/// the row before it ends.
pub proof fn lemma_rows_follow_each_other(s: DecoderState, row: nat, column: nat)
    requires
        s.num_columns > 0,
        s.rebase_fits(),
        column < s.num_columns,
        (row + 1) * s.num_columns < s.offsets.len(),
    ensures
        ({
            let ends = s.rebased(s.rebase_count()).offsets;
            let i = (row * s.num_columns + column + 1) as int;
            &&& ends.len() == s.offsets.len()
            &&& ends[0] == s.offsets[0]
            &&& ends[i] == s.offsets[i] + if row == 0 {
                0
            } else {
                ends[(row * s.num_columns) as int] as int
            }
        }),
{
    let nc = s.num_columns;
    let rows = whole_rows(s.offsets, nc);
    let i = (row * nc + column + 1) as int;
    lemma_next_row(row, nc);
    vstd::arithmetic::div_mod::lemma_fundamental_div_mod(s.offsets.len() - 1, nc as int);
    vstd::arithmetic::div_mod::lemma_mod_bound(s.offsets.len() - 1, nc as int);
    vstd::arithmetic::div_mod::lemma_div_pos_is_pos(s.offsets.len() - 1, nc as int);
    assert(nc * rows == rows * nc) by (nonlinear_arith);
    assert(row < rows) by (nonlinear_arith)
        requires
            (row + 1) * nc < s.offsets.len(),
            s.offsets.len() - 1 < rows * nc + nc,
            nc > 0,
    ;
    lemma_rows_monotone((row + 1) as nat, rows, nc);
    lemma_row_at(row, column, nc);
    assert(rebased_end(s.offsets, nc, i) <= usize::MAX);
    if row > 0 {
        let before = (row - 1) as nat;
        lemma_next_row(before, nc);
        lemma_row_at(before, (nc - 1) as nat, nc);
        assert(rebased_end(s.offsets, nc, (row * nc) as int) <= usize::MAX);
    }
}

/// The error for the field in a row and a column names that row's line and that column's number.
pub proof fn lemma_error_at(s: DecoderState, row: nat, column: nat)
    requires
        column < s.num_columns,
    ensures
        s.utf8_error((row * s.num_columns + column) as int) == (CsvError::InvalidUtf8 {
            line: (s.line_number - s.num_rows + row) as usize,
            field: (column + 1) as usize,
        }),
{
    vstd::arithmetic::div_mod::lemma_fundamental_div_mod_converse(
        (row * s.num_columns + column) as int,
        s.num_columns as int,
        row as int,
        column as int,
    );
}

} // verus!
