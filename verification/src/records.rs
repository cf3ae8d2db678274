//! Decoded records.

use crate::layout::ordered;
use vstd::prelude::*;
use vstd::string::*;
use vstd::utf8::{
    decode_utf8, encode_utf8_decode_utf8, encode_utf8_valid_utf8, is_char_boundary,
    is_char_boundary_iff_not_is_continuation_byte, is_char_boundary_start_end_of_seq,
    length_of_first_scalar, pop_first_scalar, valid_utf8, valid_utf8_concat, valid_utf8_split,
};

verus! {

/// Whether an end lies in the text, but not between two characters.
pub open spec fn cuts_char(bytes: Seq<u8>, end: usize) -> bool {
    end <= bytes.len() && !is_char_boundary(bytes, end as int)
}

/// No end lies inside a character.
pub open spec fn cut_between_chars(bytes: Seq<u8>, ends: Seq<usize>) -> bool {
    forall|i: int| 0 <= i < ends.len() ==> !cuts_char(bytes, #[trigger] ends[i])
}

/// The first end that lies inside a character is the one at `i`.
pub open spec fn cuts_char_first_at(bytes: Seq<u8>, ends: Seq<usize>, i: int) -> bool {
    &&& 0 <= i < ends.len()
    &&& cuts_char(bytes, ends[i])
    &&& forall|k: int| 0 <= k < i ==> !cuts_char(bytes, #[trigger] ends[k])
}

/// Looks for the first end that lies inside a character.
pub(crate) fn first_cut(data: &str, ends: &[usize]) -> (cut: Option<usize>)
    ensures
        match cut {
            Some(i) => cuts_char_first_at(data.spec_bytes(), ends@, i as int),
            None => cut_between_chars(data.spec_bytes(), ends@),
        },
{
    let len = data.as_bytes().len();
    let mut i: usize = 0;
    while i < ends.len()
        invariant
            i <= ends.len(),
            len == data.spec_bytes().len(),
            forall|k: int|
                0 <= k < i ==> !cuts_char(data.spec_bytes(), #[trigger] ends@[k]),
        decreases ends.len() - i,
    {
        if ends[i] <= len && !data.is_char_boundary(ends[i]) {
            return Some(i);
        }
        i = i + 1;
    }
    None
}

/// A collection of decoded, UTF-8 CSV records.
#[derive(Debug)]
pub struct StringRecords<'a> {
    /// How many fields a record has.
    pub num_columns: usize,
    /// How many records there are.
    pub num_rows: usize,
    /// A zero, then the end of every field in `data`.
    pub offsets: &'a [usize],
    /// The text of all fields.
    pub data: &'a str,
}

/// A single decoded, UTF-8 CSV record.
#[derive(Debug, Clone, Copy)]
pub struct StringRecord<'a> {
    /// The text of all records.
    pub data: &'a str,
    /// Where the record starts in `data`, then the end of every field.
    pub offsets: &'a [usize],
}

impl<'a> StringRecords<'a> {
    /// There is a field end for every field, in order, and all lie in the text, between two
    /// characters.
    pub open spec fn well_formed(&self) -> bool {
        &&& self.offsets@.len() == self.num_rows * self.num_columns + 1
        &&& ordered(self.offsets@)
        &&& self.offsets@.last() <= self.data.spec_bytes().len()
        &&& cut_between_chars(self.data.spec_bytes(), self.offsets@)
    }

    /// The bytes of a field.
    pub open spec fn field(&self, row: nat, column: nat) -> Seq<u8> {
        let i = (row * self.num_columns + column) as int;
        self.data.spec_bytes().subrange(self.offsets@[i] as int, self.offsets@[i + 1] as int)
    }

    /// The record at `index`.
    pub open spec fn is_record(&self, index: nat, record: StringRecord<'a>) -> bool {
        &&& record.data == self.data
        &&& record.offsets@ == self.offsets@.subrange(
            (index * self.num_columns) as int,
            (index * self.num_columns + self.num_columns + 1) as int,
        )
    }

    /// The record at `index`.
    pub fn get(&self, index: usize) -> (record: StringRecord<'a>)
        requires
            index * self.num_columns + self.num_columns + 1 <= self.offsets.len(),
        ensures
            self.is_record(index as nat, record),
            record.data == self.data,
            record.offsets@.len() == self.num_columns + 1,
            forall|column: int|
                0 <= column <= self.num_columns ==> #[trigger] record.offsets@[column]
                    == self.offsets@[index * self.num_columns + column],
            self.well_formed() && index < self.num_rows ==> record.well_formed(),
    {
        let start = index * self.num_columns;
        let record = StringRecord {
            data: self.data,
            offsets: vstd::slice::slice_subrange(
                self.offsets,
                start,
                start + self.num_columns + 1,
            ),
        };
        proof {
            if self.well_formed() && index < self.num_rows {
                lemma_fields_have_text(*self, index as nat, record);
            }
        }
        record
    }

    /// How many records there are.
    pub fn len(&self) -> (count: usize)
        ensures
            count == self.num_rows,
    {
        self.num_rows
    }

    /// All records, in order.
    pub fn iter(&self) -> (records: Vec<StringRecord<'a>>)
        requires
            self.num_rows * self.num_columns + 1 <= self.offsets.len(),
        ensures
            records@.len() == self.num_rows,
            forall|i: int|
                0 <= i < self.num_rows ==> self.is_record(i as nat, #[trigger] records@[i]) && (
                self.well_formed() ==> records@[i].well_formed()),
            forall|i: int|
                0 <= i < self.num_rows ==> (#[trigger] records@[i]).data == self.data
                    && records@[i].offsets@.len() == self.num_columns + 1,
            forall|i: int, column: int|
                0 <= i < self.num_rows && 0 <= column <= self.num_columns
                    ==> #[trigger] records@[i].offsets@[column] == self.offsets@[i
                    * self.num_columns + column],
    {
        let mut records: Vec<StringRecord<'a>> = Vec::new();
        let mut i: usize = 0;
        while i < self.num_rows
            invariant
                i <= self.num_rows,
                self.num_rows * self.num_columns + 1 <= self.offsets.len(),
                records@.len() == i,
                forall|k: int|
                    0 <= k < i ==> self.is_record(k as nat, #[trigger] records@[k]) && (
                    self.well_formed() ==> records@[k].well_formed()),
                forall|k: int|
                    0 <= k < i ==> (#[trigger] records@[k]).data == self.data
                        && records@[k].offsets@.len() == self.num_columns + 1,
                forall|k: int, column: int|
                    0 <= k < i && 0 <= column <= self.num_columns
                        ==> #[trigger] records@[k].offsets@[column] == self.offsets@[k
                        * self.num_columns + column],
            decreases self.num_rows - i,
        {
            assert(i * self.num_columns + self.num_columns <= self.num_rows * self.num_columns)
                by (nonlinear_arith)
                requires
                    i < self.num_rows,
            ;
            records.push(self.get(i));
            i = i + 1;
        }
        records
    }
}

/// The texts put one after the other with commas between them.
pub open spec fn comma_separated(texts: Seq<Seq<char>>) -> Seq<char>
    decreases texts.len(),
{
    if texts.len() == 0 {
        Seq::empty()
    } else if texts.len() == 1 {
        texts[0]
    } else {
        comma_separated(texts.drop_last()) + ","@ + texts.last()
    }
}

impl<'a> StringRecord<'a> {
    /// How many fields the record has.
    pub open spec fn num_fields(&self) -> int {
        self.offsets.len() - 1
    }

    /// Whether the record has a field at `index` that is text by itself.
    pub open spec fn has_text(&self, index: int) -> bool {
        &&& 0 <= index < self.num_fields()
        &&& self.offsets@[index] <= self.offsets@[index + 1] <= self.data.spec_bytes().len()
        &&& is_char_boundary(self.data.spec_bytes(), self.offsets@[index] as int)
        &&& is_char_boundary(self.data.spec_bytes(), self.offsets@[index + 1] as int)
    }

    /// Every field is text by itself.
    pub open spec fn well_formed(&self) -> bool {
        &&& self.num_fields() >= 0
        &&& forall|i: int| 0 <= i < self.num_fields() ==> #[trigger] self.has_text(i)
    }

    /// The bytes of the field at `index`.
    pub open spec fn bytes(&self, index: int) -> Seq<u8> {
        self.data.spec_bytes().subrange(
            self.offsets@[index] as int,
            self.offsets@[index + 1] as int,
        )
    }

    /// The text of the field at `index`.
    pub open spec fn text(&self, index: int) -> Seq<char> {
        decode_utf8(self.bytes(index))
    }

    /// The field at `index`.
    pub fn get(&self, index: usize) -> (field: &'a str)
        requires
            self.has_text(index as int),
        ensures
            field.spec_bytes() == self.bytes(index as int),
            field@ == self.text(index as int),
            field.spec_bytes() == self.data.spec_bytes().subrange(
                self.offsets@[index as int] as int,
                self.offsets@[index + 1] as int,
            ),
    {
        let end = self.offsets[index + 1];
        let start = self.offsets[index];
        let (front, _) = self.data.split_at(end);
        proof {
            encode_utf8_valid_utf8(self.data@);
            lemma_boundary_before(self.data.spec_bytes(), start as int, end as int);
        }
        let (_, field) = front.split_at(start);
        proof {
            encode_utf8_decode_utf8(field@);
            assert(field.spec_bytes() =~= self.bytes(index as int));
        }
        field
    }

    /// The field at `index`, if there is one and it is text by itself.
    pub fn try_get(&self, index: usize) -> (field: Option<&'a str>)
        ensures
            match field {
                Some(field) => self.has_text(index as int) && field.spec_bytes() == self.bytes(
                    index as int,
                ) && field@ == self.text(index as int),
                None => !self.has_text(index as int),
            },
            field is Some <==> index + 1 < self.offsets@.len() && self.offsets@[index as int]
                <= self.offsets@[index + 1] && is_char_boundary(
                self.data.spec_bytes(),
                self.offsets@[index as int] as int,
            ) && is_char_boundary(self.data.spec_bytes(), self.offsets@[index + 1] as int),
            field is Some ==> field.unwrap().spec_bytes() == self.data.spec_bytes().subrange(
                self.offsets@[index as int] as int,
                self.offsets@[index + 1] as int,
            ),
    {
        if index >= self.offsets.len() || index + 1 >= self.offsets.len() {
            return None;
        }
        let end = self.offsets[index + 1];
        let start = self.offsets[index];
        if start > end || !self.data.is_char_boundary(start) || !self.data.is_char_boundary(end) {
            return None;
        }
        proof {
            encode_utf8_valid_utf8(self.data@);
        }
        Some(self.get(index))
    }

    /// The fields between brackets, with commas between them.
    pub fn to_string(&self) -> (shown: String)
        requires
            self.well_formed(),
        ensures
            shown@ == "["@ + comma_separated(
                Seq::new(self.num_fields() as nat, |i: int| self.text(i)),
            ) + "]"@,
            shown@ == "["@ + comma_separated(
                Seq::new(
                    (self.offsets@.len() - 1) as nat,
                    |i: int|
                        decode_utf8(
                            self.data.spec_bytes().subrange(
                                self.offsets@[i] as int,
                                self.offsets@[i + 1] as int,
                            ),
                        ),
                ),
            ) + "]"@,
    {
        let num_fields = self.offsets.len() - 1;
        let ghost texts = Seq::new(self.num_fields() as nat, |i: int| self.text(i));
        let mut shown = String::new();
        shown.append("[");
        assert(shown@ =~= "["@ + comma_separated(texts.take(0)));
        let mut i: usize = 0;
        while i < num_fields
            invariant
                i <= num_fields == self.num_fields(),
                texts == Seq::new(self.num_fields() as nat, |i: int| self.text(i)),
                forall|i: int| 0 <= i < self.num_fields() ==> #[trigger] self.has_text(i),
                shown@ == "["@ + comma_separated(texts.take(i as int)),
            decreases num_fields - i,
        {
            assert(self.has_text(i as int));
            proof {
                lemma_comma_separated_next(texts, i as int);
            }
            if i > 0 {
                shown.append(",");
            }
            shown.append(self.get(i));
            i = i + 1;
            assert(shown@ == "["@ + comma_separated(texts.take(i as int)));
        }
        shown.append("]");
        assert(texts.take(num_fields as int) =~= texts);
        assert(texts =~= Seq::new(
            (self.offsets@.len() - 1) as nat,
            |i: int|
                decode_utf8(
                    self.data.spec_bytes().subrange(
                        self.offsets@[i] as int,
                        self.offsets@[i + 1] as int,
                    ),
                ),
        ));
        shown
    }
}

/// A boundary between characters is one in the text up to a later boundary.
proof fn lemma_boundary_before(bytes: Seq<u8>, start: int, end: int)
    requires
        valid_utf8(bytes),
        0 <= start <= end <= bytes.len(),
        is_char_boundary(bytes, start),
        is_char_boundary(bytes, end),
    ensures
        valid_utf8(bytes.subrange(0, end)),
        is_char_boundary(bytes.subrange(0, end), start),
{
    let front = bytes.subrange(0, end);
    valid_utf8_split(bytes, end);
    if start < end {
        is_char_boundary_iff_not_is_continuation_byte(bytes, start);
        is_char_boundary_iff_not_is_continuation_byte(front, start);
    } else {
        is_char_boundary_start_end_of_seq(front);
    }
}

/// One more text is put behind the others.
proof fn lemma_comma_separated_next(texts: Seq<Seq<char>>, i: int)
    requires
        0 <= i < texts.len(),
    ensures
        comma_separated(texts.take(i + 1)) == if i == 0 {
            texts[0]
        } else {
            comma_separated(texts.take(i)) + ","@ + texts[i]
        },
{
    assert(texts.take(i + 1).drop_last() =~= texts.take(i));
}

/// Texts are put one behind the other with a comma before each but the first.
pub proof fn lemma_comma_before_each_but_first(texts: Seq<Seq<char>>, text: Seq<char>)
    ensures
        comma_separated(Seq::empty()) == Seq::<char>::empty(),
        comma_separated(seq![text]) == text,
        texts.len() > 0 ==> comma_separated(texts.push(text)) == comma_separated(texts) + seq![
            ',',
        ] + text,
{
    reveal_strlit(",");
    assert(texts.push(text).drop_last() =~= texts);
    assert(","@ =~= seq![',']);
}

/// The fields of a record are those of its row: the field in each column lies between the ends that
/// stand in that row and column.
pub proof fn lemma_fields_of_row(records: StringRecords<'_>, row: nat, record: StringRecord<'_>)
    requires
        records.is_record(row, record),
        row * records.num_columns + records.num_columns < records.offsets@.len(),
    ensures
        record.offsets@.len() == records.num_columns + 1,
        forall|column: nat|
            #![trigger record.bytes(column as int)]
            #![trigger records.field(row, column)]
            column < records.num_columns ==> {
                let i = row * records.num_columns + column;
                &&& record.bytes(column as int) == records.data.spec_bytes().subrange(
                    records.offsets@[i] as int,
                    records.offsets@[i + 1] as int,
                )
                &&& records.field(row, column) == records.data.spec_bytes().subrange(
                    records.offsets@[i] as int,
                    records.offsets@[i + 1] as int,
                )
            },
{
    assert(row * records.num_columns >= 0) by (nonlinear_arith);
}

/// A boundary between characters stands where a front part of a text is a text by itself.
proof fn lemma_boundary_behind_text(bytes: Seq<u8>, n: int)
    requires
        valid_utf8(bytes),
        0 <= n <= bytes.len(),
        valid_utf8(bytes.take(n)),
    ensures
        is_char_boundary(bytes, n),
    decreases n,
{
    if n > 0 {
        let front = bytes.take(n);
        let len = length_of_first_scalar(bytes);
        assert(front[0] == bytes[0]);
        assert(pop_first_scalar(front) =~= pop_first_scalar(bytes).take(n - len));
        lemma_boundary_behind_text(pop_first_scalar(bytes), n - len);
    }
}

/// The bytes between two neighbouring ends.
pub open spec fn between(bytes: Seq<u8>, ends: Seq<usize>, i: int) -> Seq<u8> {
    bytes.subrange(ends[i] as int, ends[i + 1] as int)
}

/// What lies between two boundaries is a text by itself.
proof fn lemma_text_between(bytes: Seq<u8>, start: int, end: int)
    requires
        valid_utf8(bytes),
        0 <= start <= end <= bytes.len(),
        is_char_boundary(bytes, start),
        is_char_boundary(bytes, end),
    ensures
        valid_utf8(bytes.subrange(start, end)),
{
    let front = bytes.subrange(0, end);
    lemma_boundary_before(bytes, start, end);
    valid_utf8_split(front, start);
    assert(front.subrange(start, front.len() as int) =~= bytes.subrange(start, end));
}

/// The field before the first end inside a character is the first that is not a text by itself.
pub proof fn lemma_first_field_without_text(bytes: Seq<u8>, ends: Seq<usize>, i: int)
    requires
        valid_utf8(bytes),
        ordered(ends),
        ends[0] == 0,
        ends.last() <= bytes.len(),
        cuts_char_first_at(bytes, ends, i),
    ensures
        i > 0,
        !valid_utf8(between(bytes, ends, i - 1)),
        forall|k: int| 0 <= k < i - 1 ==> valid_utf8(#[trigger] between(bytes, ends, k)),
{
    is_char_boundary_start_end_of_seq(bytes);
    let start = ends[i - 1] as int;
    let end = ends[i] as int;
    assert(end <= ends[ends.len() - 1]);
    if valid_utf8(between(bytes, ends, i - 1)) {
        valid_utf8_split(bytes, start);
        valid_utf8_concat(bytes.subrange(0, start), between(bytes, ends, i - 1));
        assert(bytes.take(end) =~= bytes.subrange(0, start) + between(bytes, ends, i - 1));
        lemma_boundary_behind_text(bytes, end);
    }
    assert forall|k: int| 0 <= k < i - 1 implies valid_utf8(
        #[trigger] between(bytes, ends, k),
    ) by {
        assert(ends[k] <= ends[k + 1] <= ends[ends.len() - 1]);
        assert(is_char_boundary(bytes, ends[k + 1] as int));
        lemma_text_between(bytes, ends[k] as int, ends[k + 1] as int);
    }
}

/// Where all ends are in order and lie in the text, an end cuts a character just where the bytes up
/// to it are not UTF-8.
pub proof fn lemma_cut_leaves_no_text(bytes: Seq<u8>, ends: Seq<usize>, i: int)
    requires
        valid_utf8(bytes),
        0 <= i < ends.len(),
        ends[i] <= bytes.len(),
    ensures
        cuts_char(bytes, ends[i]) <==> !valid_utf8(bytes.take(ends[i] as int)),
{
    if valid_utf8(bytes.take(ends[i] as int)) {
        lemma_boundary_behind_text(bytes, ends[i] as int);
    } else if is_char_boundary(bytes, ends[i] as int) {
        valid_utf8_split(bytes, ends[i] as int);
        assert(bytes.take(ends[i] as int) =~= bytes.subrange(0, ends[i] as int));
    }
}

proof fn lemma_text_up_to(bytes: Seq<u8>, ends: Seq<usize>, k: int)
    requires
        ordered(ends),
        ends.len() > 0,
        ends[0] == 0,
        ends.last() <= bytes.len(),
        0 <= k < ends.len(),
        forall|j: int|
            0 <= j < ends.len() - 1 ==> valid_utf8(
                #[trigger] bytes.subrange(ends[j] as int, ends[j + 1] as int),
            ),
    ensures
        valid_utf8(bytes.take(ends[k] as int)),
    decreases k,
{
    assert(ends[k] <= ends[ends.len() - 1]);
    if k > 0 {
        lemma_text_up_to(bytes, ends, k - 1);
        assert(ends[k - 1] <= ends[k]);
        let field = bytes.subrange(ends[k - 1] as int, ends[k - 1 + 1] as int);
        valid_utf8_concat(bytes.take(ends[k - 1] as int), field);
        assert(bytes.take(ends[k] as int) =~= bytes.take(ends[k - 1] as int) + field);
    } else {
        assert(bytes.take(0) =~= Seq::empty());
    }
}

/// Bytes that are cut into fields are UTF-8 with no end inside a character just where every field is
/// UTF-8 by itself.
pub proof fn lemma_text_by_field(bytes: Seq<u8>, ends: Seq<usize>)
    requires
        ordered(ends),
        ends.len() > 0,
        ends[0] == 0,
        ends.last() == bytes.len(),
    ensures
        valid_utf8(bytes) && cut_between_chars(bytes, ends) <==> forall|k: int|
            0 <= k < ends.len() - 1 ==> valid_utf8(
                #[trigger] bytes.subrange(ends[k] as int, ends[k + 1] as int),
            ),
{
    if valid_utf8(bytes) && cut_between_chars(bytes, ends) {
        assert forall|k: int| 0 <= k < ends.len() - 1 implies valid_utf8(
            #[trigger] bytes.subrange(ends[k] as int, ends[k + 1] as int),
        ) by {
            assert(ends[k] <= ends[k + 1] <= ends[ends.len() - 1]);
            assert(!cuts_char(bytes, ends[k]) && !cuts_char(bytes, ends[k + 1]));
            lemma_text_between(bytes, ends[k] as int, ends[k + 1] as int);
        }
    }
    if forall|k: int|
        0 <= k < ends.len() - 1 ==> valid_utf8(
            #[trigger] bytes.subrange(ends[k] as int, ends[k + 1] as int),
        ) {
        lemma_text_up_to(bytes, ends, ends.len() - 1);
        assert(bytes.take(bytes.len() as int) =~= bytes);
        assert forall|k: int| 0 <= k < ends.len() implies !cuts_char(bytes, #[trigger] ends[k]) by {
            assert(ends[k] <= ends[ends.len() - 1]);
            lemma_text_up_to(bytes, ends, k);
            lemma_boundary_behind_text(bytes, ends[k] as int);
        }
    }
}

/// Each field of each record can be had as text, and is UTF-8 by itself.
pub proof fn lemma_fields_have_text(records: StringRecords<'_>, row: nat, record: StringRecord<'_>)
    requires
        records.well_formed(),
        row < records.num_rows,
        record.data == records.data,
        record.offsets@ == records.offsets@.subrange(
            (row * records.num_columns) as int,
            (row * records.num_columns + records.num_columns + 1) as int,
        ),
    ensures
        record.num_fields() == records.num_columns,
        record.well_formed(),
        forall|column: nat|
            column < records.num_columns ==> #[trigger] records.field(row, column) == record.bytes(
                column as int,
            ) && valid_utf8(records.field(row, column)),
{
    let base = (row * records.num_columns) as int;
    let bytes = records.data.spec_bytes();
    let ends = records.offsets@;
    encode_utf8_valid_utf8(records.data@);
    assert(row * records.num_columns + records.num_columns <= records.num_rows
        * records.num_columns) by (nonlinear_arith)
        requires
            row < records.num_rows,
    ;
    assert forall|column: int| 0 <= column < records.num_columns implies #[trigger] record.has_text(
        column,
    ) by {
        assert(ends[base + column] <= ends[base + column + 1]);
        assert(ends[base + column + 1] <= ends[ends.len() - 1]);
    }
    assert forall|column: nat| column < records.num_columns implies #[trigger] records.field(
        row,
        column,
    ) == record.bytes(column as int) && valid_utf8(records.field(row, column)) by {
        assert(record.has_text(column as int));
        lemma_text_between(
            bytes,
            ends[base + column] as int,
            ends[base + column + 1] as int,
        );
    }
}

} // verus!
