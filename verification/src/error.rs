//! What can go wrong while records are decoded, and the text that describes it.

use vstd::prelude::*;
use vstd::string::*;

verus! {

/// How many fields more than expected a malformed record may have and still be skipped.
///
/// This keeps malformed records from growing the buffer of field offsets without bound. It is
/// larger than the width of typical tables.
pub const MAX_RECOVERABLE_EXCESS_FIELDS: usize = 16384;

/// An error of a record handler is carried as a value without visible contents.
#[verifier::external_type_specification]
#[verifier::external_body]
pub struct ExArrowError(arrow_schema::ArrowError);

/// Malformed CSV data, or a table that this machine cannot count.
#[derive(Debug, Clone, Copy, PartialEq, Eq, Structural)]
pub enum CsvError {
    /// A record ended with the wrong number of fields.
    IncorrectFieldCount {
        /// The record's line.
        line: usize,
        /// How many fields a record has.
        expected: usize,
        /// How many fields this record has.
        got: usize,
    },
    /// A record has more fields than the rows asked for can hold together.
    TooManyFields {
        /// The record's line.
        line: usize,
        /// How many fields a record has.
        expected: usize,
        /// How many fields of this record were read before it was given up.
        more_than: usize,
    },
    /// The number of field offsets does not fit its type.
    OffsetCapacityOverflow,
    /// The position in the input does not fit its type.
    ByteOffsetOverflow,
    /// A malformed record has too many fields to be skipped.
    RecoveryLimit {
        /// The record's line.
        line: usize,
    },
    /// The buffered records were asked for in the middle of a record.
    PartialRecord,
    /// The position of a field in the buffered data does not fit its type.
    RecordOffsetOverflow,
    /// A field is not UTF-8.
    InvalidUtf8 {
        /// The field's line.
        line: usize,
        /// The field's number in its record, from one.
        field: usize,
    },
}

/// Why decoding stopped.
#[derive(Debug)]
pub enum DecodeError {
    /// The data is at fault.
    Csv(CsvError),
    /// The record handler asked for it.
    Handler(arrow_schema::ArrowError),
}

/// The decimal digit of a number below ten.
pub open spec fn digit(d: nat) -> char {
    ('0' as nat + d) as char
}

/// The decimal digits of a number.
pub open spec fn decimal(n: nat) -> Seq<char>
    decreases n,
{
    if n < 10 {
        seq![digit(n)]
    } else {
        decimal(n / 10).push(digit(n % 10))
    }
}

fn digit_text(d: usize) -> (text: &'static str)
    requires
        d < 10,
    ensures
        text@ == seq![digit(d as nat)],
{
    proof {
        reveal_strlit("0");
        reveal_strlit("1");
        reveal_strlit("2");
        reveal_strlit("3");
        reveal_strlit("4");
        reveal_strlit("5");
        reveal_strlit("6");
        reveal_strlit("7");
        reveal_strlit("8");
        reveal_strlit("9");
    }
    match d {
        0 => "0",
        1 => "1",
        2 => "2",
        3 => "3",
        4 => "4",
        5 => "5",
        6 => "6",
        7 => "7",
        8 => "8",
        _ => "9",
    }
}

/// Appends the decimal digits of `n`.
fn append_decimal(text: &mut String, n: usize)
    ensures
        final(text)@ == old(text)@ + decimal(n as nat),
    decreases n,
{
    if n >= 10 {
        append_decimal(text, n / 10);
    }
    text.append(digit_text(n % 10));
    assert(text@ == old(text)@ + decimal(n as nat));
}

impl CsvError {
    /// The text that describes the error.
    pub open spec fn text(self) -> Seq<char> {
        match self {
            CsvError::IncorrectFieldCount { line, expected, got } =>
                "incorrect number of fields for line "@ + decimal(line as nat) + ", expected "@
                    + decimal(expected as nat) + " got "@ + decimal(got as nat),
            CsvError::TooManyFields { line, expected, more_than } =>
                "incorrect number of fields for line "@ + decimal(line as nat) + ", expected "@
                    + decimal(expected as nat) + " got more than "@ + decimal(more_than as nat),
            CsvError::OffsetCapacityOverflow => "CSV field offset capacity overflowed"@,
            CsvError::ByteOffsetOverflow => "CSV input byte offset overflowed"@,
            CsvError::RecoveryLimit { line } =>
                "malformed CSV record on line "@ + decimal(line as nat)
                    + " exceeds the recovery limit of "@
                    + decimal(MAX_RECOVERABLE_EXCESS_FIELDS as nat) + " excess fields"@,
            CsvError::PartialRecord => "Cannot flush part way through record"@,
            CsvError::RecordOffsetOverflow => "CSV record offsets overflowed usize while flushing"@,
            CsvError::InvalidUtf8 { line, field } =>
                "Encountered invalid UTF-8 data for line "@ + decimal(line as nat) + " and field "@
                    + decimal(field as nat),
        }
    }

    /// The text that describes the error.
    pub fn message(&self) -> (text: String)
        ensures
            text@ == self.text(),
    {
        let mut text = String::new();
        match self {
            CsvError::IncorrectFieldCount { line, expected, got } => {
                text.append("incorrect number of fields for line ");
                append_decimal(&mut text, *line);
                text.append(", expected ");
                append_decimal(&mut text, *expected);
                text.append(" got ");
                append_decimal(&mut text, *got);
            },
            CsvError::TooManyFields { line, expected, more_than } => {
                text.append("incorrect number of fields for line ");
                append_decimal(&mut text, *line);
                text.append(", expected ");
                append_decimal(&mut text, *expected);
                text.append(" got more than ");
                append_decimal(&mut text, *more_than);
            },
            CsvError::OffsetCapacityOverflow => {
                text.append("CSV field offset capacity overflowed");
            },
            CsvError::ByteOffsetOverflow => {
                text.append("CSV input byte offset overflowed");
            },
            CsvError::RecoveryLimit { line } => {
                text.append("malformed CSV record on line ");
                append_decimal(&mut text, *line);
                text.append(" exceeds the recovery limit of ");
                append_decimal(&mut text, MAX_RECOVERABLE_EXCESS_FIELDS);
                text.append(" excess fields");
            },
            CsvError::PartialRecord => {
                text.append("Cannot flush part way through record");
            },
            CsvError::RecordOffsetOverflow => {
                text.append("CSV record offsets overflowed usize while flushing");
            },
            CsvError::InvalidUtf8 { line, field } => {
                text.append("Encountered invalid UTF-8 data for line ");
                append_decimal(&mut text, *line);
                text.append(" and field ");
                append_decimal(&mut text, *field);
            },
        }
        assert(text@ =~= self.text());
        text
    }
}

/// The decimal digits of a number are those of its tenth part and its last digit.
pub proof fn lemma_decimal_appends_digit(n: nat, d: nat)
    requires
        d < 10,
    ensures
        decimal(d) == seq![(48 + d) as char],
        n > 0 ==> decimal(10 * n + d) == decimal(n).push((48 + d) as char),
{
    assert((10 * n + d) / 10 == n);
    assert((10 * n + d) % 10 == d);
}

/// Different numbers have different digits.
pub proof fn lemma_decimal_tells_apart(a: nat, b: nat)
    requires
        decimal(a) == decimal(b),
    ensures
        a == b,
    decreases a,
{
    lemma_decimal_not_empty(a / 10);
    lemma_decimal_not_empty(b / 10);
    assert(decimal(a).last() == digit(a % 10));
    assert(decimal(b).last() == digit(b % 10));
    if a >= 10 && b >= 10 {
        assert(decimal(a).drop_last() =~= decimal(a / 10));
        assert(decimal(b).drop_last() =~= decimal(b / 10));
        lemma_decimal_tells_apart(a / 10, b / 10);
    }
}

proof fn lemma_decimal_not_empty(n: nat)
    ensures
        decimal(n).len() > 0,
{
}

/// The texts of the errors, with every number in decimal digits at its place.
pub proof fn lemma_error_texts(line: usize, expected: usize, got: usize)
    ensures
        (CsvError::IncorrectFieldCount { line, expected, got }).text()
            == "incorrect number of fields for line "@ + decimal(line as nat) + ", expected "@
            + decimal(expected as nat) + " got "@ + decimal(got as nat),
        (CsvError::TooManyFields { line, expected, more_than: got }).text()
            == "incorrect number of fields for line "@ + decimal(line as nat) + ", expected "@
            + decimal(expected as nat) + " got more than "@ + decimal(got as nat),
        (CsvError::RecoveryLimit { line }).text() == "malformed CSV record on line "@ + decimal(
            line as nat,
        ) + " exceeds the recovery limit of "@ + decimal(16384) + " excess fields"@,
        (CsvError::InvalidUtf8 { line, field: got }).text()
            == "Encountered invalid UTF-8 data for line "@ + decimal(line as nat) + " and field "@
            + decimal(got as nat),
        CsvError::OffsetCapacityOverflow.text() == "CSV field offset capacity overflowed"@,
        CsvError::ByteOffsetOverflow.text() == "CSV input byte offset overflowed"@,
        CsvError::PartialRecord.text() == "Cannot flush part way through record"@,
        CsvError::RecordOffsetOverflow.text()
            == "CSV record offsets overflowed usize while flushing"@,
{
}

/// The error for a malformed record that has too many fields to be skipped.
pub fn recovery_limit_error(line_number: usize) -> (error: CsvError)
    ensures
        error == (CsvError::RecoveryLimit { line: line_number }),
{
    CsvError::RecoveryLimit { line: line_number }
}

} // verus!
