//! Handlers that are told of every record while malformed ones are skipped.

use arrow_schema::ArrowError;
use std::sync::Arc;
use vstd::prelude::*;

verus! {

/// A record with the expected number of fields.
#[derive(Debug, Clone, Copy)]
pub struct CsvRecord<'a> {
    /// The record's line.
    pub line_number: usize,
    /// Where the record starts in the input.
    pub byte_offset: usize,
    /// The record's bytes.
    pub record: &'a [u8],
}

/// A record with the wrong number of fields.
#[derive(Debug, Clone, Copy)]
pub struct CsvRecordError<'a> {
    /// The record's line.
    pub line_number: usize,
    /// Where the record starts in the input.
    pub byte_offset: usize,
    /// How many fields a record has.
    pub expected_fields: usize,
    /// How many fields this record has.
    pub actual_fields: usize,
    /// The record's bytes.
    pub record: &'a [u8],
}

/// What a handler is told.
pub enum Notice {
    /// A record was read.
    Record { line_number: nat, byte_offset: nat, record: Seq<u8> },
    /// A malformed record was read.
    Malformed {
        line_number: nat,
        byte_offset: nat,
        expected_fields: nat,
        actual_fields: nat,
        record: Seq<u8>,
    },
}

impl Notice {
    /// The record's line.
    pub open spec fn line_number(self) -> nat {
        match self {
            Notice::Record { line_number, .. } => line_number,
            Notice::Malformed { line_number, .. } => line_number,
        }
    }

    /// Where the record starts in the input.
    pub open spec fn byte_offset(self) -> nat {
        match self {
            Notice::Record { byte_offset, .. } => byte_offset,
            Notice::Malformed { byte_offset, .. } => byte_offset,
        }
    }

    /// The record's bytes.
    pub open spec fn record(self) -> Seq<u8> {
        match self {
            Notice::Record { record, .. } => record,
            Notice::Malformed { record, .. } => record,
        }
    }
}

impl CsvRecord<'_> {
    /// What a handler that gets this record is told.
    pub open spec fn notice(&self) -> Notice {
        Notice::Record {
            line_number: self.line_number as nat,
            byte_offset: self.byte_offset as nat,
            record: self.record@,
        }
    }
}

impl CsvRecordError<'_> {
    /// What a handler that gets this record is told.
    pub open spec fn notice(&self) -> Notice {
        Notice::Malformed {
            line_number: self.line_number as nat,
            byte_offset: self.byte_offset as nat,
            expected_fields: self.expected_fields as nat,
            actual_fields: self.actual_fields as nat,
            record: self.record@,
        }
    }
}

/// Decides what becomes of malformed records, and sees the others.
///
/// An error from either method stops decoding.
pub trait CsvRecordErrorHandler: Send + Sync {
    /// Whether `reply` came from this handler in answer to `notice`.
    ///
    /// An implementation that promises nothing of its answers leaves every reply possible.
    open spec fn answers(&self, notice: Notice, reply: Result<(), ArrowError>) -> bool {
        true
    }

    /// Takes note of a malformed record, which is then skipped.
    fn handle(&self, error: &CsvRecordError<'_>) -> (reply: Result<(), ArrowError>)
        ensures
            self.answers(error.notice(), reply),
    ;

    /// Takes note of a record with the expected number of fields.
    fn handle_record(&self, record: &CsvRecord<'_>) -> (reply: Result<(), ArrowError>)
        ensures
            self.answers(record.notice(), reply),
    ;
}

/// A handler is told what stands in the record that it gets, field by field.
pub proof fn lemma_notices_carry_fields(record: CsvRecord<'_>, error: CsvRecordError<'_>)
    ensures
        record.notice() == (Notice::Record {
            line_number: record.line_number as nat,
            byte_offset: record.byte_offset as nat,
            record: record.record@,
        }),
        error.notice() == (Notice::Malformed {
            line_number: error.line_number as nat,
            byte_offset: error.byte_offset as nat,
            expected_fields: error.expected_fields as nat,
            actual_fields: error.actual_fields as nat,
            record: error.record@,
        }),
        record.notice().line_number() == record.line_number,
        record.notice().byte_offset() == record.byte_offset,
        record.notice().record() == record.record@,
        error.notice().line_number() == error.line_number,
        error.notice().byte_offset() == error.byte_offset,
        error.notice().record() == error.record@,
{
}

/// Calls [`Arc::clone`].
///
/// Claimed: the new pointer points to the same value.
#[verifier::external_body]
pub(crate) fn share<T: ?Sized>(pointer: &Arc<T>) -> (shared: Arc<T>)
    ensures
        shared == *pointer,
{
    Arc::clone(pointer)
}

} // verus!
