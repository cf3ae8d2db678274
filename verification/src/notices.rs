//! What a handler is told.

use crate::handler::{CsvRecordErrorHandler, Notice};
use crate::model::DecoderState;
use crate::sessions::{is_session, lemma_notices_of_both, lemma_sessions_account, Call, Stage};
use crate::skipping::bytes_of;
use crate::stream::{made_of, SplitRecord};
use vstd::prelude::*;

verus! {

/// The bytes of the records that a handler was told of.
pub open spec fn bytes_told(told: Seq<Notice>) -> Seq<u8>
    decreases told.len(),
{
    if told.len() == 0 {
        Seq::empty()
    } else {
        told[0].record() + bytes_told(told.drop_first())
    }
}

/// What is told of records is one notice each, with their bytes.
pub proof fn lemma_told_of_records(
    s: DecoderState,
    records: Seq<SplitRecord>,
    line: nat,
    offset: nat,
)
    ensures
        s.notices_of(records, line, offset).len() == records.len(),
        bytes_told(s.notices_of(records, line, offset)) == made_of(records),
        made_of(records).len() == bytes_of(records),
    decreases records.len(),
{
    if records.len() > 0 {
        let others = records.drop_first();
        let next = offset + records[0].bytes.len();
        lemma_told_of_records(s, others, line + 1, next);
        assert(s.notices_of(records, line, offset).drop_first() =~= s.notices_of(
            others,
            line + 1,
            next,
        ));
    }
}

/// Over every sequence of calls in which decoding succeeds, a handler is told of lines that are
/// numbered without a gap, of records whose bytes one after the other are a front part of the data
/// consumed, and for each of how many bytes the records before it have.
pub proof fn lemma_notices_follow_the_stream<H: CsvRecordErrorHandler + ?Sized>(
    handler: &H,
    calls: Seq<Call>,
    stages: Seq<Stage>,
    i: int,
)
    requires
        is_session(Some(handler), calls, stages),
        0 <= i < stages.len(),
    ensures
        forall|k: int|
            0 <= k < stages[i].told.len() ==> (#[trigger] stages[i].told[k]).line_number() == k + 1
                && stages[i].told[k].byte_offset() == bytes_told(stages[i].told.take(k)).len(),
        bytes_told(stages[i].told).is_prefix_of(stages[i].fed),
{
    let s = stages[0].state;
    let b = stages[i];
    let records = b.records;
    lemma_sessions_account(Some(handler), calls, stages, i);
    lemma_told_of_records(s, records, 1, 0);
    assert(b.fed.subrange(0, made_of(records).len() as int) =~= made_of(records));
    assert forall|k: int| 0 <= k < b.told.len() implies (#[trigger] b.told[k]).line_number() == k
        + 1 && b.told[k].byte_offset() == bytes_told(b.told.take(k)).len() by {
        let front = records.take(k);
        let back = records.skip(k);
        assert(front + back =~= records);
        lemma_notices_of_both(s, front, back, 1, 0);
        lemma_told_of_records(s, front, 1, 0);
        assert(b.told.take(k) =~= s.notices_of(front, 1, 0));
        assert(b.told[k] == s.notices_of(back, (1 + k) as nat, bytes_of(front))[0]);
    }
}

} // verus!
