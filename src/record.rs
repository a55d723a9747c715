//! Intel HEX records as the region builder takes them, and the policy for
//! lines that the record reader could not parse.
use vstd::prelude::*;
use crate::wire::push_all;

verus! {

/// One Intel HEX record, as the record reader hands it over.
#[derive(Debug, Clone, PartialEq, Eq)]
pub enum Record {
    /// Bytes to be placed at `offset` from the current segment base.
    Data { offset: u16, value: Vec<u8> },
    EndOfFile,
    /// Sets the segment base to `base << 4`.
    ExtendedSegmentAddress(u16),
    StartSegmentAddress { cs: u16, ip: u16 },
    /// Sets the segment base to `base << 16`.
    ExtendedLinearAddress(u16),
    StartLinearAddress(u32),
}

/// What a record says, with its data bytes as a sequence.
pub enum RecordModel {
    Data { offset: u16, value: Seq<u8> },
    EndOfFile,
    ExtendedSegmentAddress(u16),
    StartSegmentAddress { cs: u16, ip: u16 },
    ExtendedLinearAddress(u16),
    StartLinearAddress(u32),
}

impl View for Record {
    type V = RecordModel;

    open spec fn view(&self) -> RecordModel {
        match self {
            Record::Data { offset, value } => RecordModel::Data { offset: *offset, value: value@ },
            Record::EndOfFile => RecordModel::EndOfFile,
            Record::ExtendedSegmentAddress(b) => RecordModel::ExtendedSegmentAddress(*b),
            Record::StartSegmentAddress { cs, ip } => RecordModel::StartSegmentAddress { cs: *cs, ip: *ip },
            Record::ExtendedLinearAddress(b) => RecordModel::ExtendedLinearAddress(*b),
            Record::StartLinearAddress(a) => RecordModel::StartLinearAddress(*a),
        }
    }
}

/// The models of a sequence of records.
pub open spec fn record_models(rs: Seq<Record>) -> Seq<RecordModel> {
    rs.map_values(|r: Record| r@)
}

/// What to do with a line that the record reader could not parse.
#[derive(Debug, Clone, Copy, PartialEq, Eq, Structural)]
pub enum ParsePolicy {
    /// Reject the whole stream at the first such line.
    FailFast,
    /// Leave such lines out and keep the records around them.
    SkipInvalid,
}

/// The records of `ps` that were parsed, in order.
pub open spec fn parsed_records(ps: Seq<Option<Record>>) -> Seq<RecordModel>
    decreases ps.len(),
{
    if ps.len() == 0 {
        Seq::empty()
    } else {
        match ps.last() {
            Some(r) => parsed_records(ps.drop_last()).push(r@),
            None => parsed_records(ps.drop_last()),
        }
    }
}

/// A copy of `r`.
fn copy_record(r: &Record) -> (c: Record)
    ensures
        c@ == r@,
{
    match r {
        Record::Data { offset, value } => {
            let mut v: Vec<u8> = Vec::new();
            push_all(&mut v, value.as_slice());
            assert(v@ =~= value@);
            Record::Data { offset: *offset, value: v }
        },
        Record::EndOfFile => Record::EndOfFile,
        Record::ExtendedSegmentAddress(b) => Record::ExtendedSegmentAddress(*b),
        Record::StartSegmentAddress { cs, ip } => Record::StartSegmentAddress { cs: *cs, ip: *ip },
        Record::ExtendedLinearAddress(b) => Record::ExtendedLinearAddress(*b),
        Record::StartLinearAddress(a) => Record::StartLinearAddress(*a),
    }
}

/// The records to build regions from, given one entry per line of the HEX
/// text (`None` where the line could not be parsed). Under `FailFast` the
/// first unparsable line is reported by its position; under `SkipInvalid`
/// such lines are left out.
pub fn accept_records(parsed: &[Option<Record>], policy: ParsePolicy) -> (r: Result<Vec<Record>, usize>)
    ensures
        policy == ParsePolicy::SkipInvalid ==> (r matches Ok(v) && record_models(v@) == parsed_records(parsed@)),
        policy == ParsePolicy::FailFast ==> match r {
            Ok(v) => record_models(v@) == parsed_records(parsed@) && forall|i: int|
                0 <= i < parsed@.len() ==> (#[trigger] parsed@[i]) is Some,
            Err(line) => line < parsed@.len() && parsed@[line as int] is None && forall|i: int|
                0 <= i < line ==> (#[trigger] parsed@[i]) is Some,
        },
{
    let mut records: Vec<Record> = Vec::new();
    let mut i: usize = 0;
    while i < parsed.len()
        invariant
            i <= parsed@.len(),
            record_models(records@) == parsed_records(parsed@.subrange(0, i as int)),
            policy == ParsePolicy::FailFast ==> forall|j: int| 0 <= j < i ==> (#[trigger] parsed@[j]) is Some,
        decreases parsed@.len() - i,
    {
        proof {
            assert(parsed@.subrange(0, i as int + 1).drop_last() =~= parsed@.subrange(0, i as int));
        }
        match &parsed[i] {
            Some(rec) => {
                let c = copy_record(rec);
                proof {
                    assert(record_models(records@.push(c)) =~= record_models(records@).push(c@));
                }
                records.push(c);
            },
            None => {
                if policy == ParsePolicy::FailFast {
                    return Err(i);
                }
            },
        }
        i += 1;
    }
    proof {
        assert(parsed@.subrange(0, parsed@.len() as int) =~= parsed@);
    }
    Ok(records)
}

} // verus!
