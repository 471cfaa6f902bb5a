//! Looking at the records of a dump: each one as indented JSON or as the
//! size of a binary payload, and a count of the records by type.

use crate::cursor::DumpRecordFile;
use crate::error::DumpError;
use crate::framing::{records, well_framed};
use crate::json::{json_parse, json_pretty, to_pretty};
use crate::message::try_parse;
use crate::summary::{count_label, get_summary, label_counts, Summary};
use vstd::prelude::*;

verus! {

/// What there is to show of one record.
#[derive(Debug, PartialEq, Eq)]
pub enum MsgBody {
    /// A JSON message, as indented text.
    Json(String),
    /// A payload that is no JSON, with its length in bytes.
    Binary(usize),
}

/// One record as it is shown, with its index in the dump.
#[derive(Debug, PartialEq, Eq)]
pub struct InspectedMsg {
    pub idx: usize,
    pub body: MsgBody,
}

/// What an inspection found: the records looked at, in order, and the
/// summary if one was asked for.
#[derive(Debug)]
pub struct InspectReport {
    pub messages: Vec<InspectedMsg>,
    pub summary: Option<Summary>,
}

/// `body` is what is shown of the record `raw`.
pub open spec fn shows(body: MsgBody, raw: Seq<u8>) -> bool {
    match body {
        MsgBody::Json(text) => match json_parse(raw) {
            Some(value) => json_pretty(value) == Some(text@),
            None => false,
        },
        MsgBody::Binary(len) => json_parse(raw) is None && len == raw.len(),
    }
}

/// The record can be shown: it is binary, or JSON that can be printed.
pub open spec fn showable(raw: Seq<u8>) -> bool {
    match json_parse(raw) {
        Some(value) => json_pretty(value) is Some,
        None => true,
    }
}

/// The number of records that an inspection looks at: `head` of them, or
/// all that can be read.
pub open spec fn inspect_count(data: Seq<u8>, head: Option<usize>) -> nat {
    match head {
        Some(n) => n as nat,
        None => records(data).len(),
    }
}

/// The error that ends an inspection, if any: a record that cannot be
/// printed, then records that are asked for and not there, then a dump that
/// is not well framed where all of it has to be read.
pub open spec fn inspect_error(data: Seq<u8>, head: Option<usize>, summary: bool) -> Option<
    DumpError,
> {
    let all = records(data);
    let count = inspect_count(data, head);
    if exists|i: int| 0 <= i < count && i < all.len() && !showable(#[trigger] all[i]) {
        Some(DumpError::JsonParse)
    } else if count > all.len() {
        Some(DumpError::Framing)
    } else if (head is None || summary) && !well_framed(data) {
        Some(DumpError::Framing)
    } else {
        None
    }
}

/// Looks at one record: JSON becomes indented text, anything else is
/// reported as binary with its length.
pub fn inspect_dump_msg(raw_msg: &[u8], idx: usize) -> (shown: Result<InspectedMsg, DumpError>)
    ensures
        match shown {
            Ok(msg) => msg.idx == idx && shows(msg.body, raw_msg@),
            Err(e) => e == DumpError::JsonParse && !showable(raw_msg@),
        },
{
    match try_parse(raw_msg) {
        Some(value) => match to_pretty(&value) {
            Ok(fmt_value) => Ok(InspectedMsg { idx, body: MsgBody::Json(fmt_value) }),
            Err(_) => Err(DumpError::JsonParse),
        },
        None => Ok(InspectedMsg { idx, body: MsgBody::Binary(raw_msg.len()) }),
    }
}

/// Inspects the first `head` records of the dump, or all of them, and adds
/// the summary of the whole dump if `summary` is set.
pub fn action_inspect(file: &DumpRecordFile, head: Option<usize>, summary: bool) -> (inspected:
    Result<InspectReport, DumpError>)
    ensures
        match inspected {
            Ok(report) => {
                let all = records(file@);
                &&& inspect_error(file@, head, summary) is None
                &&& report.messages@.len() == inspect_count(file@, head)
                &&& forall|i: int|
                    0 <= i < report.messages@.len() ==> (#[trigger] report.messages@[i]).idx == i
                        && shows(report.messages@[i].body, all[i])
                &&& match report.summary {
                    Some(counted) => {
                        &&& summary
                        &&& counted.wf()
                        &&& counted.messages() == all.len()
                        &&& counted@ == label_counts(all)
                        &&& forall|label: Seq<char>|
                            #[trigger] counted.tally(label) == count_label(all, label)
                    },
                    None => !summary,
                }
            },
            Err(e) => inspect_error(file@, head, summary) == Some(e),
        },
{
    let ghost all = records(file@);
    let mut cursor = file.get_cursor();
    let mut messages: Vec<InspectedMsg> = Vec::new();
    match head {
        Some(limit) => {
            let mut i: usize = 0;
            while i < limit
                invariant
                    head == Some(limit),
                    all == records(file@),
                    cursor.wf(),
                    cursor.source() == file@,
                    cursor.index() == i,
                    i <= limit,
                    messages@.len() == i,
                    forall|j: int|
                        0 <= j < i ==> (#[trigger] messages@[j]).idx == j && shows(
                            messages@[j].body,
                            all[j],
                        ),
                    forall|j: int| 0 <= j < i ==> showable(#[trigger] all[j]),
                decreases limit - i,
            {
                let raw_msg = cursor.read_raw_msg()?;
                match inspect_dump_msg(raw_msg, i) {
                    Ok(msg) => {
                        messages.push(msg);
                    },
                    Err(e) => {
                        assert(!showable(all[i as int]));
                        return Err(e);
                    },
                }
                i = i + 1;
            }
        },
        None => {
            while !cursor.is_at_end()
                invariant
                    head is None,
                    all == records(file@),
                    cursor.wf(),
                    cursor.source() == file@,
                    messages@.len() == cursor.index(),
                    forall|j: int|
                        0 <= j < messages@.len() ==> (#[trigger] messages@[j]).idx == j && shows(
                            messages@[j].body,
                            all[j],
                        ),
                    forall|j: int| 0 <= j < messages@.len() ==> showable(#[trigger] all[j]),
                decreases all.len() - cursor.index(),
            {
                let i = cursor.get_msg_idx();
                let raw_msg = cursor.read_raw_msg()?;
                match inspect_dump_msg(raw_msg, i) {
                    Ok(msg) => {
                        messages.push(msg);
                    },
                    Err(e) => {
                        assert(!showable(all[i as int]));
                        return Err(e);
                    },
                }
            }
        },
    }
    let counted = if summary {
        Some(get_summary(file)?)
    } else {
        None
    };
    Ok(InspectReport { messages, summary: counted })
}

} // verus!
