//! Re-emitting a range of records in the framing in which they were read.

use crate::cursor::DumpRecordFile;
use crate::error::DumpError;
use crate::framing::{
    frame_all, lemma_frame_all_push, lemma_roundtrip_bytes, records, well_framed, write_raw_msg,
};
use vstd::prelude::*;

verus! {

/// The records `start` to `end`, both counted from zero and both included,
/// written one after another; nothing where `start` lies behind `end`. A
/// range that reaches past the last record is a framing error.
pub open spec fn cat(data: Seq<u8>, start: nat, end: nat) -> Result<Seq<u8>, DumpError> {
    let all = records(data);
    if start > all.len() {
        Err(DumpError::Framing)
    } else if start > end {
        Ok(Seq::empty())
    } else if end >= all.len() {
        Err(DumpError::Framing)
    } else {
        Ok(frame_all(all.subrange(start as int, end as int + 1)))
    }
}

/// Re-emitting every record of a well-framed dump gives back the dump, byte
/// for byte.
pub proof fn lemma_cat_all_is_identity(data: Seq<u8>)
    requires
        well_framed(data),
        records(data).len() > 0,
    ensures
        cat(data, 0, (records(data).len() - 1) as nat) == Ok::<Seq<u8>, DumpError>(data),
{
    let all = records(data);
    lemma_roundtrip_bytes(data);
    assert(all.subrange(0, all.len() as int) =~= all);
}

/// Re-emits the records `start_idx` to `end_idx` of the dump, both included,
/// as one framed byte stream.
pub fn action_cat(file: &DumpRecordFile, start_idx: usize, end_idx: usize) -> (emitted: Result<
    Vec<u8>,
    DumpError,
>)
    ensures
        match emitted {
            Ok(out) => cat(file@, start_idx as nat, end_idx as nat) == Ok::<Seq<u8>, DumpError>(
                out@,
            ),
            Err(e) => cat(file@, start_idx as nat, end_idx as nat) == Err::<Seq<u8>, DumpError>(e),
        },
{
    let ghost all = records(file@);
    let mut out: Vec<u8> = Vec::new();
    let mut cursor = file.get_cursor();
    cursor.seek_to_msg_idx(start_idx)?;
    assert(all.subrange(start_idx as int, start_idx as int) =~= Seq::<Seq<u8>>::empty());
    while cursor.get_msg_idx() <= end_idx
        invariant
            all == records(file@),
            cursor.wf(),
            cursor.source() == file@,
            start_idx <= cursor.index() <= all.len(),
            cursor.index() <= end_idx + 1 || cursor.index() == start_idx,
            out@ == frame_all(all.subrange(start_idx as int, cursor.index() as int)),
        decreases end_idx + 1 - cursor.index(),
    {
        let ghost n = cursor.index() as int;
        let msg = cursor.read_raw_msg()?;
        write_raw_msg(&mut out, msg);
        proof {
            lemma_frame_all_push(all.subrange(start_idx as int, n), all[n]);
            assert(all.subrange(start_idx as int, n + 1) =~= all.subrange(start_idx as int, n).push(
                all[n],
            ));
        }
    }
    Ok(out)
}

} // verus!
