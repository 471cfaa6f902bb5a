//! The record store and the cursor that walks it.

use crate::error::DumpError;
use crate::framing::{
    frame_all, lemma_frame_all_concat, lemma_frame_all_single, lemma_le_digits_len,
    lemma_scan_reproduces, record_at, record_bounds, records, records_from, scan_end, well_framed,
};
use crate::json::json_parse;
use crate::message::{get_htype, htype_of, try_parse};
use vstd::prelude::*;
use vstd::slice::slice_subrange;

verus! {

/// The bytes of one dump, held for reading. Its view is those bytes.
pub struct DumpRecordFile {
    data: Vec<u8>,
}

impl View for DumpRecordFile {
    type V = Seq<u8>;

    closed spec fn view(&self) -> Seq<u8> {
        self.data@
    }
}

/// The byte at which record `n` of `data` starts: the length of the `n`
/// records before it as they are written.
pub open spec fn offset_of(data: Seq<u8>, n: nat) -> nat {
    frame_all(records(data).take(n as int)).len()
}

/// The first index from `from` on whose record is JSON with the
/// discriminator `htype`.
pub open spec fn first_of_type(payloads: Seq<Seq<u8>>, from: int, htype: Seq<char>) -> Option<int>
    decreases payloads.len() - from,
{
    if from < 0 || from >= payloads.len() {
        None
    } else if htype_of(payloads[from]) == Some(htype) {
        Some(from)
    } else {
        first_of_type(payloads, from + 1, htype)
    }
}

/// What stands at the start of record `n`: the records from `n` on, and the
/// same end of reading as from the first byte.
pub proof fn lemma_offset_of(data: Seq<u8>, n: nat)
    requires
        n <= records(data).len(),
    ensures
        8 * n <= offset_of(data, n) <= scan_end(data, 0) <= data.len(),
        records_from(data, offset_of(data, n) as int) == records(data).skip(n as int),
        scan_end(data, offset_of(data, n) as int) == scan_end(data, 0),
    decreases n,
{
    let all = records(data);
    lemma_scan_reproduces(data, 0);
    if n == 0 {
        assert(all.take(0) =~= Seq::<Seq<u8>>::empty());
        assert(all.skip(0) =~= all);
    } else {
        let before = (n - 1) as nat;
        lemma_offset_of(data, before);
        let at = offset_of(data, before) as int;
        assert(all.skip(before as int)[0] == all[before as int]);
        let payload = all[before as int];
        assert(record_at(data, at) == Some(payload));
        assert(all.take(n as int) =~= all.take(before as int) + seq![payload]);
        lemma_frame_all_concat(all.take(before as int), seq![payload]);
        lemma_frame_all_single(payload);
        lemma_le_digits_len(payload.len(), 8);
        assert(offset_of(data, n) == at + 8 + payload.len());
        assert(all.skip(before as int).drop_first() =~= all.skip(n as int));
        lemma_scan_reproduces(data, at);
        lemma_scan_reproduces(data, offset_of(data, n) as int);
    }
}

/// What `record_at` finds at the start of record `n`: that record, with the
/// next one right behind it; or nothing, where `n` records are all there are.
pub proof fn lemma_record_at_offset(data: Seq<u8>, n: nat)
    requires
        n <= records(data).len(),
    ensures
        match record_at(data, offset_of(data, n) as int) {
            Some(payload) => {
                &&& n < records(data).len()
                &&& payload == records(data)[n as int]
                &&& offset_of(data, n + 1) == offset_of(data, n) + 8 + payload.len()
            },
            None => n == records(data).len() && scan_end(data, 0) == offset_of(data, n),
        },
{
    let all = records(data);
    let at = offset_of(data, n) as int;
    lemma_offset_of(data, n);
    match record_at(data, at) {
        Some(payload) => {
            let behind = records_from(data, at + 8 + payload.len());
            assert(records_from(data, at) == seq![payload] + behind);
            assert(records_from(data, at).len() == 1 + behind.len());
            assert(records_from(data, at)[0] == payload);
            assert(all.skip(n as int).len() == all.len() - n);
            assert(all.skip(n as int)[0] == all[n as int]);
            assert(all.take(n as int + 1) =~= all.take(n as int) + seq![payload]);
            lemma_frame_all_concat(all.take(n as int), seq![payload]);
            lemma_frame_all_single(payload);
            lemma_le_digits_len(payload.len(), 8);
        },
        None => {
            assert(records_from(data, at).len() == 0);
        },
    }
}

/// The first match lies in range, matches, and nothing before it does; with
/// no match, nothing from `from` on matches.
pub proof fn lemma_first_of_type(payloads: Seq<Seq<u8>>, from: int, htype: Seq<char>)
    requires
        0 <= from,
    ensures
        match first_of_type(payloads, from, htype) {
            Some(found) => {
                &&& from <= found < payloads.len()
                &&& htype_of(payloads[found]) == Some(htype)
                &&& forall|i: int| from <= i < found ==> htype_of(#[trigger] payloads[i]) != Some(htype)
            },
            None => forall|i: int|
                from <= i < payloads.len() ==> htype_of(#[trigger] payloads[i]) != Some(htype),
        },
    decreases payloads.len() - from,
{
    if from < payloads.len() && htype_of(payloads[from]) != Some(htype) {
        lemma_first_of_type(payloads, from + 1, htype);
    }
}

/// Seeking a type that some record of the dump has ends at the first such
/// record, which is what the next read returns; seeking a type that no
/// record has finds nothing.
pub proof fn lemma_seek_finds_type(data: Seq<u8>, htype: Seq<char>)
    ensures
        match first_of_type(records(data), 0, htype) {
            Some(found) => {
                &&& 0 <= found < records(data).len()
                &&& htype_of(records(data)[found]) == Some(htype)
            },
            None => forall|i: int|
                0 <= i < records(data).len() ==> htype_of(#[trigger] records(data)[i]) != Some(
                    htype,
                ),
        },
        first_of_type(records(data), 0, htype) is Some <==> exists|i: int|
            0 <= i < records(data).len() && htype_of(#[trigger] records(data)[i]) == Some(htype),
{
    lemma_first_of_type(records(data), 0, htype);
}

impl DumpRecordFile {
    /// Takes the bytes of a dump as they were read from storage.
    pub fn new(data: Vec<u8>) -> (file: Self)
        ensures
            file@ == data@,
    {
        DumpRecordFile { data }
    }

    /// The number of bytes in the dump.
    pub fn get_size(&self) -> (size: usize)
        ensures
            size == self@.len(),
    {
        self.data.len()
    }

    /// The bytes of the dump.
    pub fn as_bytes(&self) -> (bytes: &[u8])
        ensures
            bytes@ == self@,
    {
        self.data.as_slice()
    }

    /// A cursor at the first record.
    pub fn get_cursor(&self) -> (cursor: RecordCursor<'_>)
        ensures
            cursor.wf(),
            cursor.source() == self@,
            cursor.index() == 0,
    {
        proof {
            lemma_offset_of(self@, 0);
        }
        RecordCursor { file: self, current_offset: 0, current_msg_idx: 0 }
    }
}

/// A position in a dump: the index of the next record to read. The cursor
/// borrows the dump and owns no payload.
pub struct RecordCursor<'a> {
    file: &'a DumpRecordFile,
    current_offset: usize,
    current_msg_idx: usize,
}

impl<'a> RecordCursor<'a> {
    /// The bytes of the dump that the cursor reads.
    pub closed spec fn source(&self) -> Seq<u8> {
        self.file@
    }

    /// The index of the next record to read.
    pub closed spec fn index(&self) -> nat {
        self.current_msg_idx as nat
    }

    /// The byte at which the cursor stands.
    pub closed spec fn offset(&self) -> nat {
        self.current_offset as nat
    }

    /// The cursor stands at the first byte of a record that can be reached
    /// from the start, or where reading from the start stops.
    pub open spec fn wf(&self) -> bool {
        &&& self.index() <= records(self.source()).len()
        &&& self.offset() == offset_of(self.source(), self.index())
    }

    /// Index and offset are machine numbers.
    pub proof fn lemma_index_fits(&self)
        ensures
            self.index() <= usize::MAX,
            self.offset() <= usize::MAX,
    {
    }

    /// The index of the next record to read.
    pub fn get_msg_idx(&self) -> (idx: usize)
        ensures
            idx == self.index(),
    {
        self.current_msg_idx
    }

    /// Whether the cursor stands at the last byte of the dump. That is so
    /// exactly when every record has been read and nothing is left over.
    pub fn is_at_end(&self) -> (at_end: bool)
        requires
            self.wf(),
        ensures
            at_end == (self.offset() == self.source().len()),
            at_end == (self.index() == records(self.source()).len() && well_framed(self.source())),
    {
        proof {
            lemma_offset_of(self.source(), self.index());
            lemma_record_at_offset(self.source(), self.index());
        }
        self.current_offset == self.file.get_size()
    }

    /// Reads the next record and steps past it. Reading where no whole
    /// record stands is a framing error and leaves the cursor where it was.
    pub fn read_raw_msg(&mut self) -> (read: Result<&'a [u8], DumpError>)
        requires
            old(self).wf(),
        ensures
            final(self).wf(),
            final(self).source() == old(self).source(),
            match read {
                Ok(msg) => {
                    &&& old(self).index() < records(old(self).source()).len()
                    &&& msg@ == records(old(self).source())[old(self).index() as int]
                    &&& final(self).index() == old(self).index() + 1
                },
                Err(e) => {
                    &&& e == DumpError::Framing
                    &&& old(self).index() == records(old(self).source()).len()
                    &&& final(self).index() == old(self).index()
                },
            },
    {
        let bytes = self.file.as_bytes();
        proof {
            lemma_offset_of(self.source(), self.index());
            lemma_record_at_offset(self.source(), self.index());
        }
        match record_bounds(bytes, self.current_offset) {
            Some((start, end)) => {
                proof {
                    lemma_offset_of(self.source(), self.index() + 1);
                }
                let msg = slice_subrange(bytes, start, end);
                self.current_offset = end;
                self.current_msg_idx = self.current_msg_idx + 1;
                Ok(msg)
            },
            None => Err(DumpError::Framing),
        }
    }

    /// Reads the next record and parses it as JSON. A record that is no
    /// JSON text is an error here, and has been stepped past all the same.
    pub fn read_and_deserialize(&mut self) -> (read: Result<serde_json::Value, DumpError>)
        requires
            old(self).wf(),
        ensures
            final(self).wf(),
            final(self).source() == old(self).source(),
            match read {
                Ok(value) => {
                    &&& old(self).index() < records(old(self).source()).len()
                    &&& json_parse(records(old(self).source())[old(self).index() as int]) == Some(
                        value,
                    )
                    &&& final(self).index() == old(self).index() + 1
                },
                Err(DumpError::Framing) => {
                    &&& old(self).index() == records(old(self).source()).len()
                    &&& final(self).index() == old(self).index()
                },
                Err(e) => {
                    &&& e == DumpError::JsonParse
                    &&& old(self).index() < records(old(self).source()).len()
                    &&& json_parse(records(old(self).source())[old(self).index() as int]) is None
                    &&& final(self).index() == old(self).index() + 1
                },
            },
    {
        let raw = self.read_raw_msg()?;
        match try_parse(raw) {
            Some(value) => Ok(value),
            None => Err(DumpError::JsonParse),
        }
    }

    /// Moves to record `idx`, counting from the start of the dump. An index
    /// past the last record that can be read is a framing error, and the
    /// cursor is then left behind that last record.
    pub fn seek_to_msg_idx(&mut self, idx: usize) -> (sought: Result<(), DumpError>)
        ensures
            final(self).wf(),
            final(self).source() == old(self).source(),
            match sought {
                Ok(()) => idx <= records(old(self).source()).len() && final(self).index() == idx,
                Err(e) => {
                    &&& e == DumpError::Framing
                    &&& idx > records(old(self).source()).len()
                    &&& final(self).index() == records(old(self).source()).len()
                },
            },
    {
        proof {
            lemma_offset_of(self.source(), 0);
        }
        self.current_offset = 0;
        self.current_msg_idx = 0;
        while self.current_msg_idx < idx
            invariant
                self.wf(),
                self.source() == old(self).source(),
                self.index() <= idx,
            decreases idx - self.index(),
        {
            if self.read_raw_msg().is_err() {
                return Err(DumpError::Framing);
            }
        }
        Ok(())
    }

    /// Moves to the first record of the dump that is JSON with the
    /// discriminator `header_type`, and leaves it unread. Where there is
    /// none the cursor ends up behind the last record that can be read; the
    /// error is `MissingHeader` if that is the end of the dump and `Framing`
    /// if it is not.
    pub fn seek_to_first_header_of_type(&mut self, header_type: &str) -> (sought: Result<
        (),
        DumpError,
    >)
        ensures
            final(self).wf(),
            final(self).source() == old(self).source(),
            match sought {
                Ok(()) => {
                    &&& first_of_type(records(old(self).source()), 0, header_type@) == Some(
                        final(self).index() as int,
                    )
                    &&& final(self).index() < records(old(self).source()).len()
                    &&& htype_of(records(old(self).source())[final(self).index() as int]) == Some(
                        header_type@,
                    )
                },
                Err(e) => {
                    &&& first_of_type(records(old(self).source()), 0, header_type@) is None
                    &&& forall|i: int|
                        0 <= i < records(old(self).source()).len() ==> htype_of(
                            #[trigger] records(old(self).source())[i],
                        ) != Some(header_type@)
                    &&& final(self).index() == records(old(self).source()).len()
                    &&& e == if well_framed(old(self).source()) {
                        DumpError::MissingHeader
                    } else {
                        DumpError::Framing
                    }
                },
            },
    {
        proof {
            lemma_offset_of(self.source(), 0);
        }
        self.current_offset = 0;
        self.current_msg_idx = 0;
        let wanted = header_type.to_owned();
        let ghost all = records(self.source());
        loop
            invariant
                wanted@ == header_type@,
                self.wf(),
                self.source() == old(self).source(),
                all == records(self.source()),
                first_of_type(all, 0, header_type@) == first_of_type(
                    all,
                    self.index() as int,
                    header_type@,
                ),
            decreases all.len() - self.index(),
        {
            let here_offset = self.current_offset;
            let here_idx = self.current_msg_idx;
            let at_end = self.is_at_end();
            proof {
                lemma_first_of_type(all, 0, header_type@);
            }
            match self.read_raw_msg() {
                Err(_) => {
                    return Err(
                        if at_end {
                            DumpError::MissingHeader
                        } else {
                            DumpError::Framing
                        },
                    );
                },
                Ok(raw) => {
                    let found = match try_parse(raw) {
                        Some(value) => match get_htype(&value) {
                            Some(tag) => tag == wanted,
                            None => false,
                        },
                        None => false,
                    };
                    if found {
                        self.current_offset = here_offset;
                        self.current_msg_idx = here_idx;
                        return Ok(());
                    }
                },
            }
        }
    }
}

} // verus!
