//! The frame sender: the sequence of transport frames that plays a recorded
//! acquisition to a receiver, one frame per record. Handing the frames to a
//! transport is left to the caller.

use crate::cursor::{first_of_type, lemma_first_of_type, DumpRecordFile, RecordCursor};
use crate::error::DumpError;
use crate::framing::{records, well_framed};
use crate::summary::{count_label, get_summary};
use vstd::prelude::*;
use vstd::slice::slice_to_vec;

verus! {

/// One frame for the transport. Its view is the payload of a record, or
/// `None` for the marker that ends the stream.
#[derive(Debug, PartialEq, Eq)]
pub enum TransportFrame {
    /// The payload of one record, to be sent as it is.
    Record(Vec<u8>),
    /// The marker that tells the receiver that the stream is over.
    EndOfStream,
}

impl View for TransportFrame {
    type V = Option<Seq<u8>>;

    open spec fn view(&self) -> Option<Seq<u8>> {
        match self {
            TransportFrame::Record(payload) => Some(payload@),
            TransportFrame::EndOfStream => None,
        }
    }
}

/// The views of a run of frames.
pub open spec fn frames_view(frames: Seq<TransportFrame>) -> Seq<Option<Seq<u8>>> {
    frames.map_values(|frame: TransportFrame| frame@)
}

/// Records as the frames that carry them.
pub open spec fn as_frames(payloads: Seq<Seq<u8>>) -> Seq<Option<Seq<u8>>> {
    payloads.map_values(|payload: Seq<u8>| Some(payload))
}

/// The frames that play the dump `data`, or the error that ends the attempt:
/// the header and the configuration, the four records of every image in
/// recorded order, and the end marker. There are as many images as the dump
/// has binary records.
pub open spec fn simulation(data: Seq<u8>) -> Result<Seq<Option<Seq<u8>>>, DumpError> {
    let all = records(data);
    let images = count_label(all, "<binary>"@);
    if !well_framed(data) {
        Err(DumpError::Framing)
    } else {
        match first_of_type(all, 0, "dheader-1.0"@) {
            None => Err(DumpError::MissingHeader),
            Some(at) => if at + 2 + 4 * images > all.len() {
                Err(DumpError::Framing)
            } else {
                Ok(as_frames(all.subrange(at, at + 2 + 4 * images)).push(None))
            },
        }
    }
}

/// Plays one dump: a cursor into it, the number of images it holds, and
/// the frames produced so far.
pub struct FrameSender<'a> {
    cursor: RecordCursor<'a>,
    nimages: usize,
    outbox: Vec<TransportFrame>,
}

impl<'a> FrameSender<'a> {
    /// The bytes of the dump that is played.
    pub closed spec fn source(&self) -> Seq<u8> {
        self.cursor.source()
    }

    /// The index of the next record to send.
    pub closed spec fn position(&self) -> nat {
        self.cursor.index()
    }

    /// The frames produced so far, in order.
    pub closed spec fn sent(&self) -> Seq<Option<Seq<u8>>> {
        frames_view(self.outbox@)
    }

    /// The sender reads a well-framed dump and knows how many images it holds.
    pub closed spec fn wf(&self) -> bool {
        &&& self.cursor.wf()
        &&& well_framed(self.cursor.source())
        &&& self.nimages == count_label(records(self.cursor.source()), "<binary>"@)
    }

    /// A sender at the start of `file` that has sent nothing. The images are
    /// counted here, so a dump that is not well framed is refused.
    pub fn new(file: &'a DumpRecordFile) -> (made: Result<FrameSender<'a>, DumpError>)
        ensures
            match made {
                Ok(sender) => {
                    &&& well_framed(file@)
                    &&& sender.wf()
                    &&& sender.source() == file@
                    &&& sender.position() == 0
                    &&& sender.sent() == Seq::<Option<Seq<u8>>>::empty()
                },
                Err(e) => e == DumpError::Framing && !well_framed(file@),
            },
    {
        let summary = get_summary(file)?;
        let nimages: usize = match summary.get("<binary>") {
            Some(n) => n,
            None => 0,
        };
        let sender = FrameSender { cursor: file.get_cursor(), nimages, outbox: Vec::new() };
        assert(sender.sent() =~= Seq::<Option<Seq<u8>>>::empty());
        Ok(sender)
    }

    /// Sends the next record as one frame.
    fn send_record(&mut self) -> (done: Result<(), DumpError>)
        requires
            old(self).wf(),
        ensures
            final(self).wf(),
            final(self).source() == old(self).source(),
            match done {
                Ok(()) => {
                    &&& old(self).position() < records(old(self).source()).len()
                    &&& final(self).position() == old(self).position() + 1
                    &&& final(self).sent() == old(self).sent().push(
                        Some(records(old(self).source())[old(self).position() as int]),
                    )
                },
                Err(e) => {
                    &&& e == DumpError::Framing
                    &&& old(self).position() == records(old(self).source()).len()
                    &&& final(self).position() == old(self).position()
                    &&& final(self).sent() == old(self).sent()
                },
            },
    {
        let raw = self.cursor.read_raw_msg()?;
        self.outbox.push(TransportFrame::Record(slice_to_vec(raw)));
        assert(self.sent() =~= old(self).sent().push(Some(raw@)));
        Ok(())
    }

    /// Sends the header, the first record of type `dheader-1.0`, and the
    /// configuration record behind it, as two frames in that order.
    pub fn send_headers(&mut self) -> (done: Result<(), DumpError>)
        requires
            old(self).wf(),
        ensures
            final(self).wf(),
            final(self).source() == old(self).source(),
            match done {
                Ok(()) => {
                    let all = records(old(self).source());
                    let at = first_of_type(all, 0, "dheader-1.0"@)->0;
                    &&& first_of_type(all, 0, "dheader-1.0"@) is Some
                    &&& 0 <= at && at + 2 <= all.len()
                    &&& final(self).position() == at + 2
                    &&& final(self).sent() == old(self).sent() + as_frames(
                        all.subrange(at, at + 2),
                    )
                },
                Err(e) => {
                    let all = records(old(self).source());
                    match first_of_type(all, 0, "dheader-1.0"@) {
                        Some(at) => e == DumpError::Framing && at + 2 > all.len(),
                        None => e == DumpError::MissingHeader,
                    }
                },
            },
    {
        let ghost all = records(self.source());
        proof {
            lemma_first_of_type(all, 0, "dheader-1.0"@);
        }
        self.cursor.seek_to_first_header_of_type("dheader-1.0")?;
        let ghost at = self.position() as int;
        self.send_record()?;
        self.send_record()?;
        assert(self.sent() =~= old(self).sent() + as_frames(all.subrange(at, at + 2)));
        Ok(())
    }

    /// Sends every image of the dump from the current position on: four
    /// frames for each, in recorded order.
    pub fn send_frames(&mut self) -> (done: Result<(), DumpError>)
        requires
            old(self).wf(),
        ensures
            final(self).wf(),
            final(self).source() == old(self).source(),
            match done {
                Ok(()) => {
                    let all = records(old(self).source());
                    let from = old(self).position() as int;
                    let images = count_label(all, "<binary>"@);
                    &&& from + 4 * images <= all.len()
                    &&& final(self).position() == from + 4 * images
                    &&& final(self).sent() == old(self).sent() + as_frames(
                        all.subrange(from, from + 4 * images),
                    )
                },
                Err(e) => {
                    let all = records(old(self).source());
                    &&& e == DumpError::Framing
                    &&& old(self).position() + 4 * count_label(all, "<binary>"@) > all.len()
                },
            },
    {
        let ghost all = records(self.source());
        let ghost from = self.position() as int;
        let ghost before = self.sent();
        assert(all.subrange(from, from) =~= Seq::<Seq<u8>>::empty());
        assert(before + as_frames(all.subrange(from, from)) =~= before);
        let mut image: usize = 0;
        while image < self.nimages
            invariant
                self.wf(),
                self.source() == old(self).source(),
                all == records(self.source()),
                image <= self.nimages,
                self.nimages == count_label(all, "<binary>"@),
                from == old(self).position(),
                self.position() == from + 4 * image,
                self.sent() == before + as_frames(all.subrange(from, from + 4 * image)),
            decreases self.nimages - image,
        {
            let ghost at = from + 4 * image;
            self.send_record()?;
            self.send_record()?;
            self.send_record()?;
            self.send_record()?;
            assert(self.sent() =~= before + as_frames(all.subrange(from, at + 4)));
            image = image + 1;
        }
        Ok(())
    }

    /// Sends the marker that ends the stream.
    pub fn send_footer(&mut self)
        requires
            old(self).wf(),
        ensures
            final(self).wf(),
            final(self).source() == old(self).source(),
            final(self).position() == old(self).position(),
            final(self).sent() == old(self).sent().push(None),
    {
        self.outbox.push(TransportFrame::EndOfStream);
        assert(self.sent() =~= old(self).sent().push(None));
    }

    /// The frames produced, for the transport to send in this order.
    pub fn into_frames(self) -> (frames: Vec<TransportFrame>)
        ensures
            frames_view(frames@) == self.sent(),
    {
        self.outbox
    }
}

/// What the caller of a transport does next.
#[derive(Debug, Clone, Copy, PartialEq, Eq, Structural)]
pub enum SendAction {
    /// Hand the frame with this index to the transport.
    Send(usize),
    /// Every frame has been taken; there is nothing left to do.
    Finish,
    /// A send has failed; nothing more is sent and nothing is tried again.
    Abort,
}

/// The progress of handing a run of frames to a transport: frames go out in
/// their order, each is offered once, and the first failure ends the run.
pub struct Transmission {
    frames: usize,
    taken: usize,
    failed: bool,
}

impl Transmission {
    /// The number of frames to send.
    pub closed spec fn frames(&self) -> nat {
        self.frames as nat
    }

    /// The number of frames that the transport has taken.
    pub closed spec fn taken(&self) -> nat {
        self.taken as nat
    }

    /// Whether a send has failed.
    pub closed spec fn failed(&self) -> bool {
        self.failed
    }

    /// No more frames are taken than there are.
    pub closed spec fn wf(&self) -> bool {
        self.taken <= self.frames
    }

    /// What is to be done in this state: stop after a failure, else offer
    /// the first frame that has not been taken, else finish.
    pub open spec fn action(&self) -> SendAction {
        if self.failed() {
            SendAction::Abort
        } else if self.taken() < self.frames() {
            SendAction::Send(self.taken() as usize)
        } else {
            SendAction::Finish
        }
    }

    /// A transmission of `frames` frames of which none has been sent.
    pub fn new(frames: usize) -> (started: Self)
        ensures
            started.wf(),
            started.frames() == frames,
            started.taken() == 0,
            !started.failed(),
    {
        Transmission { frames, taken: 0, failed: false }
    }

    /// What to do next.
    pub fn next(&self) -> (action: SendAction)
        requires
            self.wf(),
        ensures
            action == self.action(),
    {
        if self.failed {
            SendAction::Abort
        } else if self.taken < self.frames {
            SendAction::Send(self.taken)
        } else {
            SendAction::Finish
        }
    }

    /// Takes note of how the send that `next` asked for went. A frame that
    /// was delivered is never offered again; a failure is final.
    pub fn record(&mut self, delivered: bool)
        requires
            old(self).wf(),
            old(self).action() is Send,
        ensures
            final(self).wf(),
            final(self).frames() == old(self).frames(),
            final(self).failed() == !delivered,
            final(self).taken() == if delivered {
                old(self).taken() + 1
            } else {
                old(self).taken()
            },
    {
        if delivered {
            self.taken = self.taken + 1;
        } else {
            self.failed = true;
        }
    }
}

/// The frames that play the dump to a receiver: header and configuration,
/// every image quadruple in recorded order, and the end marker.
pub fn action_sim(file: &DumpRecordFile) -> (planned: Result<Vec<TransportFrame>, DumpError>)
    ensures
        match planned {
            Ok(frames) => simulation(file@) == Ok::<Seq<Option<Seq<u8>>>, DumpError>(
                frames_view(frames@),
            ),
            Err(e) => simulation(file@) == Err::<Seq<Option<Seq<u8>>>, DumpError>(e),
        },
{
    let ghost all = records(file@);
    let mut sender = FrameSender::new(file)?;
    sender.send_headers()?;
    let ghost at = first_of_type(all, 0, "dheader-1.0"@)->0;
    sender.send_frames()?;
    sender.send_footer();
    proof {
        let images = count_label(all, "<binary>"@);
        assert(as_frames(all.subrange(at, at + 2)) + as_frames(
            all.subrange(at + 2, at + 2 + 4 * images),
        ) =~= as_frames(all.subrange(at, at + 2 + 4 * images)));
    }
    Ok(sender.into_frames())
}

} // verus!
