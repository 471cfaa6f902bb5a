//! The replay engine: one recorded acquisition, emitted again as a longer
//! one with renumbered frames and an adjusted configuration.

use crate::cursor::{first_of_type, lemma_first_of_type, DumpRecordFile, RecordCursor};
use crate::error::DumpError;
use crate::framing::{
    fits_prefix, frame_all, frame_record, lemma_frame_all_concat, lemma_frame_all_push,
    lemma_roundtrip_records, records, well_framed, write_raw_msg,
};
use crate::json::{
    as_text, as_unsigned, json_bytes, json_member, json_of_str, json_of_u64, json_parse,
    json_replaced, json_str, json_u64, member, replace_member, to_bytes, value_of_str,
    value_of_u64,
};
use crate::summary::{count_label, get_summary};
use vstd::arithmetic::div_mod::{lemma_fundamental_div_mod_converse, lemma_mod_bound};
use vstd::prelude::*;

verus! {

/// The unsigned integer under `key`, if `value` is an object that has one.
pub open spec fn u64_member(value: serde_json::Value, key: Seq<char>) -> Option<u64> {
    match json_member(value, key) {
        Some(inner) => json_u64(inner),
        None => None,
    }
}

/// The string under `key`, if `value` is an object that has one.
pub open spec fn str_member(value: serde_json::Value, key: Seq<char>) -> Option<Seq<char>> {
    match json_member(value, key) {
        Some(inner) => json_str(inner),
        None => None,
    }
}

/// `value` with `with` under `key` if it has that key, and unchanged if not.
pub open spec fn replaced_if_present(
    value: serde_json::Value,
    key: Seq<char>,
    with: serde_json::Value,
) -> serde_json::Value {
    if json_member(value, key) is Some {
        json_replaced(value, key, with)
    } else {
        value
    }
}

/// The configuration that a replay announces: one image per trigger,
/// external triggering, and `ntrigger` triggers, each written only where the
/// recorded configuration has the field.
pub open spec fn rewritten_config(value: serde_json::Value, ntrigger: u64) -> serde_json::Value {
    replaced_if_present(
        replaced_if_present(
            replaced_if_present(value, "nimages"@, json_of_u64(1)),
            "trigger_mode"@,
            json_of_str("exte"@),
        ),
        "ntrigger"@,
        json_of_u64(ntrigger),
    )
}

/// An image header with its frame index set to `frame`.
pub open spec fn renumbered(value: serde_json::Value, frame: u64) -> serde_json::Value {
    json_replaced(value, "frame"@, json_of_u64(frame))
}

/// The fields of the detector configuration that a replay relies on.
pub struct DetectorConfig {
    pub nimages: u64,
    pub trigger_mode: String,
    pub ntrigger: u64,
}

/// The field of an image header that a replay relies on.
pub struct DImage {
    pub frame: u64,
}

/// Reads the unsigned integer under `key`.
pub fn get_u64(value: &serde_json::Value, key: &str) -> (found: Option<u64>)
    ensures
        found == u64_member(*value, key@),
{
    match member(value, key) {
        Some(inner) => as_unsigned(inner),
        None => None,
    }
}

/// Reads the string under `key`.
pub fn get_str(value: &serde_json::Value, key: &str) -> (found: Option<String>)
    ensures
        match found {
            Some(s) => str_member(*value, key@) == Some(s@),
            None => str_member(*value, key@) is None,
        },
{
    match member(value, key) {
        Some(inner) => match as_text(inner) {
            Some(s) => Some(s.to_owned()),
            None => None,
        },
        None => None,
    }
}

impl DetectorConfig {
    /// Whether `value` has the shape of a detector configuration: integers
    /// under `nimages` and `ntrigger`, a string under `trigger_mode`.
    pub open spec fn matches_shape(value: serde_json::Value) -> bool {
        &&& u64_member(value, "nimages"@) is Some
        &&& str_member(value, "trigger_mode"@) is Some
        &&& u64_member(value, "ntrigger"@) is Some
    }

    /// Reads a detector configuration out of a JSON value, or `None` where
    /// the value has not the shape of one.
    pub fn from_value(value: &serde_json::Value) -> (config: Option<DetectorConfig>)
        ensures
            match config {
                Some(c) => {
                    &&& u64_member(*value, "nimages"@) == Some(c.nimages)
                    &&& str_member(*value, "trigger_mode"@) == Some(c.trigger_mode@)
                    &&& u64_member(*value, "ntrigger"@) == Some(c.ntrigger)
                },
                None => !Self::matches_shape(*value),
            },
    {
        let nimages = match get_u64(value, "nimages") {
            Some(n) => n,
            None => {
                return None;
            },
        };
        let trigger_mode = match get_str(value, "trigger_mode") {
            Some(s) => s,
            None => {
                return None;
            },
        };
        let ntrigger = match get_u64(value, "ntrigger") {
            Some(n) => n,
            None => {
                return None;
            },
        };
        Some(DetectorConfig { nimages, trigger_mode, ntrigger })
    }
}

impl DImage {
    /// Whether `value` has the shape of an image header: an integer under
    /// `frame`.
    pub open spec fn matches_shape(value: serde_json::Value) -> bool {
        u64_member(value, "frame"@) is Some
    }

    /// Reads an image header out of a JSON value, or `None` where the value
    /// has not the shape of one.
    pub fn from_value(value: &serde_json::Value) -> (header: Option<DImage>)
        ensures
            match header {
                Some(h) => u64_member(*value, "frame"@) == Some(h.frame),
                None => !Self::matches_shape(*value),
            },
    {
        match get_u64(value, "frame") {
            Some(frame) => Some(DImage { frame }),
            None => None,
        }
    }
}

/// Writes `with` under `key` where `value` has that key, and leaves a value
/// without it alone: a missing field is never put in.
pub fn replace_if_present(value: &mut serde_json::Value, key: &str, with: serde_json::Value)
    ensures
        *final(value) == replaced_if_present(*old(value), key@, with),
        json_member(*old(value), key@) is Some ==> json_member(*final(value), key@) == Some(with),
        json_member(*old(value), key@) is None ==> *final(value) == *old(value),
        forall|other: Seq<char>|
            other != key@ ==> #[trigger] json_member(*final(value), other) == json_member(
                *old(value),
                other,
            ),
{
    if member(value, key).is_some() {
        replace_member(value, key, with);
    }
}

/// Turns a recorded configuration into the one that a replay announces.
/// Fields that the recording has are overwritten; none is added, and every
/// other field stays as it is.
pub fn rewrite_config(value: &mut serde_json::Value, ntrigger: u64)
    ensures
        *final(value) == rewritten_config(*old(value), ntrigger),
        json_member(*old(value), "nimages"@) is Some ==> u64_member(*final(value), "nimages"@)
            == Some(1u64),
        json_member(*old(value), "trigger_mode"@) is Some ==> str_member(
            *final(value),
            "trigger_mode"@,
        ) == Some("exte"@),
        json_member(*old(value), "ntrigger"@) is Some ==> u64_member(*final(value), "ntrigger"@)
            == Some(ntrigger),
        forall|key: Seq<char>|
            json_member(*old(value), key) is None ==> #[trigger] json_member(*final(value), key)
                is None,
        forall|key: Seq<char>|
            key != "nimages"@ && key != "trigger_mode"@ && key != "ntrigger"@
                ==> #[trigger] json_member(*final(value), key) == json_member(*old(value), key),
{
    proof {
        reveal_strlit("nimages");
        reveal_strlit("trigger_mode");
        reveal_strlit("ntrigger");
        assert("nimages"@.len() == 7 && "trigger_mode"@.len() == 12 && "ntrigger"@.len() == 8);
    }
    replace_if_present(value, "nimages", value_of_u64(1));
    replace_if_present(value, "trigger_mode", value_of_str("exte"));
    replace_if_present(value, "ntrigger", value_of_u64(ntrigger));
}

/// Serializes `value` and appends it to `out` as one record. A value that
/// the serializer refuses is reported and leaves `out` as it was.
pub fn write_serializable(out: &mut Vec<u8>, value: &serde_json::Value) -> (written: Result<
    (),
    DumpError,
>)
    ensures
        match written {
            Ok(()) => json_bytes(*value) is Some && final(out)@ == old(out)@ + frame_record(
                json_bytes(*value)->0,
            ),
            Err(e) => e == DumpError::JsonParse && json_bytes(*value) is None && final(out)@
                == old(out)@,
        },
{
    match to_bytes(value) {
        Ok(bytes) => {
            write_raw_msg(out, bytes.as_slice());
            Ok(())
        },
        Err(_) => Err(DumpError::JsonParse),
    }
}

/// Whether a raw record is a detector configuration.
pub open spec fn is_config_record(raw: Seq<u8>) -> bool {
    match json_parse(raw) {
        Some(value) => DetectorConfig::matches_shape(value),
        None => false,
    }
}

/// The configuration record of a replay that announces `ntrigger` frames,
/// made from the recorded one; `None` where that is no configuration or
/// cannot be written.
pub open spec fn replayed_config(raw: Seq<u8>, ntrigger: u64) -> Option<Seq<u8>> {
    match json_parse(raw) {
        Some(value) => if DetectorConfig::matches_shape(value) {
            json_bytes(rewritten_config(value, ntrigger))
        } else {
            None
        },
        None => None,
    }
}

/// The image header record for frame `frame`, made from a recorded one;
/// `None` where that is no image header or cannot be written.
pub open spec fn replayed_header(raw: Seq<u8>, frame: u64) -> Option<Seq<u8>> {
    match json_parse(raw) {
        Some(value) => if DImage::matches_shape(value) {
            json_bytes(renumbered(value, frame))
        } else {
            None
        },
        None => None,
    }
}

/// The recorded image header from which the header of frame `frame` is
/// made, where `images` quadruples start at record `first`.
pub open spec fn header_source(payloads: Seq<Seq<u8>>, first: int, images: nat, frame: int) -> Seq<
    u8,
> {
    payloads[first + 4 * (frame % (images as int))]
}

/// The image header record that a replay emits for frame `frame`.
pub open spec fn frame_header(payloads: Seq<Seq<u8>>, first: int, images: nat, frame: int) -> Option<
    Seq<u8>,
> {
    replayed_header(header_source(payloads, first, images, frame), frame as u64)
}

/// Record `i` of the image part of a replay: four records per frame, the
/// first a renumbered header, the other three as they were recorded.
pub open spec fn replayed_image_record(
    payloads: Seq<Seq<u8>>,
    first: int,
    images: nat,
    i: int,
) -> Seq<u8> {
    let frame = i / 4;
    if i % 4 == 0 {
        frame_header(payloads, first, images, frame)->0
    } else {
        payloads[first + 4 * (frame % (images as int)) + i % 4]
    }
}

/// The records of a replay of `data` with `repetitions` repetitions, or the
/// error that ends it.
///
/// The header is the first record of type `dheader-1.0`, the record behind
/// it the configuration, and behind that stand as many quadruples as the
/// dump has binary records. The replay is the header, the rewritten
/// configuration, and the quadruples `repetitions` times over, with frame
/// indices counting up from zero.
pub open spec fn replay(data: Seq<u8>, repetitions: nat) -> Result<Seq<Seq<u8>>, DumpError> {
    let all = records(data);
    let images = count_label(all, "<binary>"@);
    let frames = images * repetitions;
    match first_of_type(all, 0, "dheader-1.0"@) {
        None => Err(
            if well_framed(data) {
                DumpError::MissingHeader
            } else {
                DumpError::Framing
            },
        ),
        Some(at) => if at + 1 >= all.len() {
            Err(DumpError::Framing)
        } else if !is_config_record(all[at + 1]) {
            Err(DumpError::JsonParse)
        } else if !well_framed(data) {
            Err(DumpError::Framing)
        } else if frames > u64::MAX {
            Err(DumpError::FrameCount)
        } else if replayed_config(all[at + 1], frames as u64) is None {
            Err(DumpError::JsonParse)
        } else if repetitions > 0 && at + 2 + 4 * images > all.len() {
            Err(DumpError::Framing)
        } else if exists|frame: int|
            0 <= frame < frames && #[trigger] frame_header(all, at + 2, images, frame) is None {
            Err(DumpError::JsonParse)
        } else {
            Ok(
                seq![all[at], replayed_config(all[at + 1], frames as u64)->0] + Seq::new(
                    4 * frames,
                    |i: int| replayed_image_record(all, at + 2, images, i),
                ),
            )
        },
    }
}

/// A replay is one header, one configuration, and four records for every
/// image of every repetition.
pub proof fn lemma_replay_record_count(data: Seq<u8>, repetitions: nat)
    requires
        replay(data, repetitions) is Ok,
    ensures
        replay(data, repetitions)->Ok_0.len() == 2 + 4 * repetitions * count_label(
            records(data),
            "<binary>"@,
        ),
{
    let images = count_label(records(data), "<binary>"@);
    assert(4 * (images * repetitions) == 4 * repetitions * images) by (nonlinear_arith);
}

/// A replay opens with the recorded header, unchanged, and the rewritten
/// configuration.
pub proof fn lemma_replay_opening(data: Seq<u8>, repetitions: nat)
    requires
        replay(data, repetitions) is Ok,
    ensures
        ({
            let all = records(data);
            let at = first_of_type(all, 0, "dheader-1.0"@)->0;
            let frames = count_label(all, "<binary>"@) * repetitions;
            let out = replay(data, repetitions)->Ok_0;
            &&& 0 <= at && at + 1 < all.len()
            &&& out[0] == all[at]
            &&& replayed_config(all[at + 1], frames as u64) == Some(out[1])
        }),
{
    lemma_first_of_type(records(data), 0, "dheader-1.0"@);
}

/// The image headers of a replay stand four records apart in the order of
/// their frame indices, `0` to one less than the number of images times the
/// number of repetitions, and behind each stand the three records that
/// follow its source in the recording, unchanged.
pub proof fn lemma_replay_frame_order(data: Seq<u8>, repetitions: nat, frame: int)
    requires
        replay(data, repetitions) is Ok,
        0 <= frame < count_label(records(data), "<binary>"@) * repetitions,
    ensures
        ({
            let all = records(data);
            let images = count_label(all, "<binary>"@);
            let first = first_of_type(all, 0, "dheader-1.0"@)->0 + 2;
            let source = first + 4 * (frame % (images as int));
            let out = replay(data, repetitions)->Ok_0;
            &&& 0 <= frame % (images as int) < images
            &&& source + 4 <= all.len()
            &&& 2 + 4 * frame + 4 <= out.len()
            &&& replayed_header(all[source], frame as u64) == Some(out[2 + 4 * frame])
            &&& out[2 + 4 * frame + 1] == all[source + 1]
            &&& out[2 + 4 * frame + 2] == all[source + 2]
            &&& out[2 + 4 * frame + 3] == all[source + 3]
        }),
{
    let all = records(data);
    let images = count_label(all, "<binary>"@);
    let frames = images * repetitions;
    let at = first_of_type(all, 0, "dheader-1.0"@)->0;
    let out = replay(data, repetitions)->Ok_0;
    lemma_first_of_type(all, 0, "dheader-1.0"@);
    assert(images > 0 && repetitions > 0) by (nonlinear_arith)
        requires
            0 <= frame < images * repetitions,
    ;
    lemma_mod_bound(frame, images as int);
    let tail = Seq::new(4 * frames, |i: int| replayed_image_record(all, at + 2, images, i));
    assert(frame_header(all, at + 2, images, frame) is Some);
    assert(out[2 + 4 * frame] == tail[4 * frame]);
    assert(out[2 + 4 * frame + 1] == tail[4 * frame + 1]);
    assert(out[2 + 4 * frame + 2] == tail[4 * frame + 2]);
    assert(out[2 + 4 * frame + 3] == tail[4 * frame + 3]);
    assert((4 * frame) / 4 == frame && (4 * frame + 1) / 4 == frame && (4 * frame + 2) / 4 == frame
        && (4 * frame + 3) / 4 == frame);
}

/// A replay is itself a dump that reads back as the records emitted,
/// provided the records that were written anew are of a length that the
/// prefix can declare.
pub proof fn lemma_replay_is_a_dump(data: Seq<u8>, repetitions: nat)
    requires
        replay(data, repetitions) is Ok,
        forall|i: int|
            0 <= i < replay(data, repetitions)->Ok_0.len() ==> fits_prefix(
                #[trigger] replay(data, repetitions)->Ok_0[i],
            ),
    ensures
        well_framed(frame_all(replay(data, repetitions)->Ok_0)),
        records(frame_all(replay(data, repetitions)->Ok_0)) == replay(data, repetitions)->Ok_0,
{
    lemma_roundtrip_records(replay(data, repetitions)->Ok_0);
}

/// The JSON value of the configuration that a replay of `frames` frames
/// announces, made from the recorded configuration record `raw`.
pub open spec fn announced_config(raw: Seq<u8>, frames: u64) -> serde_json::Value {
    rewritten_config(json_parse(raw)->0, frames)
}

/// The JSON value of the image header that a replay emits for frame `frame`.
pub open spec fn frame_header_value(
    payloads: Seq<Seq<u8>>,
    first: int,
    images: nat,
    frame: int,
) -> serde_json::Value {
    renumbered(json_parse(header_source(payloads, first, images, frame))->0, frame as u64)
}

/// The configuration of a replay of `frames` frames announces that many
/// triggers, one image per trigger, and external triggering.
pub open spec fn config_announces(raw: Seq<u8>, frames: u64) -> bool {
    let config = announced_config(raw, frames);
    &&& json_bytes(config) == replayed_config(raw, frames)
    &&& u64_member(config, "ntrigger"@) == Some(frames)
    &&& u64_member(config, "nimages"@) == Some(1u64)
    &&& str_member(config, "trigger_mode"@) == Some("exte"@)
}

/// The image header emitted for each frame holds that frame's index:
/// headers count up from zero in the order in which they are emitted.
pub open spec fn frames_numbered(payloads: Seq<Seq<u8>>, first: int, images: nat, frames: int) -> bool {
    forall|frame: int|
        0 <= frame < frames ==> {
            let header = #[trigger] frame_header_value(payloads, first, images, frame);
            &&& json_bytes(header) == frame_header(payloads, first, images, frame)
            &&& u64_member(header, "frame"@) == Some(frame as u64)
        }
}

/// Emits one image quadruple: the header with its frame index set to
/// `frame`, then the three records behind it as they are.
fn replay_quadruple(cursor: &mut RecordCursor, out: &mut Vec<u8>, frame: u64) -> (done: Result<
    (),
    DumpError,
>)
    requires
        old(cursor).wf(),
        old(cursor).index() + 4 <= records(old(cursor).source()).len(),
    ensures
        final(cursor).wf(),
        final(cursor).source() == old(cursor).source(),
        match done {
            Ok(()) => {
                let all = records(old(cursor).source());
                let at = old(cursor).index() as int;
                let header = renumbered(json_parse(all[at])->0, frame);
                &&& final(cursor).index() == at + 4
                &&& replayed_header(all[at], frame) is Some
                &&& json_bytes(header) == replayed_header(all[at], frame)
                &&& u64_member(header, "frame"@) == Some(frame)
                &&& final(out)@ == old(out)@ + frame_all(
                    seq![replayed_header(all[at], frame)->0, all[at + 1], all[at + 2], all[at + 3]],
                )
            },
            Err(e) => {
                let all = records(old(cursor).source());
                &&& e == DumpError::JsonParse
                &&& replayed_header(all[old(cursor).index() as int], frame) is None
            },
        },
{
    let ghost all = records(cursor.source());
    let ghost at = cursor.index() as int;
    let ghost before = out@;
    let mut dimage = cursor.read_and_deserialize()?;
    if DImage::from_value(&dimage).is_none() {
        return Err(DumpError::JsonParse);
    }
    replace_member(&mut dimage, "frame", value_of_u64(frame));
    write_serializable(out, &dimage)?;
    let ghost header = replayed_header(all[at], frame)->0;
    let dimaged = cursor.read_raw_msg()?;
    write_raw_msg(out, dimaged);
    let image = cursor.read_raw_msg()?;
    write_raw_msg(out, image);
    let config = cursor.read_raw_msg()?;
    write_raw_msg(out, config);
    proof {
        let q0 = Seq::<Seq<u8>>::empty().push(header);
        let q1 = q0.push(all[at + 1]);
        let q2 = q1.push(all[at + 2]);
        let q3 = q2.push(all[at + 3]);
        lemma_frame_all_push(Seq::<Seq<u8>>::empty(), header);
        lemma_frame_all_push(q0, all[at + 1]);
        lemma_frame_all_push(q1, all[at + 2]);
        lemma_frame_all_push(q2, all[at + 3]);
        assert(q3 =~= seq![header, all[at + 1], all[at + 2], all[at + 3]]);
        assert(out@ =~= before + frame_all(q3));
    }
    Ok(())
}

/// Replays the acquisition recorded in `file`: the header as recorded, the
/// configuration rewritten to announce `repetitions` times the recorded
/// images, and the image quadruples `repetitions` times over, each image
/// header renumbered so that frame indices count up from zero through all
/// repetitions. The result is the replay as one framed byte stream.
pub fn action_repeat(file: &DumpRecordFile, repetitions: usize) -> (replayed: Result<
    Vec<u8>,
    DumpError,
>)
    ensures
        match replayed {
            Ok(out) => {
                let all = records(file@);
                let images = count_label(all, "<binary>"@);
                let at = first_of_type(all, 0, "dheader-1.0"@)->0;
                &&& replay(file@, repetitions as nat) is Ok
                &&& out@ == frame_all(replay(file@, repetitions as nat)->Ok_0)
                &&& config_announces(all[at + 1], (images * repetitions) as u64)
                &&& frames_numbered(all, at + 2, images, images * repetitions)
            },
            Err(e) => replay(file@, repetitions as nat) == Err::<Seq<Seq<u8>>, DumpError>(e),
        },
{
    let ghost all = records(file@);
    let ghost images = count_label(all, "<binary>"@);
    let ghost frames: nat = images * (repetitions as nat);
    let mut out: Vec<u8> = Vec::new();
    let mut cursor = file.get_cursor();

    cursor.seek_to_first_header_of_type("dheader-1.0")?;
    let header_idx = cursor.get_msg_idx();
    let ghost at = header_idx as int;
    proof {
        lemma_first_of_type(all, 0, "dheader-1.0"@);
    }
    let dheader = cursor.read_raw_msg()?;
    write_raw_msg(&mut out, dheader);

    let mut detector_config_value = cursor.read_and_deserialize()?;
    if DetectorConfig::from_value(&detector_config_value).is_none() {
        return Err(DumpError::JsonParse);
    }
    // the configuration may be wrong about the number of images, so they are counted
    let summary = get_summary(file)?;
    let nimages: usize = match summary.get("<binary>") {
        Some(n) => n,
        None => 0,
    };
    assert(nimages == images);
    let dest_num_images: u64 = match (nimages as u64).checked_mul(repetitions as u64) {
        Some(n) => n,
        None => {
            return Err(DumpError::FrameCount);
        },
    };
    assert(dest_num_images == frames);

    rewrite_config(&mut detector_config_value, dest_num_images);
    write_serializable(&mut out, &detector_config_value)?;
    let ghost config_out = replayed_config(all[at + 1], dest_num_images)->0;
    let ghost mut emitted: Seq<Seq<u8>> = seq![all[at], config_out];
    proof {
        let none = Seq::<Seq<u8>>::empty();
        lemma_frame_all_push(none, all[at]);
        lemma_frame_all_push(none.push(all[at]), config_out);
        assert(emitted =~= none.push(all[at]).push(config_out));
        assert(out@ =~= frame_all(emitted));
        assert(config_announces(all[at + 1], dest_num_images));
    }

    let available: usize = summary.total() - header_idx - 2;
    if repetitions > 0 && nimages > available / 4 {
        return Err(DumpError::Framing);
    }
    let mut idx: u64 = 0;
    let mut rep: usize = 0;
    while rep < repetitions
        invariant
            all == records(file@),
            images == count_label(all, "<binary>"@),
            frames == images * repetitions,
            frames <= u64::MAX,
            nimages == images,
            0 <= at,
            at + 1 < all.len(),
            repetitions > 0 ==> at + 2 + 4 * images <= all.len(),
            rep <= repetitions,
            idx == rep * images,
            out@ == frame_all(emitted),
            emitted.len() == 2 + 4 * idx,
            emitted[0] == all[at],
            emitted[1] == config_out,
            forall|i: int|
                2 <= i < emitted.len() ==> #[trigger] emitted[i] == replayed_image_record(
                    all,
                    at + 2,
                    images,
                    i - 2,
                ),
            is_config_record(all[at + 1]),
            replayed_config(all[at + 1], frames as u64) is Some,
            config_out == replayed_config(all[at + 1], frames as u64)->0,
            well_framed(file@),
            first_of_type(all, 0, "dheader-1.0"@) == Some(at),
            forall|frame: int|
                0 <= frame < idx ==> #[trigger] frame_header(all, at + 2, images, frame) is Some,
            frames_numbered(all, at + 2, images, idx as int),
        decreases repetitions - rep,
    {
        let mut rep_cursor = file.get_cursor();
        rep_cursor.seek_to_first_header_of_type("dheader-1.0")?;
        rep_cursor.read_raw_msg()?;
        rep_cursor.read_raw_msg()?;

        let mut k: usize = 0;
        while k < nimages
            invariant
                all == records(file@),
                images == count_label(all, "<binary>"@),
                frames == images * repetitions,
                frames <= u64::MAX,
                nimages == images,
                0 <= at,
                at + 1 < all.len(),
                at + 2 + 4 * images <= all.len(),
                rep < repetitions,
                k <= nimages,
                idx == rep * images + k,
                rep_cursor.wf(),
                rep_cursor.source() == file@,
                rep_cursor.index() == at + 2 + 4 * k,
                out@ == frame_all(emitted),
                emitted.len() == 2 + 4 * idx,
                emitted[0] == all[at],
                emitted[1] == config_out,
                forall|i: int|
                    2 <= i < emitted.len() ==> #[trigger] emitted[i] == replayed_image_record(
                        all,
                        at + 2,
                        images,
                        i - 2,
                    ),
                is_config_record(all[at + 1]),
                replayed_config(all[at + 1], frames as u64) is Some,
                config_out == replayed_config(all[at + 1], frames as u64)->0,
                well_framed(file@),
                first_of_type(all, 0, "dheader-1.0"@) == Some(at),
                forall|frame: int|
                    0 <= frame < idx ==> #[trigger] frame_header(all, at + 2, images, frame)
                        is Some,
                frames_numbered(all, at + 2, images, idx as int),
            decreases nimages - k,
        {
            let ghost here = at + 2 + 4 * k;
            proof {
                lemma_fundamental_div_mod_converse(idx as int, images as int, rep as int, k as int);
                assert(header_source(all, at + 2, images, idx as int) == all[here]);
                assert(idx < frames) by (nonlinear_arith)
                    requires
                        idx == rep * images + k,
                        k < images,
                        rep < repetitions,
                        frames == images * repetitions,
                {
                    assert((rep + 1) * images <= repetitions * images);
                }
            }
            match replay_quadruple(&mut rep_cursor, &mut out, idx) {
                Err(e) => {
                    assert(frame_header(all, at + 2, images, idx as int) is None);
                    return Err(e);
                },
                Ok(()) => {},
            }
            proof {
                let header = replayed_header(all[here], idx)->0;
                let quadruple = seq![header, all[here + 1], all[here + 2], all[here + 3]];
                let longer = emitted + quadruple;
                lemma_frame_all_concat(emitted, quadruple);
                assert forall|i: int| 2 <= i < longer.len() implies #[trigger] longer[i]
                    == replayed_image_record(all, at + 2, images, i - 2) by {
                    if i >= emitted.len() {
                        assert((i - 2) / 4 == idx as int);
                        assert(longer[i] == quadruple[i - emitted.len()]);
                    } else {
                        assert(longer[i] == emitted[i]);
                    }
                }
                assert(frame_header_value(all, at + 2, images, idx as int) == renumbered(
                    json_parse(all[here])->0,
                    idx,
                ));
                emitted = longer;
            }
            idx = idx + 1;
            k = k + 1;
        }
        proof {
            assert(rep * images + images == (rep + 1) * images) by (nonlinear_arith);
        }
        rep = rep + 1;
    }
    proof {
        assert(idx == frames) by (nonlinear_arith)
            requires
                idx == rep * images,
                rep == repetitions,
                frames == images * repetitions,
        ;
        let expected = seq![all[at], config_out] + Seq::new(
            4 * frames,
            |i: int| replayed_image_record(all, at + 2, images, i),
        );
        assert(emitted =~= expected);
    }
    Ok(out)
}

} // verus!
