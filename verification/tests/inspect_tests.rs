use dectris_replay::cursor::DumpRecordFile;
use dectris_replay::error::DumpError;
use dectris_replay::inspect::{action_inspect, inspect_dump_msg, InspectedMsg, MsgBody};

fn framed(payload: &[u8]) -> Vec<u8> {
    let mut bytes = (payload.len() as i64).to_le_bytes().to_vec();
    bytes.extend_from_slice(payload);
    bytes
}

fn dump_of(payloads: &[&[u8]]) -> Vec<u8> {
    let mut bytes = Vec::new();
    for payload in payloads {
        bytes.extend_from_slice(&framed(payload));
    }
    bytes
}

const HEADER: &[u8] = b"{\"htype\":\"dheader-1.0\",\"series\":2}";
const CONFIG: &[u8] = b"{\"nimages\":1,\"ntrigger\":2,\"trigger_mode\":\"exts\"}";
const IMAGE: &[u8] = b"{\"htype\":\"dimage-1.0\",\"frame\":0}";
const IMAGE_D: &[u8] = b"{\"htype\":\"dimage_d-1.0\"}";
const BLOB_A: &[u8] = b"\x00\x10\x20";
const BLOB_B: &[u8] = b"\xff\xee";
const TRAILER: &[u8] = b"{\"htype\":\"dconfig-1.0\"}";

fn two_images() -> Vec<u8> {
    dump_of(&[HEADER, CONFIG, IMAGE, IMAGE_D, BLOB_A, TRAILER, IMAGE, IMAGE_D, BLOB_B, TRAILER])
}

#[test]
fn inspect_shows_json_as_indented_text() {
    let shown = inspect_dump_msg(b"{\"htype\":\"dheader-1.0\",\"series\":[1,2],\"o\":{}}", 3).unwrap();
    assert_eq!(
        shown,
        InspectedMsg {
            idx: 3,
            body: MsgBody::Json(
                "{\n  \"htype\": \"dheader-1.0\",\n  \"o\": {},\n  \"series\": [\n    1,\n    2\n  ]\n}"
                    .to_string()
            ),
        }
    );
}

#[test]
fn inspect_shows_binary_with_its_length() {
    assert_eq!(
        inspect_dump_msg(b"\x00\x01\x02\x03\x04", 9),
        Ok(InspectedMsg { idx: 9, body: MsgBody::Binary(5) })
    );
    assert_eq!(inspect_dump_msg(b"", 0), Ok(InspectedMsg { idx: 0, body: MsgBody::Binary(0) }));
}

#[test]
fn inspect_head_looks_at_the_first_records() {
    let file = DumpRecordFile::new(two_images());
    let report = action_inspect(&file, Some(5), false).unwrap();
    assert_eq!(report.messages.len(), 5);
    for (i, msg) in report.messages.iter().enumerate() {
        assert_eq!(msg.idx, i);
    }
    assert_eq!(report.messages[4].body, MsgBody::Binary(3));
    assert_eq!(
        report.messages[0].body,
        MsgBody::Json("{\n  \"htype\": \"dheader-1.0\",\n  \"series\": 2\n}".to_string())
    );
    assert!(report.summary.is_none());
}

#[test]
fn inspect_head_zero_looks_at_nothing() {
    let file = DumpRecordFile::new(two_images());
    let report = action_inspect(&file, Some(0), false).unwrap();
    assert!(report.messages.is_empty());
}

#[test]
fn inspect_without_head_looks_at_everything() {
    let file = DumpRecordFile::new(two_images());
    let report = action_inspect(&file, None, false).unwrap();
    assert_eq!(report.messages.len(), 10);
    assert_eq!(report.messages[8], InspectedMsg { idx: 8, body: MsgBody::Binary(2) });
    assert_eq!(
        report.messages[9],
        InspectedMsg { idx: 9, body: MsgBody::Json("{\n  \"htype\": \"dconfig-1.0\"\n}".to_string()) }
    );
}

#[test]
fn inspect_with_summary_counts_the_whole_dump() {
    let file = DumpRecordFile::new(two_images());
    let report = action_inspect(&file, Some(1), true).unwrap();
    assert_eq!(report.messages.len(), 1);
    let summary = report.summary.unwrap();
    assert_eq!(summary.get("dheader-1.0"), Some(1));
    assert_eq!(summary.get("<unknown>"), Some(1));
    assert_eq!(summary.get("dimage-1.0"), Some(2));
    assert_eq!(summary.get("<binary>"), Some(2));
    assert_eq!(summary.total(), 10);
}

#[test]
fn inspect_head_past_the_records_is_a_framing_error() {
    let file = DumpRecordFile::new(two_images());
    assert!(matches!(action_inspect(&file, Some(11), false), Err(DumpError::Framing)));
    assert!(action_inspect(&file, Some(10), false).is_ok());
}

#[test]
fn inspect_of_a_broken_dump() {
    let mut data = dump_of(&[HEADER]);
    data.extend_from_slice(&[1, 0, 0]);
    let file = DumpRecordFile::new(data);
    assert!(matches!(action_inspect(&file, None, false), Err(DumpError::Framing)));
    assert!(matches!(action_inspect(&file, Some(1), true), Err(DumpError::Framing)));
    assert_eq!(action_inspect(&file, Some(1), false).unwrap().messages.len(), 1);
}

